//! How a client reads what a server answers.

use vstd::prelude::*;
use vstd::string::*;
use vstd::utf8::{decode_utf8, valid_utf8};

use crate::client::cursor::PairView;
use crate::client::error::ErrorView;
use crate::client::remote::{
    all_told, any_text, command_options, pair_of, pairs_of, scan_outcome, stats_outcome, translated,
    value_of, ConnError, ConnView,
};
use crate::client::types::PutOptions;
use crate::protocol::frame::FrameView;
use crate::text::{
    ascii_chars, decimal, find_char, is_digit, lemma_ascii_is_utf8, lemma_decimal, starts_with,
    unsigned_numeral,
};

verus! {

proof fn lemma_starts(p: Seq<char>, rest: Seq<char>, q: Seq<char>)
    ensures
        starts_with(p + rest, p),
        (p + rest).skip(p.len() as int) == rest,
        p.len() > 0 && q.len() > 0 && p[0] != q[0] ==> !starts_with(p + rest, q),
        p.len() > 1 && q.len() > 1 && p[1] != q[1] ==> !starts_with(p + rest, q),
{
    let s = p + rest;
    assert(s.take(p.len() as int) =~= p);
    assert(s.skip(p.len() as int) =~= rest);
    if starts_with(s, q) {
        if p.len() > 0 && q.len() > 0 {
            assert(s.take(q.len() as int)[0] == s[0]);
        }
        if p.len() > 1 && q.len() > 1 {
            assert(s.take(q.len() as int)[1] == s[1]);
        }
    }
}

proof fn lemma_find_after(digits: Seq<char>, rest: Seq<char>, i: int)
    requires
        0 <= i <= digits.len(),
        forall|k: int| 0 <= k < digits.len() ==> #[trigger] digits[k] != ' ',
    ensures
        find_char(digits + seq![' '] + rest, ' ', i) == digits.len(),
    decreases digits.len() - i,
{
    let s = digits + seq![' '] + rest;
    if i < digits.len() {
        assert(s[i] == digits[i]);
        lemma_find_after(digits, rest, i + 1);
    } else {
        assert(s[i] == ' ');
    }
}

/// A redirection that names a partition and an address is read as that partition
/// and that address.
pub proof fn law_redirections_are_read(partition: u32, addr: Seq<char>)
    ensures
        translated("MOVED "@ + (ascii_chars(decimal(partition as nat)) + seq![' '] + addr))
            == (ErrorView::Moved { partition, addr }),
{
    let d = decimal(partition as nat);
    let digits = ascii_chars(d);
    let rest = digits + seq![' '] + addr;
    lemma_starts("MOVED "@, rest, "MOVED "@);
    lemma_decimal(partition as nat);
    assert forall|k: int| 0 <= k < d.len() implies #[trigger] d[k] < 128 by {
        assert(is_digit(d[k]));
    }
    assert forall|k: int| 0 <= k < digits.len() implies #[trigger] digits[k] != ' ' by {
        assert(is_digit(d[k]));
    }
    lemma_find_after(digits, addr, 0);
    lemma_ascii_is_utf8(d);
    assert(rest.take(digits.len() as int) =~= digits);
    assert(rest.skip(digits.len() as int + 1) =~= addr);
    assert(is_digit(d[0]));
}

/// What the first word of a refusal means, whatever follows it.
pub proof fn law_refusals_are_read(rest: Seq<char>)
    ensures
        translated("NOAUTH "@ + rest) == ErrorView::Auth(rest),
        translated("WRONGPASS "@ + rest) == ErrorView::Auth(rest),
        translated("CURSOR "@ + rest) == ErrorView::InvalidCursor,
        translated("CROSSPARTITION "@ + rest) == ErrorView::InvalidArgument(
            "CROSSPARTITION "@ + rest,
        ),
{
    reveal_strlit("MOVED ");
    reveal_strlit("NOAUTH ");
    reveal_strlit("WRONGPASS ");
    reveal_strlit("CURSOR ");
    reveal_strlit("CROSSPARTITION ");
    assert("MOVED "@[0] == 'M' && "NOAUTH "@[0] == 'N' && "WRONGPASS "@[0] == 'W');
    assert("CURSOR "@[0] == 'C' && "CROSSPARTITION "@[0] == 'C');
    assert("CURSOR "@[1] == 'U' && "CROSSPARTITION "@[1] == 'R');
    lemma_starts("NOAUTH "@, rest, "MOVED "@);
    lemma_starts("WRONGPASS "@, rest, "MOVED "@);
    lemma_starts("WRONGPASS "@, rest, "NOAUTH "@);
    lemma_starts("CURSOR "@, rest, "MOVED "@);
    lemma_starts("CURSOR "@, rest, "NOAUTH "@);
    lemma_starts("CURSOR "@, rest, "WRONGPASS "@);
    lemma_starts("CROSSPARTITION "@, rest, "MOVED "@);
    lemma_starts("CROSSPARTITION "@, rest, "NOAUTH "@);
    lemma_starts("CROSSPARTITION "@, rest, "WRONGPASS "@);
    lemma_starts("CROSSPARTITION "@, rest, "CURSOR "@);
}

/// A key that is text and a value, one behind the other, are a pair.
pub open spec fn is_pair(items: Seq<FrameView>, k: int, p: PairView) -> bool {
    &&& items[2 * k] matches FrameView::Bulk(Some(a))
    &&& items[2 * k + 1] matches FrameView::Bulk(Some(b))
    &&& valid_utf8(a)
    &&& p.key == decode_utf8(a)
    &&& p.value == b
}

/// A list in which keys that are text and their values take turns is read as those
/// pairs, in their order.
pub proof fn law_pairs_are_read(items: Seq<FrameView>, pairs: Seq<PairView>)
    requires
        items.len() == 2 * pairs.len(),
        forall|k: int| 0 <= k < pairs.len() ==> is_pair(items, k, #[trigger] pairs[k]),
    ensures
        pairs_of(items, pairs.len() as int) == pairs,
{
    lemma_pairs_upto(items, pairs, pairs.len() as int);
    assert(pairs.take(pairs.len() as int) =~= pairs);
}

proof fn lemma_pairs_upto(items: Seq<FrameView>, pairs: Seq<PairView>, n: int)
    requires
        items.len() == 2 * pairs.len(),
        0 <= n <= pairs.len(),
        forall|k: int| 0 <= k < pairs.len() ==> is_pair(items, k, #[trigger] pairs[k]),
    ensures
        pairs_of(items, n) == pairs.take(n),
    decreases n,
{
    if n > 0 {
        lemma_pairs_upto(items, pairs, n - 1);
        assert(is_pair(items, n - 1, pairs[n - 1]));
        assert(2 * (n - 1) == 2 * n - 2);
        assert(pair_of(items[2 * n - 2], items[2 * n - 1]) == Some(pairs[n - 1]));
        assert(pairs.take(n) =~= pairs.take(n - 1).push(pairs[n - 1]));
    } else {
        assert(pairs.take(0) =~= Seq::empty());
    }
}

/// What stands under a key is the last value given for it that is text.
pub proof fn law_last_value_counts(pairs: Seq<PairView>, key: Seq<char>, i: int)
    requires
        0 <= i < pairs.len(),
        pairs[i].key == key,
        valid_utf8(pairs[i].value),
        forall|k: int|
            i < k < pairs.len() ==> (#[trigger] pairs[k]).key != key || !valid_utf8(pairs[k].value),
    ensures
        value_of(pairs, key, pairs.len() as int) == Some(pairs[i].value),
{
    lemma_value_upto(pairs, key, i, pairs.len() as int);
}

proof fn lemma_value_upto(pairs: Seq<PairView>, key: Seq<char>, i: int, n: int)
    requires
        0 <= i < n <= pairs.len(),
        pairs[i].key == key,
        valid_utf8(pairs[i].value),
        forall|k: int|
            i < k < pairs.len() ==> (#[trigger] pairs[k]).key != key || !valid_utf8(pairs[k].value),
    ensures
        value_of(pairs, key, n) == Some(pairs[i].value),
    decreases n,
{
    if n - 1 > i {
        lemma_value_upto(pairs, key, i, n - 1);
    }
}

/// The answer to a scan holds the pairs that were found behind a cursor; anything
/// of another shape is no answer.
pub proof fn law_scan_answers_are_read(
    cursor: FrameView,
    items: Seq<FrameView>,
    pairs: Seq<PairView>,
    shown: Seq<char>,
)
    requires
        items.len() == 2 * pairs.len(),
        forall|k: int| 0 <= k < pairs.len() ==> is_pair(items, k, #[trigger] pairs[k]),
    ensures
        scan_outcome(FrameView::Array(Some(seq![cursor, FrameView::Array(Some(items))])), shown)
            == Ok::<Seq<PairView>, ErrorView>(pairs),
        forall|f: FrameView|
            !(f is Array) ==> (#[trigger] scan_outcome(f, shown)) is Err,
        scan_outcome(FrameView::Array(None), shown) is Err,
{
    law_pairs_are_read(items, pairs);
    let parts = seq![cursor, FrameView::Array(Some(items))];
    assert(parts.len() == 2 && parts[1] == FrameView::Array(Some(items)));
    assert(items.len() as int / 2 == pairs.len());
}

/// The figures of a server are its connections and its commands, as it gives them
/// under those names.
pub proof fn law_server_figures_are_read(
    items: Seq<FrameView>,
    pairs: Seq<PairView>,
    connections: int,
    commands: int,
    i: int,
    j: int,
)
    requires
        items.len() == 2 * pairs.len(),
        forall|k: int| 0 <= k < pairs.len() ==> is_pair(items, k, #[trigger] pairs[k]),
        0 <= i < pairs.len(),
        0 <= j < pairs.len(),
        pairs[i].key == "connections"@,
        pairs[j].key == "commands_total"@,
        valid_utf8(pairs[i].value),
        valid_utf8(pairs[j].value),
        forall|k: int| i < k < pairs.len() ==> (#[trigger] pairs[k]).key != "connections"@,
        forall|k: int| j < k < pairs.len() ==> (#[trigger] pairs[k]).key != "commands_total"@,
        unsigned_numeral(pairs[i].value) == Some(connections),
        unsigned_numeral(pairs[j].value) == Some(commands),
        0 <= connections <= usize::MAX,
        0 <= commands <= usize::MAX,
    ensures
        stats_outcome(FrameView::Array(Some(items))) matches Ok(s) && s.len() == 1
            && s[0].stats.len == connections && s[0].stats.inuse == commands,
{
    law_pairs_are_read(items, pairs);
    assert(items.len() as int / 2 == pairs.len());
    law_last_value_counts(pairs, "connections"@, i);
    law_last_value_counts(pairs, "commands_total"@, j);
    assert(valid_utf8(pairs[i].value));
    assert(any_text(pairs));
}

/// When a connection ends, each waiting request is told why: that it was closed or
/// could not be read counts as closed, with the same words.
pub proof fn law_waiting_requests_are_told(
    waiting: Seq<u64>,
    told: Seq<(u64, ConnError)>,
    m: Seq<char>,
)
    ensures
        all_told(waiting, ConnView::Closed(m), told) <==> told.len() == waiting.len() && forall|
            i: int,
        |
            0 <= i < told.len() ==> (#[trigger] told[i]).0 == waiting[i] && told[i].1@
                == ConnView::Closed(m),
        all_told(waiting, ConnView::Io(m), told) <==> all_told(waiting, ConnView::Closed(m), told),
        all_told(waiting, ConnView::Protocol(m), told) <==> told.len() == waiting.len() && forall|
            i: int,
        |
            0 <= i < told.len() ==> (#[trigger] told[i]).0 == waiting[i] && told[i].1@
                == ConnView::Protocol(m),
{
}

/// The options of a write go to the server as they are.
pub proof fn law_options_are_sent_as_given(o: PutOptions)
    ensures
        ({
            let c = command_options(o);
            &&& c.ex == o.ex
            &&& c.px == o.px
            &&& c.exat == o.exat
            &&& c.pxat == o.pxat
            &&& c.nx == o.nx
            &&& c.xx == o.xx
            &&& c.timestamp == o.timestamp
        }),
{
}

} // verus!
