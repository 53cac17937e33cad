//! What holds of the codec as a whole: a frame is recognised from its own
//! bytes alone, every shorter prefix of it asks for more, and decoding gives
//! back what was encoded.

use vstd::prelude::*;
use vstd::utf8::*;

use crate::protocol::codec::{
    aggregate_at, breaks_line, bulk_at, decode_step, emit, emit_items, emit_pairs, find_crlf,
    frame_at, inline_ping, is_big_number, items_at, known_prefix, line, number_line, pairs_at,
    text_line, Decoded, Limits, ProtocolVersion, DEFAULT_MAX_ARRAY_LEN, DEFAULT_MAX_BULK_SIZE,
    MAX_DEPTH, PREFIX_ARRAY, PREFIX_BIG_NUMBER, PREFIX_BOOLEAN, PREFIX_BULK, PREFIX_DOUBLE,
    PREFIX_ERROR, PREFIX_INTEGER, PREFIX_MAP, PREFIX_NULL, PREFIX_PUSH, PREFIX_SET, PREFIX_SIMPLE,
};
use crate::protocol::double::{is_double, lemma_double_is_one_line, spells};
use crate::protocol::error::ErrorView;
use crate::protocol::frame::FrameView;
use crate::text::{
    decimal, is_digit, lemma_ascii_is_utf8, lemma_signed_decimal, lemma_signed_decimal_ascii, lower,
    signed_decimal,
};

verus! {

/// `b` and `c` both reach `n` bytes and agree on those.
pub open spec fn agree(b: Seq<u8>, c: Seq<u8>, n: int) -> bool {
    &&& 0 <= n <= b.len()
    &&& n <= c.len()
    &&& forall|i: int| 0 <= i < n ==> #[trigger] b[i] == c[i]
}

proof fn lemma_agree_skip(b: Seq<u8>, c: Seq<u8>, u: int, n: int)
    requires
        agree(b, c, u + n),
        0 <= u,
        0 <= n,
    ensures
        agree(b, c, u),
        agree(b.skip(u), c.skip(u), n),
{
    assert forall|i: int| 0 <= i < n implies #[trigger] b.skip(u)[i] == c.skip(u)[i] by {
        assert(b[u + i] == c[u + i]);
    }
}

proof fn lemma_crlf(b: Seq<u8>, from: int)
    requires
        0 <= from,
    ensures
        find_crlf(b, from) matches Some(i) ==> from <= i && i + 1 < b.len() && b[i] == 13 && b[i
            + 1] == 10,
    decreases b.len() - from,
{
    if from + 1 < b.len() && !(b[from] == 13 && b[from + 1] == 10) {
        lemma_crlf(b, from + 1);
    }
}

proof fn lemma_crlf_agree(b: Seq<u8>, c: Seq<u8>, from: int)
    requires
        0 <= from,
        find_crlf(b, from) is Some,
        agree(b, c, find_crlf(b, from)->0 + 2),
    ensures
        find_crlf(c, from) == find_crlf(b, from),
    decreases b.len() - from,
{
    lemma_crlf(b, from);
    assert(b[from] == c[from]);
    assert(b[from + 1] == c[from + 1]);
    if !(b[from] == 13 && b[from + 1] == 10) {
        lemma_crlf_agree(b, c, from + 1);
    }
}

proof fn lemma_crlf_cut(b: Seq<u8>, from: int, k: int)
    requires
        0 <= from,
        find_crlf(b, from) matches Some(i) && 0 <= k < i + 2,
        k <= b.len(),
    ensures
        find_crlf(b.take(k), from) is None,
    decreases b.len() - from,
{
    lemma_crlf(b, from);
    if from + 1 < k {
        assert(b.take(k)[from] == b[from] && b.take(k)[from + 1] == b[from + 1]);
        assert(!(b[from] == 13 && b[from + 1] == 10));
        lemma_crlf_cut(b, from + 1, k);
    }
}

proof fn lemma_take_agree(b: Seq<u8>, c: Seq<u8>, n: int, i: int)
    requires
        agree(b, c, n),
        0 <= i <= n,
    ensures
        b.take(i) == c.take(i),
{
    assert(b.take(i) =~= c.take(i));
}

proof fn lemma_number_line(b: Seq<u8>, c: Seq<u8>, k: int)
    requires
        number_line(b) is Ok,
    ensures
        0 < number_line(b)->Ok_0.1 <= b.len(),
        agree(b, c, number_line(b)->Ok_0.1) ==> number_line(c) == number_line(b),
        0 <= k < number_line(b)->Ok_0.1 ==> number_line(b.take(k)) == Err::<
            (int, int),
            ErrorView,
        >(ErrorView::Incomplete),
{
    let i = find_crlf(b, 0)->0;
    lemma_crlf(b, 0);
    if agree(b, c, i + 2) {
        lemma_crlf_agree(b, c, 0);
        lemma_take_agree(b, c, i + 2, i);
    }
    if 0 <= k < i + 2 {
        lemma_crlf_cut(b, 0, k);
    }
}

proof fn lemma_text_line(b: Seq<u8>, c: Seq<u8>, k: int, what: Seq<char>)
    requires
        text_line(b, what) is Ok,
    ensures
        0 < text_line(b, what)->Ok_0.1 <= b.len(),
        agree(b, c, text_line(b, what)->Ok_0.1) ==> text_line(c, what) == text_line(b, what),
        0 <= k < text_line(b, what)->Ok_0.1 ==> text_line(b.take(k), what) == Err::<
            (Seq<char>, int),
            ErrorView,
        >(ErrorView::Incomplete),
{
    let i = find_crlf(b, 0)->0;
    lemma_crlf(b, 0);
    if agree(b, c, i + 2) {
        lemma_crlf_agree(b, c, 0);
        lemma_take_agree(b, c, i + 2, i);
    }
    if 0 <= k < i + 2 {
        lemma_crlf_cut(b, 0, k);
    }
}

proof fn lemma_bulk(b: Seq<u8>, c: Seq<u8>, k: int, max_bulk: int)
    requires
        bulk_at(b, max_bulk) is Ok,
    ensures
        0 < bulk_at(b, max_bulk)->Ok_0.1 <= b.len(),
        agree(b, c, bulk_at(b, max_bulk)->Ok_0.1) ==> bulk_at(c, max_bulk) == bulk_at(b, max_bulk),
        0 <= k < bulk_at(b, max_bulk)->Ok_0.1 ==> bulk_at(b.take(k), max_bulk) == Err::<
            (FrameView, int),
            ErrorView,
        >(ErrorView::Incomplete),
{
    let n = bulk_at(b, max_bulk)->Ok_0.1;
    let (len, used) = number_line(b)->Ok_0;
    lemma_number_line(b, c, k);
    if agree(b, c, n) {
        if len >= 0 {
            assert(b[used + len] == c[used + len]);
            assert(b[used + len + 1] == c[used + len + 1]);
            assert(b.subrange(used, used + len) =~= c.subrange(used, used + len));
        }
    }
    if 0 <= k < n && used <= k {
        lemma_number_line(b, b.take(k), 0);
        assert(agree(b, b.take(k), used));
    }
}

/// Bytes used are within the input.
proof fn lemma_frame_bound(b: Seq<u8>, lim: Limits, depth: int)
    requires
        0 <= depth <= MAX_DEPTH + 1,
        frame_at(b, lim, depth) is Ok,
    ensures
        0 < frame_at(b, lim, depth)->Ok_0.1 <= b.len(),
    decreases MAX_DEPTH + 2 - depth, 1int,
{
    let rest = b.skip(1);
    let p = b[0];
    if p == PREFIX_SIMPLE {
        lemma_text_line(rest, rest, 0, "simple string"@);
    } else if p == PREFIX_ERROR {
        lemma_text_line(rest, rest, 0, "error"@);
    } else if p == PREFIX_INTEGER {
        lemma_number_line(rest, rest, 0);
    } else if p == PREFIX_BULK {
        lemma_bulk(rest, rest, 0, lim.max_bulk);
    } else if p == PREFIX_ARRAY || p == PREFIX_SET || p == PREFIX_PUSH {
        let (n, used) = number_line(rest)->Ok_0;
        lemma_number_line(rest, rest, 0);
        if !(p == PREFIX_ARRAY && n == -1) {
            lemma_items_bound(rest.skip(used), lim, depth + 1, n as nat);
        }
    } else if p == PREFIX_MAP {
        let (n, used) = number_line(rest)->Ok_0;
        lemma_number_line(rest, rest, 0);
        lemma_pairs_bound(rest.skip(used), lim, depth + 1, n as nat);
    } else {
        lemma_crlf(rest, 0);
    }
}

proof fn lemma_items_bound(b: Seq<u8>, lim: Limits, depth: int, n: nat)
    requires
        0 <= depth <= MAX_DEPTH + 1,
        items_at(b, lim, depth, n) is Ok,
    ensures
        0 <= items_at(b, lim, depth, n)->Ok_0.1 <= b.len(),
        n > 0 ==> items_at(b, lim, depth, (n - 1) as nat) is Ok && items_at(
            b,
            lim,
            depth,
            (n - 1) as nat,
        )->Ok_0.1 <= items_at(b, lim, depth, n)->Ok_0.1,
    decreases MAX_DEPTH + 2 - depth, n + 2,
{
    if n > 0 {
        lemma_items_bound(b, lim, depth, (n - 1) as nat);
        let used = items_at(b, lim, depth, (n - 1) as nat)->Ok_0.1;
        lemma_frame_bound(b.skip(used), lim, depth);
    }
}

proof fn lemma_pairs_bound(b: Seq<u8>, lim: Limits, depth: int, n: nat)
    requires
        0 <= depth <= MAX_DEPTH + 1,
        pairs_at(b, lim, depth, n) is Ok,
    ensures
        0 <= pairs_at(b, lim, depth, n)->Ok_0.1 <= b.len(),
        n > 0 ==> pairs_at(b, lim, depth, (n - 1) as nat) is Ok && pairs_at(
            b,
            lim,
            depth,
            (n - 1) as nat,
        )->Ok_0.1 <= pairs_at(b, lim, depth, n)->Ok_0.1,
    decreases MAX_DEPTH + 2 - depth, n + 2,
{
    if n > 0 {
        lemma_pairs_bound(b, lim, depth, (n - 1) as nat);
        let used = pairs_at(b, lim, depth, (n - 1) as nat)->Ok_0.1;
        lemma_frame_bound(b.skip(used), lim, depth);
        let used_k = frame_at(b.skip(used), lim, depth)->Ok_0.1;
        lemma_frame_bound(b.skip(used + used_k), lim, depth);
    }
}

/// A frame is recognised from its own bytes alone: whatever follows them, the
/// same frame is read and the same bytes are used.
pub proof fn law_frame_needs_only_its_bytes(b: Seq<u8>, c: Seq<u8>, lim: Limits, depth: int)
    requires
        0 <= depth <= MAX_DEPTH + 1,
        frame_at(b, lim, depth) is Ok,
        agree(b, c, frame_at(b, lim, depth)->Ok_0.1),
    ensures
        frame_at(c, lim, depth) == frame_at(b, lim, depth),
    decreases MAX_DEPTH + 2 - depth, 1int,
{
    lemma_frame_bound(b, lim, depth);
    let rest = b.skip(1);
    let other = c.skip(1);
    let p = b[0];
    assert(b[0] == c[0]);
    let total = frame_at(b, lim, depth)->Ok_0.1;
    lemma_agree_skip(b, c, 1, total - 1);
    if p == PREFIX_SIMPLE {
        lemma_text_line(rest, other, 0, "simple string"@);
    } else if p == PREFIX_ERROR {
        lemma_text_line(rest, other, 0, "error"@);
    } else if p == PREFIX_INTEGER {
        lemma_number_line(rest, other, 0);
    } else if p == PREFIX_BULK {
        lemma_bulk(rest, other, 0, lim.max_bulk);
    } else if p == PREFIX_ARRAY || p == PREFIX_SET || p == PREFIX_PUSH {
        let (n, used) = number_line(rest)->Ok_0;
        lemma_number_line(rest, other, 0);
        if !(p == PREFIX_ARRAY && n == -1) {
            lemma_items_bound(rest.skip(used), lim, depth + 1, n as nat);
            lemma_agree_skip(rest, other, used, total - 1 - used);
            lemma_items_agree(rest.skip(used), other.skip(used), lim, depth + 1, n as nat);
        }
    } else if p == PREFIX_MAP {
        let (n, used) = number_line(rest)->Ok_0;
        lemma_number_line(rest, other, 0);
        lemma_pairs_bound(rest.skip(used), lim, depth + 1, n as nat);
        lemma_agree_skip(rest, other, used, total - 1 - used);
        lemma_pairs_agree(rest.skip(used), other.skip(used), lim, depth + 1, n as nat);
    } else {
        lemma_crlf(rest, 0);
        lemma_crlf_agree(rest, other, 0);
        lemma_take_agree(rest, other, total - 1, find_crlf(rest, 0)->0);
    }
}

proof fn lemma_items_agree(b: Seq<u8>, c: Seq<u8>, lim: Limits, depth: int, n: nat)
    requires
        0 <= depth <= MAX_DEPTH + 1,
        items_at(b, lim, depth, n) is Ok,
        agree(b, c, items_at(b, lim, depth, n)->Ok_0.1),
    ensures
        items_at(c, lim, depth, n) == items_at(b, lim, depth, n),
    decreases MAX_DEPTH + 2 - depth, n + 2,
{
    if n > 0 {
        lemma_items_bound(b, lim, depth, n);
        lemma_items_bound(b, lim, depth, (n - 1) as nat);
        let used = items_at(b, lim, depth, (n - 1) as nat)->Ok_0.1;
        let total = items_at(b, lim, depth, n)->Ok_0.1;
        lemma_agree_skip(b, c, used, total - used);
        lemma_items_agree(b, c, lim, depth, (n - 1) as nat);
        law_frame_needs_only_its_bytes(b.skip(used), c.skip(used), lim, depth);
    }
}

proof fn lemma_pairs_agree(b: Seq<u8>, c: Seq<u8>, lim: Limits, depth: int, n: nat)
    requires
        0 <= depth <= MAX_DEPTH + 1,
        pairs_at(b, lim, depth, n) is Ok,
        agree(b, c, pairs_at(b, lim, depth, n)->Ok_0.1),
    ensures
        pairs_at(c, lim, depth, n) == pairs_at(b, lim, depth, n),
    decreases MAX_DEPTH + 2 - depth, n + 2,
{
    if n > 0 {
        lemma_pairs_bound(b, lim, depth, n);
        lemma_pairs_bound(b, lim, depth, (n - 1) as nat);
        let used = pairs_at(b, lim, depth, (n - 1) as nat)->Ok_0.1;
        let used_k = frame_at(b.skip(used), lim, depth)->Ok_0.1;
        let used_v = frame_at(b.skip(used + used_k), lim, depth)->Ok_0.1;
        lemma_frame_bound(b.skip(used), lim, depth);
        lemma_frame_bound(b.skip(used + used_k), lim, depth);
        lemma_agree_skip(b, c, used + used_k, used_v);
        lemma_agree_skip(b, c, used, used_k);
        lemma_pairs_agree(b, c, lim, depth, (n - 1) as nat);
        law_frame_needs_only_its_bytes(b.skip(used), c.skip(used), lim, depth);
        law_frame_needs_only_its_bytes(b.skip(used + used_k), c.skip(used + used_k), lim, depth);
    }
}

/// Every proper prefix of a frame asks for more bytes.
pub proof fn law_prefix_is_incomplete(b: Seq<u8>, lim: Limits, depth: int, k: int)
    requires
        0 <= depth <= MAX_DEPTH + 1,
        frame_at(b, lim, depth) is Ok,
        0 <= k < frame_at(b, lim, depth)->Ok_0.1,
    ensures
        frame_at(b.take(k), lim, depth) == Err::<(FrameView, int), ErrorView>(
            ErrorView::Incomplete,
        ),
    decreases MAX_DEPTH + 2 - depth, 1int,
{
    lemma_frame_bound(b, lim, depth);
    if k > 0 {
        let rest = b.skip(1);
        let cut = b.take(k);
        let p = b[0];
        assert(cut[0] == p);
        assert(cut.skip(1) =~= rest.take(k - 1));
        if p == PREFIX_SIMPLE {
            lemma_text_line(rest, rest, k - 1, "simple string"@);
        } else if p == PREFIX_ERROR {
            lemma_text_line(rest, rest, k - 1, "error"@);
        } else if p == PREFIX_INTEGER {
            lemma_number_line(rest, rest, k - 1);
        } else if p == PREFIX_BULK {
            lemma_bulk(rest, rest, k - 1, lim.max_bulk);
        } else if p == PREFIX_ARRAY || p == PREFIX_SET || p == PREFIX_PUSH {
            let (n, used) = number_line(rest)->Ok_0;
            lemma_number_line(rest, rest.take(k - 1), k - 1);
            if used <= k - 1 {
                assert(agree(rest, rest.take(k - 1), used));
                assert(rest.take(k - 1).skip(used) =~= rest.skip(used).take(k - 1 - used));
                lemma_items_cut(rest.skip(used), lim, depth + 1, n as nat, k - 1 - used);
            }
        } else if p == PREFIX_MAP {
            let (n, used) = number_line(rest)->Ok_0;
            lemma_number_line(rest, rest.take(k - 1), k - 1);
            if used <= k - 1 {
                assert(agree(rest, rest.take(k - 1), used));
                assert(rest.take(k - 1).skip(used) =~= rest.skip(used).take(k - 1 - used));
                lemma_pairs_cut(rest.skip(used), lim, depth + 1, n as nat, k - 1 - used);
            }
        } else {
            lemma_crlf_cut(rest, 0, k - 1);
        }
    }
}

proof fn lemma_items_cut(b: Seq<u8>, lim: Limits, depth: int, n: nat, k: int)
    requires
        0 <= depth <= MAX_DEPTH + 1,
        items_at(b, lim, depth, n) is Ok,
        0 <= k < items_at(b, lim, depth, n)->Ok_0.1,
    ensures
        items_at(b.take(k), lim, depth, n) == Err::<(Seq<FrameView>, int), ErrorView>(
            ErrorView::Incomplete,
        ),
    decreases MAX_DEPTH + 2 - depth, n + 2,
{
    lemma_items_bound(b, lim, depth, n);
    if n > 0 {
        let used = items_at(b, lim, depth, (n - 1) as nat)->Ok_0.1;
        if k < used {
            lemma_items_cut(b, lim, depth, (n - 1) as nat, k);
        } else {
            lemma_items_bound(b, lim, depth, (n - 1) as nat);
            assert(agree(b, b.take(k), used));
            lemma_items_agree(b, b.take(k), lim, depth, (n - 1) as nat);
            assert(b.take(k).skip(used) =~= b.skip(used).take(k - used));
            law_prefix_is_incomplete(b.skip(used), lim, depth, k - used);
        }
    }
}

proof fn lemma_pairs_cut(b: Seq<u8>, lim: Limits, depth: int, n: nat, k: int)
    requires
        0 <= depth <= MAX_DEPTH + 1,
        pairs_at(b, lim, depth, n) is Ok,
        0 <= k < pairs_at(b, lim, depth, n)->Ok_0.1,
    ensures
        pairs_at(b.take(k), lim, depth, n) == Err::<(Seq<(FrameView, FrameView)>, int), ErrorView>(
            ErrorView::Incomplete,
        ),
    decreases MAX_DEPTH + 2 - depth, n + 2,
{
    lemma_pairs_bound(b, lim, depth, n);
    if n > 0 {
        let used = pairs_at(b, lim, depth, (n - 1) as nat)->Ok_0.1;
        if k < used {
            lemma_pairs_cut(b, lim, depth, (n - 1) as nat, k);
        } else {
            lemma_pairs_bound(b, lim, depth, (n - 1) as nat);
            assert(agree(b, b.take(k), used));
            lemma_pairs_agree(b, b.take(k), lim, depth, (n - 1) as nat);
            assert(b.take(k).skip(used) =~= b.skip(used).take(k - used));
            let used_k = frame_at(b.skip(used), lim, depth)->Ok_0.1;
            lemma_frame_bound(b.skip(used), lim, depth);
            if k - used < used_k {
                law_prefix_is_incomplete(b.skip(used), lim, depth, k - used);
            } else {
                assert(agree(b.skip(used), b.skip(used).take(k - used), used_k));
                law_frame_needs_only_its_bytes(
                    b.skip(used),
                    b.skip(used).take(k - used),
                    lim,
                    depth,
                );
                assert(b.take(k).skip(used + used_k) =~= b.skip(used + used_k).take(
                    k - used - used_k,
                ));
                law_prefix_is_incomplete(b.skip(used + used_k), lim, depth, k - used - used_k);
            }
        }
    }
}

/// `f` is within the decoder's limits, at nesting depth `depth`: integers fit
/// 64 bits, bulks and aggregates are no larger than the limits allow, literals
/// are literals, and the nesting is followed all the way.
pub open spec fn fits(f: FrameView, lim: Limits, depth: int) -> bool
    decreases f,
{
    &&& depth <= MAX_DEPTH
    &&& match f {
        FrameView::Integer(n) => i64::MIN <= n <= i64::MAX,
        FrameView::Bulk(Some(b)) => b.len() <= lim.max_bulk && b.len() <= i64::MAX && b.len() + 2
            <= usize::MAX,
        FrameView::Array(Some(s)) => count_fits(s.len(), lim) && forall|i: int|
            0 <= i < s.len() ==> fits(#[trigger] s[i], lim, depth + 1),
        FrameView::SetFrame(s) => count_fits(s.len(), lim) && forall|i: int|
            0 <= i < s.len() ==> fits(#[trigger] s[i], lim, depth + 1),
        FrameView::Push(s) => count_fits(s.len(), lim) && forall|i: int|
            0 <= i < s.len() ==> fits(#[trigger] s[i], lim, depth + 1),
        FrameView::MapFrame(s) => count_fits(s.len(), lim) && forall|i: int|
            0 <= i < s.len() ==> fits((#[trigger] s[i]).0, lim, depth + 1) && fits(
                s[i].1,
                lim,
                depth + 1,
            ),
        FrameView::Double(d) => is_double(d),
        FrameView::BigNumber(t) => is_big_number(encode_utf8(t)),
        _ => true,
    }
}

/// An aggregate of `n` elements is within the limits.
pub open spec fn count_fits(n: nat, lim: Limits) -> bool {
    n <= lim.max_array && n <= i64::MAX && n <= usize::MAX
}

proof fn lemma_crlf_after(text: Seq<u8>, rest: Seq<u8>, from: int)
    requires
        !breaks_line(text),
        0 <= from <= text.len(),
    ensures
        find_crlf(text + seq![13u8, 10u8] + rest, from) == Some(text.len() as int),
    decreases text.len() - from,
{
    let b = text + seq![13u8, 10u8] + rest;
    if from < text.len() {
        assert(b[from] == text[from]);
        lemma_crlf_after(text, rest, from + 1);
    } else {
        assert(b[from] == 13 && b[from + 1] == 10);
    }
}

proof fn lemma_line(prefix: u8, text: Seq<u8>, rest: Seq<u8>)
    requires
        !breaks_line(text),
    ensures
        ({
            let b = line(prefix, text) + rest;
            &&& b.len() == text.len() + 3 + rest.len()
            &&& b[0] == prefix
            &&& find_crlf(b.skip(1), 0) == Some(text.len() as int)
            &&& b.skip(1).take(text.len() as int) == text
            &&& b.skip(1).skip((text.len() + 2) as int) == rest
        }),
{
    let b = line(prefix, text) + rest;
    assert(b.skip(1) =~= text + seq![13u8, 10u8] + rest);
    lemma_crlf_after(text, rest, 0);
    assert(b.skip(1).take(text.len() as int) =~= text);
    assert(b.skip(1).skip((text.len() + 2) as int) =~= rest);
}

proof fn lemma_text_round_trip(prefix: u8, t: Seq<char>, rest: Seq<u8>, what: Seq<char>)
    requires
        !breaks_line(encode_utf8(t)),
    ensures
        text_line((line(prefix, encode_utf8(t)) + rest).skip(1), what) == Ok::<
            (Seq<char>, int),
            ErrorView,
        >((t, (encode_utf8(t).len() + 2) as int)),
{
    lemma_line(prefix, encode_utf8(t), rest);
    encode_utf8_valid_utf8(t);
    encode_utf8_decode_utf8(t);
}

proof fn lemma_number_round_trip(prefix: u8, n: int, rest: Seq<u8>)
    requires
        i64::MIN <= n <= i64::MAX,
    ensures
        number_line((line(prefix, signed_decimal(n)) + rest).skip(1)) == Ok::<
            (int, int),
            ErrorView,
        >((n, (signed_decimal(n).len() + 2) as int)),
        (line(prefix, signed_decimal(n)) + rest)[0] == prefix,
        (line(prefix, signed_decimal(n)) + rest).skip(1).skip(
            (signed_decimal(n).len() + 2) as int,
        ) == rest,
{
    let text = signed_decimal(n);
    lemma_signed_decimal_ascii(n);
    lemma_line(prefix, text, rest);
    lemma_ascii_is_utf8(text);
    lemma_signed_decimal(n);
}

proof fn lemma_null_text()
    ensures
        signed_decimal(-1) == seq![45u8, 49u8],
{
    assert(decimal(1) =~= seq![49u8]);
    assert(signed_decimal(-1) =~= seq![45u8, 49u8]);
}

/// Whether `f` holds further frames.
spec fn is_aggregate(f: FrameView) -> bool {
    match f {
        FrameView::Array(Some(_))
        | FrameView::SetFrame(_)
        | FrameView::Push(_)
        | FrameView::MapFrame(_) => true,
        _ => false,
    }
}

#[verifier::rlimit(40)]
proof fn lemma_scalar_round_trip(f: FrameView, lim: Limits, depth: int, rest: Seq<u8>)
    requires
        0 <= depth,
        !is_aggregate(f),
        fits(f, lim, depth),
        emit(f, lim.version).stopped is None,
    ensures
        frame_at(emit(f, lim.version).bytes + rest, lim, depth) == Ok::<
            (FrameView, int),
            ErrorView,
        >((f, emit(f, lim.version).bytes.len() as int)),
{
    let b = emit(f, lim.version).bytes + rest;
    match f {
        FrameView::SimpleString(t) => {
            lemma_line(PREFIX_SIMPLE, encode_utf8(t), rest);
            lemma_text_round_trip(PREFIX_SIMPLE, t, rest, "simple string"@);
        },
        FrameView::Error(t) => {
            lemma_line(PREFIX_ERROR, encode_utf8(t), rest);
            lemma_text_round_trip(PREFIX_ERROR, t, rest, "error"@);
        },
        FrameView::Integer(n) => {
            lemma_number_round_trip(PREFIX_INTEGER, n, rest);
        },
        FrameView::Bulk(None) => {
            lemma_null_text();
            lemma_number_round_trip(PREFIX_BULK, -1, rest);
        },
        FrameView::Bulk(Some(p)) => {
            let text = decimal(p.len());
            let tail = p + seq![13u8, 10u8] + rest;
            lemma_number_round_trip(PREFIX_BULK, p.len() as int, tail);
            assert(b =~= line(PREFIX_BULK, text) + tail);
            let after_prefix = b.skip(1);
            let used: int = text.len() as int + 2;
            assert(after_prefix.len() == used + p.len() + 2 + rest.len());
            assert(after_prefix.subrange(used, used + p.len()) =~= p);
        },
        FrameView::Array(None) => {
            lemma_null_text();
            lemma_number_round_trip(PREFIX_ARRAY, -1, rest);
        },
        FrameView::Boolean(v) => {
            let text = seq![
                if v {
                    116u8
                } else {
                    102u8
                },
            ];
            assert(!breaks_line(text));
            lemma_line(PREFIX_BOOLEAN, text, rest);
        },
        FrameView::Double(d) => {
            lemma_double_is_one_line(d);
            lemma_line(PREFIX_DOUBLE, d, rest);
            lemma_ascii_is_utf8(d);
        },
        FrameView::Null => {
            assert(!breaks_line(Seq::<u8>::empty()));
            lemma_line(PREFIX_NULL, Seq::<u8>::empty(), rest);
        },
        FrameView::BigNumber(t) => {
            let text = encode_utf8(t);
            assert(!breaks_line(text)) by {
                assert forall|i: int| 0 <= i < text.len() implies !(#[trigger] text[i] == 13
                    || text[i] == 10) by {
                    assert(is_digit(text[i]) || (i == 0 && (text[i] == 43 || text[i] == 45)));
                }
            }
            lemma_line(PREFIX_BIG_NUMBER, text, rest);
            encode_utf8_valid_utf8(t);
            encode_utf8_decode_utf8(t);
        },
        _ => {},
    }
}

/// Decoding gives back what was encoded: where encoding `f` does not stop on an
/// error and `f` is within the limits, the encoding, followed by any bytes, is
/// read as `f`, and exactly the bytes of the encoding are used.
#[verifier::rlimit(40)]
pub proof fn law_decode_inverts_encode(f: FrameView, lim: Limits, depth: int, rest: Seq<u8>)
    requires
        0 <= depth,
        fits(f, lim, depth),
        emit(f, lim.version).stopped is None,
    ensures
        frame_at(emit(f, lim.version).bytes + rest, lim, depth) == Ok::<
            (FrameView, int),
            ErrorView,
        >((f, emit(f, lim.version).bytes.len() as int)),
    decreases f, 0nat,
{
    let b = emit(f, lim.version).bytes + rest;
    match f {
        FrameView::Array(Some(s)) => {
            lemma_aggregate_round_trip(PREFIX_ARRAY, s, lim, depth, rest);
            let tail = emit_items(s, s.len(), lim.version).bytes + rest;
            assert(b =~= line(PREFIX_ARRAY, decimal(s.len())) + tail);
            assert(aggregate_at(b.skip(1), lim, depth, "array"@) is Ok);
            assert(number_line(b.skip(1))->Ok_0.0 == s.len());
            assert(frame_at(b, lim, depth)->Ok_0.0 == FrameView::Array(Some(s)));
        },
        FrameView::SetFrame(s) => {
            lemma_aggregate_round_trip(PREFIX_SET, s, lim, depth, rest);
            let tail = emit_items(s, s.len(), lim.version).bytes + rest;
            assert(b =~= line(PREFIX_SET, decimal(s.len())) + tail);
        },
        FrameView::Push(s) => {
            lemma_aggregate_round_trip(PREFIX_PUSH, s, lim, depth, rest);
            let tail = emit_items(s, s.len(), lim.version).bytes + rest;
            assert(b =~= line(PREFIX_PUSH, decimal(s.len())) + tail);
        },
        FrameView::MapFrame(s) => {
            let text = decimal(s.len());
            let tail = emit_pairs(s, s.len(), lim.version).bytes + rest;
            lemma_number_round_trip(PREFIX_MAP, s.len() as int, tail);
            lemma_pairs_round_trip(s, s.len(), lim, depth + 1, rest);
            assert(s.take(s.len() as int) =~= s);
            assert(b =~= line(PREFIX_MAP, text) + tail);
        },
        _ => {
            lemma_scalar_round_trip(f, lim, depth, rest);
        },
    }
}

proof fn lemma_aggregate_round_trip(
    prefix: u8,
    s: Seq<FrameView>,
    lim: Limits,
    depth: int,
    rest: Seq<u8>,
)
    requires
        0 <= depth <= MAX_DEPTH,
        count_fits(s.len(), lim),
        forall|i: int| 0 <= i < s.len() ==> fits(#[trigger] s[i], lim, depth + 1),
        emit_items(s, s.len(), lim.version).stopped is None,
    ensures
        ({
            let body = emit_items(s, s.len(), lim.version).bytes;
            let b = line(prefix, decimal(s.len())) + (body + rest);
            &&& b[0] == prefix
            &&& number_line(b.skip(1)) == Ok::<(int, int), ErrorView>(
                (s.len() as int, (decimal(s.len()).len() + 2) as int),
            )
            &&& forall|what: Seq<char>| #[trigger]
                aggregate_at(b.skip(1), lim, depth, what) == Ok::<
                    (Seq<FrameView>, int),
                    ErrorView,
                >((s, (decimal(s.len()).len() + 2 + body.len()) as int))
        }),
    decreases s, s.len() + 2,
{
    let body = emit_items(s, s.len(), lim.version).bytes;
    lemma_number_round_trip(prefix, s.len() as int, body + rest);
    lemma_items_round_trip(s, s.len(), lim, depth + 1, rest);
    assert(s.take(s.len() as int) =~= s);
}

proof fn lemma_items_round_trip(
    s: Seq<FrameView>,
    n: nat,
    lim: Limits,
    depth: int,
    rest: Seq<u8>,
)
    requires
        0 <= depth <= MAX_DEPTH + 1,
        n <= s.len(),
        forall|i: int| 0 <= i < s.len() ==> fits(#[trigger] s[i], lim, depth),
        emit_items(s, n, lim.version).stopped is None,
    ensures
        items_at(emit_items(s, n, lim.version).bytes + rest, lim, depth, n) == Ok::<
            (Seq<FrameView>, int),
            ErrorView,
        >((s.take(n as int), emit_items(s, n, lim.version).bytes.len() as int)),
    decreases s, n + 1,
{
    let whole = emit_items(s, n, lim.version).bytes;
    if n == 0 {
        assert(s.take(0) =~= Seq::<FrameView>::empty());
    } else {
        let before = emit_items(s, (n - 1) as nat, lim.version).bytes;
        let last = emit(s[n - 1], lim.version).bytes;
        assert(fits(s[n - 1], lim, depth));
        lemma_items_round_trip(s, (n - 1) as nat, lim, depth, last + rest);
        assert(before + (last + rest) =~= whole + rest);
        assert((whole + rest).skip(before.len() as int) =~= last + rest);
        law_decode_inverts_encode(s[n - 1], lim, depth, rest);
        assert(s.take(n - 1).push(s[n - 1]) =~= s.take(n as int));
    }
}

#[verifier::rlimit(60)]
#[verifier::spinoff_prover]
proof fn lemma_pairs_round_trip(
    s: Seq<(FrameView, FrameView)>,
    n: nat,
    lim: Limits,
    depth: int,
    rest: Seq<u8>,
)
    requires
        0 <= depth <= MAX_DEPTH + 1,
        n <= s.len(),
        forall|i: int|
            0 <= i < s.len() ==> fits((#[trigger] s[i]).0, lim, depth) && fits(s[i].1, lim, depth),
        emit_pairs(s, n, lim.version).stopped is None,
    ensures
        pairs_at(emit_pairs(s, n, lim.version).bytes + rest, lim, depth, n) == Ok::<
            (Seq<(FrameView, FrameView)>, int),
            ErrorView,
        >((s.take(n as int), emit_pairs(s, n, lim.version).bytes.len() as int)),
    decreases s, n + 1,
{
    let whole = emit_pairs(s, n, lim.version).bytes;
    if n == 0 {
        assert(s.take(0) =~= Seq::<(FrameView, FrameView)>::empty());
    } else {
        let before = emit_pairs(s, (n - 1) as nat, lim.version).bytes;
        let k = emit(s[n - 1].0, lim.version).bytes;
        let v = emit(s[n - 1].1, lim.version).bytes;
        assert(fits(s[n - 1].0, lim, depth) && fits(s[n - 1].1, lim, depth));
        lemma_pairs_round_trip(s, (n - 1) as nat, lim, depth, k + v + rest);
        assert(before + (k + v + rest) =~= whole + rest);
        assert((whole + rest).skip(before.len() as int) =~= k + (v + rest));
        law_decode_inverts_encode(s[n - 1].0, lim, depth, v + rest);
        assert((whole + rest).skip((before.len() + k.len()) as int) =~= v + rest);
        law_decode_inverts_encode(s[n - 1].1, lim, depth, rest);
        assert(s.take(n - 1).push(s[n - 1]) =~= s.take(n as int));
    }
}

proof fn lemma_not_inline(b: Seq<u8>, version: ProtocolVersion)
    requires
        b.len() > 0,
        known_prefix(b[0], version),
    ensures
        inline_ping(b) is None,
{
    if b.len() >= 5 {
        let word = seq![112u8, 105u8, 110u8, 103u8];
        assert(b.take(4)[0] == b[0]);
        assert(lower(b[0]) != word[0]);
        assert(!spells(b.take(4), word));
    }
}

/// The decoder hands out what the encoder wrote, takes exactly those bytes,
/// and leaves whatever follows them for the next step.
pub proof fn law_decode_step_inverts_encode(f: FrameView, lim: Limits, rest: Seq<u8>)
    requires
        fits(f, lim, 0),
        emit(f, lim.version).stopped is None,
    ensures
        decode_step(emit(f, lim.version).bytes + rest, lim) == Decoded::Frame(
            f,
            emit(f, lim.version).bytes.len() as int,
        ),
{
    let b = emit(f, lim.version).bytes + rest;
    law_decode_inverts_encode(f, lim, 0, rest);
    lemma_frame_bound(b, lim, 0);
    assert(known_prefix(b[0], lim.version));
    lemma_not_inline(b, lim.version);
}

/// A frame that arrives in pieces is waited for: while bytes of it are
/// missing, the decoder reports neither a frame nor an error.
pub proof fn law_partial_frame_is_awaited(b: Seq<u8>, lim: Limits, k: int)
    requires
        b.len() > 0,
        known_prefix(b[0], lim.version),
        decode_step(b, lim) matches Decoded::Frame(_, n) && 0 <= k < n,
    ensures
        decode_step(b.take(k), lim) == Decoded::Nothing,
{
    lemma_not_inline(b, lim.version);
    lemma_frame_bound(b, lim, 0);
    law_prefix_is_incomplete(b, lim, 0, k);
    if k > 0 {
        assert(b.take(k)[0] == b[0]);
        lemma_not_inline(b.take(k), lim.version);
    }
}

// ---------------------------------------------------------------------------
// Layout and limits
// ---------------------------------------------------------------------------

/// How texts look on the wire. A text with a line break in it is not written.
pub proof fn law_texts_are_laid_out(version: ProtocolVersion, t: Seq<char>)
    ensures
        ({
            let w = encode_utf8(t);
            let simple = emit(FrameView::SimpleString(t), version);
            let error = emit(FrameView::Error(t), version);
            &&& !w.contains(13) && !w.contains(10) ==> {
                &&& simple.stopped is None
                &&& simple.bytes == seq![0x2bu8] + w + seq![13u8, 10u8]
                &&& error.stopped is None
                &&& error.bytes == seq![0x2du8] + w + seq![13u8, 10u8]
            }
            &&& w.contains(13) || w.contains(10) ==> {
                &&& simple.stopped is Some && simple.bytes.len() == 0
                &&& error.stopped is Some && error.bytes.len() == 0
            }
        }),
{
    let w = encode_utf8(t);
    if w.contains(13) {
        let i = choose|i: int| 0 <= i < w.len() && w[i] == 13;
        assert(w[i] == 13);
        assert(breaks_line(w));
    } else if w.contains(10) {
        let i = choose|i: int| 0 <= i < w.len() && w[i] == 10;
        assert(w[i] == 10);
        assert(breaks_line(w));
    } else if breaks_line(w) {
        let i = choose|i: int| 0 <= i < w.len() && (#[trigger] w[i] == 13 || w[i] == 10);
        assert(w.contains(w[i]));
    }
}

/// How numbers and byte strings look on the wire, and what stands for those that
/// are not there.
pub proof fn law_values_are_laid_out(version: ProtocolVersion, n: int, b: Seq<u8>)
    ensures
        emit(FrameView::Integer(n), version).bytes == seq![0x3au8] + signed_decimal(n)
            + seq![13u8, 10u8],
        emit(FrameView::Bulk(Some(b)), version).bytes == seq![0x24u8] + decimal(b.len())
            + seq![13u8, 10u8] + b + seq![13u8, 10u8],
        emit(FrameView::Bulk(None), version).bytes == seq![0x24u8, 0x2du8, 0x31u8, 13u8, 10u8],
        emit(FrameView::Array(None), version).bytes == seq![0x2au8, 0x2du8, 0x31u8, 13u8, 10u8],
{
    assert(line(PREFIX_BULK, seq![45u8, 49u8]) =~= seq![0x24u8, 0x2du8, 0x31u8, 13u8, 10u8]);
    assert(line(PREFIX_ARRAY, seq![45u8, 49u8]) =~= seq![0x2au8, 0x2du8, 0x31u8, 13u8, 10u8]);
}

/// How the single values of the later protocol look on the wire.
pub proof fn law_later_values_are_laid_out(t: Seq<char>, d: Seq<u8>, yes: bool)
    ensures
        emit(FrameView::Null, ProtocolVersion::Resp3).bytes == seq![0x5fu8, 13u8, 10u8],
        emit(FrameView::Boolean(yes), ProtocolVersion::Resp3).bytes == seq![
            0x23u8,
            if yes {
                0x74u8
            } else {
                0x66u8
            },
            13u8,
            10u8,
        ],
        emit(FrameView::Double(d), ProtocolVersion::Resp3).bytes == seq![0x2cu8] + d
            + seq![13u8, 10u8],
        emit(FrameView::BigNumber(t), ProtocolVersion::Resp3).bytes == seq![0x28u8] + encode_utf8(t)
            + seq![13u8, 10u8],
{
    assert(line(PREFIX_NULL, Seq::empty()) =~= seq![0x5fu8, 13u8, 10u8]);
    let mark: u8 = if yes {
        0x74u8
    } else {
        0x66u8
    };
    assert(line(PREFIX_BOOLEAN, seq![mark]) =~= seq![0x23u8, mark, 13u8, 10u8]);
}

/// The bytes of frames, one behind the other.
pub open spec fn joined(s: Seq<FrameView>, version: ProtocolVersion) -> Seq<u8>
    decreases s.len(),
{
    if s.len() == 0 {
        Seq::empty()
    } else {
        joined(s.drop_last(), version) + emit(s.last(), version).bytes
    }
}

/// The bytes of pairs of frames, one behind the other.
pub open spec fn joined_pairs(s: Seq<(FrameView, FrameView)>, version: ProtocolVersion) -> Seq<u8>
    decreases s.len(),
{
    if s.len() == 0 {
        Seq::empty()
    } else {
        joined_pairs(s.drop_last(), version) + emit(s.last().0, version).bytes + emit(
            s.last().1,
            version,
        ).bytes
    }
}

proof fn lemma_joined(s: Seq<FrameView>, n: nat, version: ProtocolVersion)
    requires
        n <= s.len(),
        forall|i: int| 0 <= i < s.len() ==> emit(#[trigger] s[i], version).stopped is None,
    ensures
        emit_items(s, n, version).stopped is None,
        emit_items(s, n, version).bytes == joined(s.take(n as int), version),
    decreases n,
{
    if n > 0 {
        lemma_joined(s, (n - 1) as nat, version);
        assert(s.take(n as int).drop_last() =~= s.take(n - 1));
        assert(s.take(n as int).last() == s[n - 1]);
    }
}

proof fn lemma_joined_pairs(s: Seq<(FrameView, FrameView)>, n: nat, version: ProtocolVersion)
    requires
        n <= s.len(),
        forall|i: int|
            0 <= i < s.len() ==> emit((#[trigger] s[i]).0, version).stopped is None && emit(
                s[i].1,
                version,
            ).stopped is None,
    ensures
        emit_pairs(s, n, version).stopped is None,
        emit_pairs(s, n, version).bytes == joined_pairs(s.take(n as int), version),
    decreases n,
{
    if n > 0 {
        lemma_joined_pairs(s, (n - 1) as nat, version);
        assert(s.take(n as int).drop_last() =~= s.take(n - 1));
        assert(s.take(n as int).last() == s[n - 1]);
    }
}

/// How the frames that hold others look on the wire: how many they hold, then
/// those, one behind the other. All but arrays need the later protocol.
pub proof fn law_aggregates_are_laid_out(
    version: ProtocolVersion,
    s: Seq<FrameView>,
    p: Seq<(FrameView, FrameView)>,
)
    requires
        forall|i: int| 0 <= i < s.len() ==> emit(#[trigger] s[i], version).stopped is None,
        forall|i: int|
            0 <= i < p.len() ==> emit((#[trigger] p[i]).0, version).stopped is None && emit(
                p[i].1,
                version,
            ).stopped is None,
    ensures
        emit(FrameView::Array(Some(s)), version).stopped is None,
        emit(FrameView::Array(Some(s)), version).bytes == seq![0x2au8] + decimal(s.len())
            + seq![13u8, 10u8] + joined(s, version),
        version == ProtocolVersion::Resp3 ==> {
            &&& emit(FrameView::SetFrame(s), version).stopped is None
            &&& emit(FrameView::SetFrame(s), version).bytes == seq![0x7eu8] + decimal(s.len())
                + seq![13u8, 10u8] + joined(s, version)
            &&& emit(FrameView::Push(s), version).stopped is None
            &&& emit(FrameView::Push(s), version).bytes == seq![0x3eu8] + decimal(s.len())
                + seq![13u8, 10u8] + joined(s, version)
            &&& emit(FrameView::MapFrame(p), version).stopped is None
            &&& emit(FrameView::MapFrame(p), version).bytes == seq![0x25u8] + decimal(p.len())
                + seq![13u8, 10u8] + joined_pairs(p, version)
        },
{
    lemma_joined(s, s.len(), version);
    lemma_joined_pairs(p, p.len(), version);
    assert(s.take(s.len() as int) =~= s);
    assert(p.take(p.len() as int) =~= p);
}

/// On a connection of the earlier protocol, a frame of a kind that only the later
/// one has is neither written nor read.
pub proof fn law_earlier_protocol_lacks_frames(f: FrameView, b: Seq<u8>, lim: Limits)
    requires
        lim.version == ProtocolVersion::Resp2,
    ensures
        f is MapFrame || f is SetFrame || f is Push || f is Boolean || f is Double || f is Null
            || f is BigNumber <==> (emit(f, lim.version).stopped matches Some(e) && e is
            Resp3Required && emit(f, lim.version).bytes.len() == 0),
        b.len() > 0 && (b[0] == 0x25 || b[0] == 0x7e || b[0] == 0x3e || b[0] == 0x23 || b[0] == 0x2c
            || b[0] == 0x5f || b[0] == 0x28) ==> decode_step(b, lim) is Refused,
{
    if b.len() > 0 {
        if inline_ping(b) is Some {
            assert(b.take(4)[0] == b[0]);
        }
    }
}

/// A string that is announced as longer than the limit is refused, with its
/// length and the limit; so is a list that is announced as longer than its limit.
pub proof fn law_limits_are_enforced(lim: Limits, n: int, rest: Seq<u8>)
    requires
        0 <= n <= i64::MAX,
        0 <= lim.max_bulk,
        0 <= lim.max_array,
    ensures
        n > lim.max_bulk ==> decode_step(
            seq![0x24u8] + signed_decimal(n) + seq![13u8, 10u8] + rest,
            lim,
        ) == Decoded::Refused(ErrorView::BulkTooLarge { size: n, max: lim.max_bulk }),
        n > lim.max_array ==> decode_step(
            seq![0x2au8] + signed_decimal(n) + seq![13u8, 10u8] + rest,
            lim,
        ) == Decoded::Refused(ErrorView::ArrayTooLarge { len: n, max: lim.max_array }),
{
    lemma_number_round_trip(PREFIX_BULK, n, rest);
    lemma_number_round_trip(PREFIX_ARRAY, n, rest);
    let bulk = line(PREFIX_BULK, signed_decimal(n)) + rest;
    let list = line(PREFIX_ARRAY, signed_decimal(n)) + rest;
    assert(bulk[0] == 36 && list[0] == 42);
    if inline_ping(bulk) is Some {
        assert(bulk.take(4)[0] == 36);
    }
    if inline_ping(list) is Some {
        assert(list.take(4)[0] == 42);
    }
}

/// Frames may stand 32 levels deep in each other, and no deeper.
pub proof fn law_nesting_is_limited(b: Seq<u8>, lim: Limits)
    ensures
        frame_at(b, lim, 33) is Err,
        frame_at(b, lim, 33)->Err_0 is InvalidEncoding,
        b.len() == 0 ==> frame_at(b, lim, 32) == Err::<(FrameView, int), ErrorView>(
            ErrorView::Incomplete,
        ),
{
}

/// The word `PING` may stand alone on a line, in any letter case; no other word
/// may.
pub proof fn law_ping_may_stand_alone(b: Seq<u8>, lim: Limits)
    requires
        b.len() >= 6,
    ensures
        (b[0] == 0x50 || b[0] == 0x70) && (b[1] == 0x49 || b[1] == 0x69) && (b[2] == 0x4e || b[2]
            == 0x6e) && (b[3] == 0x47 || b[3] == 0x67) && (b[4] == 10 || (b[4] == 13 && b[5]
            == 10)) <==> inline_ping(b) is Some,
        inline_ping(b) is Some ==> decode_step(b, lim) == Decoded::Frame(
            FrameView::Array(Some(seq![FrameView::Bulk(Some(encode_utf8("PING"@)))])),
            if b[4] == 10 {
                5
            } else {
                6
            },
        ),
        inline_ping(b) is None && (0x41 <= b[0] <= 0x5a || 0x61 <= b[0] <= 0x7a) ==> (decode_step(
            b,
            lim,
        ) matches Decoded::Refused(e) && e is InlineCommandRejected),
{
    let w = seq![112u8, 105u8, 110u8, 103u8];
    let head = b.take(4);
    assert(head[0] == b[0] && head[1] == b[1] && head[2] == b[2] && head[3] == b[3]);
    if spells(head, w) {
        assert(lower(head[0]) == w[0]);
        assert(lower(head[1]) == w[1]);
        assert(lower(head[2]) == w[2]);
        assert(lower(head[3]) == w[3]);
    }
}

/// Unless told otherwise, a codec takes strings of up to 512 mebibytes and lists of
/// up to 1048576 frames.
pub proof fn law_default_limits()
    ensures
        DEFAULT_MAX_BULK_SIZE == 512 * 1024 * 1024,
        DEFAULT_MAX_ARRAY_LEN == 1024 * 1024,
{
}

} // verus!
