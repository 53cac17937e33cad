//! What a scan hands out.

use vstd::multiset::*;
use vstd::prelude::*;
use vstd::utf8::*;

use crate::client::cursor::{kept, regex_body, regex_fault, regex_matches, regex_of, PairView};
use crate::client::dmap::{found, found_under, live, slot_of, DMapState};
use crate::client::embedded::scan_fault;
use crate::client::entry::EntryView;
use crate::client::fragment::{ascending, lemma_can_list};
use crate::hasher::Hasher;

verus! {

/// The entry has not expired, and this is its key, as text, and its value.
pub open spec fn shows(e: EntryView, pair: PairView, now: i64) -> bool {
    &&& e.ttl == 0 || now < e.ttl
    &&& e.key == encode_utf8(pair.key)
    &&& e.value == pair.value
}

/// The hashes under which there are entries that show this pair.
pub open spec fn showing(m: Map<u64, EntryView>, pair: PairView, now: i64) -> Set<u64> {
    m.dom().filter(|k: u64| shows(m[k], pair, now))
}

proof fn lemma_text(bytes: Seq<u8>, text: Seq<char>)
    ensures
        bytes == encode_utf8(text) <==> valid_utf8(bytes) && decode_utf8(bytes) == text,
{
    encode_utf8_valid_utf8(text);
    encode_utf8_decode_utf8(text);
    if valid_utf8(bytes) {
        decode_utf8_encode_utf8(bytes);
    }
}

proof fn lemma_scan_counts(
    m: Map<u64, EntryView>,
    l: Seq<u64>,
    pattern: Option<Seq<char>>,
    pair: PairView,
    now: i64,
)
    requires
        l.no_duplicates(),
    ensures
        found_under(m, l, pattern, now).to_multiset().count(pair) == if pattern is None
            || regex_matches(regex_of(pattern->0), pair.key) {
            l.to_set().filter(|k: u64| shows(m[k], pair, now)).len()
        } else {
            0
        },
    decreases l.len(),
{
    let f = |k: u64| shows(m[k], pair, now);
    if l.len() == 0 {
        assert(l.to_set().filter(f) =~= Set::empty());
        found_under(m, l, pattern, now).to_multiset_ensures();
        assert(!found_under(m, l, pattern, now).contains(pair));
    } else {
        let front = l.drop_last();
        let x = l.last();
        let e = m[x];
        lemma_scan_counts(m, front, pattern, pair, now);
        lemma_text(e.key, pair.key);
        found_under(m, front, pattern, now).to_multiset_ensures();
        assert(l =~= front.push(x));
        assert(l.to_set() =~= front.to_set().insert(x)) by {
            assert forall|k: u64| l.to_set().contains(k) implies front.to_set().insert(x).contains(
                k,
            ) by {
                let i = choose|i: int| 0 <= i < l.len() && l[i] == k;
                if i < front.len() {
                    assert(front[i] == k);
                }
            }
            assert forall|k: u64| front.to_set().insert(x).contains(k) implies l.to_set().contains(
                k,
            ) by {
                if k != x {
                    let i = choose|i: int| 0 <= i < front.len() && front[i] == k;
                    assert(l[i] == k);
                } else {
                    assert(l[l.len() - 1] == x);
                }
            }
        }
        assert(!front.to_set().contains(x)) by {
            if front.to_set().contains(x) {
                let i = choose|i: int| 0 <= i < front.len() && front[i] == x;
                assert(l[i] == l[l.len() - 1]);
            }
        }
        if f(x) {
            assert(l.to_set().filter(f) =~= front.to_set().filter(f).insert(x));
        } else {
            assert(l.to_set().filter(f) =~= front.to_set().filter(f));
        }
    }
}

/// A scan hands out a key with a value once for each entry that has them and has
/// not expired, and nothing else. One with a pattern hands out those of them
/// whose key the pattern matches.
pub proof fn law_scan_finds_live_entries(
    m: Map<u64, EntryView>,
    pattern: Option<Seq<char>>,
    pair: PairView,
    now: i64,
)
    requires
        m.dom().finite(),
    ensures
        found(m, None, now).to_multiset().count(pair) == showing(m, pair, now).len(),
        found(m, None, now).contains(pair) <==> exists|k: u64| #[trigger]
            m.contains_key(k) && shows(m[k], pair, now),
        pattern matches Some(p) ==> found(m, pattern, now).to_multiset().count(pair)
            == if regex_matches(regex_of(p), pair.key) {
            showing(m, pair, now).len()
        } else {
            0
        },
{
    let l = ascending(m.dom());
    lemma_can_list(m.dom());
    assert(l.no_duplicates());
    lemma_scan_counts(m, l, None, pair, now);
    if pattern is Some {
        lemma_scan_counts(m, l, pattern, pair, now);
    }
    assert(l.to_set().filter(|k: u64| shows(m[k], pair, now)) =~= showing(m, pair, now));
    found(m, None, now).to_multiset_ensures();
    let set = showing(m, pair, now);
    if exists|k: u64| #[trigger] m.contains_key(k) && shows(m[k], pair, now) {
        let k = choose|k: u64| #[trigger] m.contains_key(k) && shows(m[k], pair, now);
        assert(set.contains(k));
        if set.len() == 0 {
            assert(set =~= Set::empty());
        }
    } else {
        assert(set =~= Set::empty());
    }
}

proof fn lemma_scan_len(m: Map<u64, EntryView>, l: Seq<u64>, now: i64)
    requires
        l.no_duplicates(),
    ensures
        found_under(m, l, None, now).len() == l.to_set().filter(
            |k: u64| (m[k].ttl == 0 || now < m[k].ttl) && valid_utf8(m[k].key),
        ).len(),
    decreases l.len(),
{
    let f = |k: u64| (m[k].ttl == 0 || now < m[k].ttl) && valid_utf8(m[k].key);
    if l.len() == 0 {
        assert(l.to_set().filter(f) =~= Set::empty());
    } else {
        let front = l.drop_last();
        let x = l.last();
        lemma_scan_len(m, front, now);
        assert(l.to_set() =~= front.to_set().insert(x)) by {
            assert(l =~= front.push(x));
            assert forall|k: u64| l.to_set().contains(k) implies front.to_set().insert(x).contains(
                k,
            ) by {
                let i = choose|i: int| 0 <= i < l.len() && l[i] == k;
                if i < front.len() {
                    assert(front[i] == k);
                }
            }
            assert forall|k: u64| front.to_set().insert(x).contains(k) implies l.to_set().contains(
                k,
            ) by {
                if k != x {
                    let i = choose|i: int| 0 <= i < front.len() && front[i] == k;
                    assert(l[i] == k);
                } else {
                    assert(l[l.len() - 1] == x);
                }
            }
        }
        assert(!front.to_set().contains(x)) by {
            if front.to_set().contains(x) {
                let i = choose|i: int| 0 <= i < front.len() && front[i] == x;
                assert(l[i] == l[l.len() - 1]);
            }
        }
        if f(x) {
            assert(l.to_set().filter(f) =~= front.to_set().filter(f).insert(x));
        } else {
            assert(l.to_set().filter(f) =~= front.to_set().filter(f));
        }
    }
}

/// A scan hands out as many pairs as there are entries which have not expired and
/// whose key is text.
pub proof fn law_scan_finds_each_entry_once(m: Map<u64, EntryView>, now: i64)
    requires
        m.dom().finite(),
    ensures
        found(m, None, now).len() == m.dom().filter(
            |k: u64| (m[k].ttl == 0 || now < m[k].ttl) && valid_utf8(m[k].key),
        ).len(),
{
    let l = ascending(m.dom());
    lemma_can_list(m.dom());
    lemma_scan_len(m, l, now);
    assert(l.to_set() =~= m.dom());
}

/// A pair that is handed out is what a read of its key gives, where every entry
/// is stored under the hash of its key.
pub proof fn law_scan_agrees_with_reads<H: Hasher>(s: DMapState<H>, i: int, now: i64)
    requires
        s.entries.dom().finite(),
        forall|k: u64| #[trigger]
            s.entries.contains_key(k) ==> k == s.hasher.hash_of(s.entries[k].key),
        0 <= i < found(s.entries, None, now).len(),
    ensures
        ({
            let pair = found(s.entries, None, now)[i];
            let seen = live(s.entries, slot_of(s, pair.key), now);
            seen is Some && seen->0.value == pair.value && seen->0.key == encode_utf8(pair.key)
        }),
{
    let pair = found(s.entries, None, now)[i];
    law_scan_finds_live_entries(s.entries, None, pair, now);
    assert(found(s.entries, None, now).contains(pair));
    let k = choose|k: u64| #[trigger]
        s.entries.contains_key(k) && shows(s.entries[k], pair, now);
    assert(k == s.hasher.hash_of(s.entries[k].key));
}

/// One of the first `n` pairs, which was found, is `x`.
pub open spec fn was_found(pairs: Seq<PairView>, hits: Seq<bool>, n: int, x: PairView) -> bool {
    exists|i: int| 0 <= i < n && hits[i] && #[trigger] pairs[i] == x
}

/// What is kept of a list of pairs are those that were found, all of them and no
/// others, the last one at the end.
pub proof fn law_kept_pairs_were_found(
    pairs: Seq<PairView>,
    hits: Seq<bool>,
    n: int,
    x: PairView,
)
    requires
        0 <= n <= pairs.len(),
        n <= hits.len(),
    ensures
        kept(pairs, hits, n).contains(x) <==> was_found(pairs, hits, n, x),
        kept(pairs, hits, n).len() <= n,
        n > 0 && hits[n - 1] ==> kept(pairs, hits, n).len() > 0 && kept(pairs, hits, n).last()
            == pairs[n - 1],
    decreases n,
{
    if n > 0 {
        law_kept_pairs_were_found(pairs, hits, n - 1, x);
        let front = kept(pairs, hits, n - 1);
        let all = kept(pairs, hits, n);
        if all.contains(x) {
            let j = choose|j: int| 0 <= j < all.len() && all[j] == x;
            if j < front.len() {
                assert(front[j] == x);
                assert(front.contains(x));
                let i = choose|i: int| 0 <= i < n - 1 && hits[i] && #[trigger] pairs[i] == x;
                assert(pairs[i] == x);
            } else {
                assert(pairs[n - 1] == x);
            }
        }
        if was_found(pairs, hits, n, x) {
            let i = choose|i: int| 0 <= i < n && hits[i] && #[trigger] pairs[i] == x;
            if i < n - 1 {
                assert(was_found(pairs, hits, n - 1, x));
                let j = choose|j: int| 0 <= j < front.len() && front[j] == x;
                assert(all[j] == x);
            } else {
                assert(all[all.len() - 1] == x);
            }
        }
    }
}

/// The pieces of a pattern that has no class in front are translated one by one.
pub proof fn law_patterns_are_translated_piecewise(a: Seq<char>, b: Seq<char>)
    requires
        !a.contains('['),
    ensures
        regex_body(a + b) == regex_body(a) + regex_body(b),
    decreases a.len(),
{
    if a.len() == 0 {
        assert(a + b =~= b);
        assert(regex_body(a) + regex_body(b) =~= regex_body(b));
    } else {
        let rest = a.skip(1);
        assert(a[0] != '[') by {
            assert(a.contains(a[0]));
        }
        assert(!rest.contains('[')) by {
            if rest.contains('[') {
                let i = choose|i: int| 0 <= i < rest.len() && rest[i] == '[';
                assert(a[i + 1] == '[');
            }
        }
        law_patterns_are_translated_piecewise(rest, b);
        assert((a + b).skip(1) =~= rest + b);
        assert((a + b)[0] == a[0]);
        assert(regex_body(a + b) =~= regex_body(a) + regex_body(b));
    }
}

/// A star stands for any run of characters and a question mark for any one; a
/// letter, a digit or another character without a meaning of its own stands for
/// itself, and one with a meaning to regular expressions alone is escaped. The
/// whole is anchored at both ends.
pub proof fn law_patterns_mean_what_they_say(c: char, p: Seq<char>)
    requires
        c != '[',
    ensures
        regex_of(p) == seq!['^'] + regex_body(p) + seq!['$'],
        regex_body(Seq::empty()) == Seq::<char>::empty(),
        c == '*' ==> regex_body(seq![c]) == seq!['.', '*'],
        c == '?' ==> regex_body(seq![c]) == seq!['.'],
        c == '.' || c == '+' || c == '(' || c == ')' || c == '|' || c == '^' || c == '$' || c
            == '{' || c == '}' || c == '\\' ==> regex_body(seq![c]) == seq!['\\', c],
        c != '*' && c != '?' && c != '.' && c != '+' && c != '(' && c != ')' && c != '|' && c
            != '^' && c != '$' && c != '{' && c != '}' && c != '\\' ==> regex_body(seq![c])
            == seq![c],
{
    reveal_strlit(".*");
    reveal_strlit(".");
    let one = seq![c];
    assert(one.skip(1) =~= Seq::<char>::empty());
    assert(regex_body(one.skip(1)) =~= Seq::<char>::empty());
    assert(".*"@ + Seq::<char>::empty() =~= seq!['.', '*']);
    assert("."@ + Seq::<char>::empty() =~= seq!['.']);
    assert(seq!['\\', c] + Seq::<char>::empty() =~= seq!['\\', c]);
    assert(seq![c] + Seq::<char>::empty() =~= seq![c]);
}

/// A scan is refused if and only if it asks for a partition that there is none of,
/// or, of the first partition, for a pattern that makes no regular expression.
pub proof fn law_scans_are_accepted(
    partition_id: u32,
    partition_count: u32,
    pattern: Option<Seq<char>>,
)
    ensures
        ({
            let fault = scan_fault(partition_id, partition_count, pattern);
            &&& fault is None <==> partition_id < partition_count && (partition_id != 0
                || pattern is None || regex_fault(regex_of(pattern->0)) is None)
            &&& partition_id >= partition_count ==> (fault matches Some(e) && e is
                InvalidArgument)
        }),
{
}

} // verus!
