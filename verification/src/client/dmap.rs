//! What a map of a node holds, and what each operation makes of it.

use vstd::prelude::*;
use vstd::string::*;
use vstd::utf8::*;

use crate::client::cursor::{kept, lemma_kept, regex_matches, regex_of, PairView};
use crate::client::entry::{entry_fault, expired, EntryView};
use crate::client::error::ErrorView;
use crate::client::fragment::{ascending, bytes_in_use, capped, merged, newer};
use crate::client::types::{
    expiry, nanos_of, no_options, options_fault, small_number, up_to_max, DMapOptions, PutOptions,
    ResponseView,
};
use crate::config::sections::EvictionPolicy;
use crate::hasher::Hasher;
use crate::text::{i64_fault, utf8_fault};

verus! {

/// Mathematical value of a map.
#[verifier::ext_equal]
pub ghost struct DMapState<H> {
    pub name: Seq<char>,
    pub options: DMapOptions,
    pub hasher: H,
    /// The entries, by the hash of their key.
    pub entries: Map<u64, EntryView>,
    /// The largest timestamp that was given or seen.
    pub floor: i64,
}

/// The hash that the entry of a key is stored under.
pub open spec fn slot_of<H: Hasher>(s: DMapState<H>, key: Seq<char>) -> u64 {
    s.hasher.hash_of(encode_utf8(key))
}

/// The map with other entries.
pub open spec fn with_entries<H>(s: DMapState<H>, entries: Map<u64, EntryView>) -> DMapState<H> {
    DMapState { entries, ..s }
}

// ---------------------------------------------------------------------------
// Reading
// ---------------------------------------------------------------------------

/// The entry under a hash, unless it has expired.
pub open spec fn live(m: Map<u64, EntryView>, hkey: u64, now: i64) -> Option<EntryView> {
    if m.contains_key(hkey) && !expired(m[hkey], now) {
        Some(m[hkey])
    } else {
        None
    }
}

/// The entries without the one under this hash, where it has expired.
pub open spec fn purged(m: Map<u64, EntryView>, hkey: u64, now: i64) -> Map<u64, EntryView> {
    if m.contains_key(hkey) && expired(m[hkey], now) {
        m.remove(hkey)
    } else {
        m
    }
}

/// The map once the entry under this hash has gone if it had expired.
pub open spec fn looked_up<H>(s: DMapState<H>, hkey: u64, now: i64) -> DMapState<H> {
    with_entries(s, purged(s.entries, hkey, now))
}

/// What a reader is told of an entry.
pub open spec fn response_of(e: EntryView, now: i64) -> ResponseView {
    ResponseView {
        value: e.value,
        timestamp: e.timestamp,
        ttl: if e.ttl == 0 {
            None
        } else if e.ttl <= now {
            Some(0)
        } else {
            Some((e.ttl - now) as u64)
        },
    }
}

/// The map after a read: the entry was used now, or has gone if it had expired.
pub open spec fn after_get<H>(s: DMapState<H>, hkey: u64, now: i64) -> DMapState<H> {
    match live(s.entries, hkey, now) {
        None => looked_up(s, hkey, now),
        Some(e) => with_entries(
            s,
            s.entries.insert(hkey, EntryView { last_access: now, ..e }),
        ),
    }
}

// ---------------------------------------------------------------------------
// Writing
// ---------------------------------------------------------------------------

/// The timestamp of a write that brings none: above every one that was given or
/// seen, and not behind the clock.
pub open spec fn stamp(floor: i64, now: i64) -> i64 {
    let next = up_to_max(floor + 1);
    if next > now {
        next
    } else {
        now
    }
}

/// The timestamp of a write.
pub open spec fn timestamp_of<H>(s: DMapState<H>, o: PutOptions, now_micros: u64) -> i64 {
    match o.timestamp {
        Some(ts) => ts,
        None => stamp(s.floor, nanos_of(now_micros)),
    }
}

/// The largest timestamp once `ts` was seen.
pub open spec fn raised(floor: i64, ts: i64) -> i64 {
    if ts > floor {
        ts
    } else {
        floor
    }
}

/// The entry that a write stores.
pub open spec fn written<H>(
    s: DMapState<H>,
    key: Seq<char>,
    value: Seq<u8>,
    o: PutOptions,
    now_micros: u64,
) -> EntryView {
    EntryView {
        key: encode_utf8(key),
        ttl: expiry(o, now_micros, s.options.ttl),
        timestamp: timestamp_of(s, o, now_micros),
        last_access: nanos_of(now_micros),
        value,
    }
}

/// What a condition on the key says against a write.
pub open spec fn condition_fault(o: PutOptions, there: bool) -> Option<ErrorView> {
    if o.nx && there {
        Some(ErrorView::KeyAlreadyExists)
    } else if o.xx && !there {
        Some(ErrorView::KeyNotExists)
    } else {
        None
    }
}

/// Why an entry cannot be stored, as the caller is told.
pub open spec fn store_fault(e: EntryView) -> Option<ErrorView> {
    match entry_fault(e) {
        Some(f) => Some(ErrorView::Storage(f)),
        None => None,
    }
}

/// Why a write is refused.
pub open spec fn put_fault<H: Hasher>(
    s: DMapState<H>,
    key: Seq<char>,
    value: Seq<u8>,
    o: PutOptions,
    now_micros: u64,
) -> Option<ErrorView> {
    let there = live(s.entries, slot_of(s, key), nanos_of(now_micros)) is Some;
    if options_fault(o) is Some {
        options_fault(o)
    } else if condition_fault(o, there) is Some {
        condition_fault(o, there)
    } else {
        store_fault(written(s, key, value, o, now_micros))
    }
}

/// The map after a write, before anything makes room.
pub open spec fn after_put<H: Hasher>(
    s: DMapState<H>,
    key: Seq<char>,
    value: Seq<u8>,
    o: PutOptions,
    now_micros: u64,
) -> DMapState<H> {
    let hkey = slot_of(s, key);
    let seen = looked_up(s, hkey, nanos_of(now_micros));
    let there = live(s.entries, hkey, nanos_of(now_micros)) is Some;
    let e = written(s, key, value, o, now_micros);
    if options_fault(o) is Some {
        s
    } else if condition_fault(o, there) is Some {
        seen
    } else {
        DMapState {
            entries: if entry_fault(e) is Some {
                seen.entries
            } else {
                seen.entries.insert(hkey, e)
            },
            floor: raised(s.floor, e.timestamp),
            ..s
        }
    }
}

/// Why a replicated write is refused.
pub open spec fn lww_fault<H>(
    s: DMapState<H>,
    key: Seq<char>,
    value: Seq<u8>,
    o: PutOptions,
    now_micros: u64,
) -> Option<ErrorView> {
    if options_fault(o) is Some {
        options_fault(o)
    } else if o.timestamp is None {
        Some(
            ErrorView::InvalidArgument(
                "put_lww requires an explicit timestamp (primary's LWW stamp)"@,
            ),
        )
    } else {
        store_fault(written(s, key, value, o, now_micros))
    }
}

/// The map after a replicated write, before anything makes room.
pub open spec fn after_lww<H: Hasher>(
    s: DMapState<H>,
    key: Seq<char>,
    value: Seq<u8>,
    o: PutOptions,
    now_micros: u64,
) -> DMapState<H> {
    let e = written(s, key, value, o, now_micros);
    if options_fault(o) is Some || o.timestamp is None {
        s
    } else {
        DMapState {
            entries: if entry_fault(e) is Some {
                s.entries
            } else {
                merged(s.entries, slot_of(s, key), e)
            },
            floor: raised(s.floor, e.timestamp),
            ..s
        }
    }
}

/// Whether a replicated write is newer than what is there.
pub open spec fn lww_applies<H: Hasher>(
    s: DMapState<H>,
    key: Seq<char>,
    value: Seq<u8>,
    o: PutOptions,
    now_micros: u64,
) -> bool {
    newer(s.entries, slot_of(s, key), written(s, key, value, o, now_micros))
}

/// The map once an entry of another node was merged in.
pub open spec fn taken_in<H: Hasher>(s: DMapState<H>, e: EntryView) -> DMapState<H> {
    let hkey = s.hasher.hash_of(e.key);
    DMapState {
        entries: merged(s.entries, hkey, e),
        floor: if newer(s.entries, hkey, e) {
            raised(s.floor, e.timestamp)
        } else {
            s.floor
        },
        ..s
    }
}

// ---------------------------------------------------------------------------
// Making room
// ---------------------------------------------------------------------------

/// How many entries are compared to find the one that goes.
pub open spec fn sample_size(o: DMapOptions) -> nat {
    match o.lru_samples {
        Some(n) => n as nat,
        None => 5,
    }
}

/// The map holds more than it may, and may evict.
pub open spec fn over(o: DMapOptions, m: Map<u64, EntryView>) -> bool {
    &&& o.eviction_policy == Some(EvictionPolicy::Lru)
    &&& {
        ||| o.max_keys matches Some(n) && m.dom().len() > n
        ||| o.max_inuse matches Some(n) && capped(bytes_in_use(m)) > n
    }
}

/// `sample` is `n` of the entries, or all where there are fewer.
pub open spec fn is_sample(m: Map<u64, EntryView>, sample: Seq<u64>, n: nat) -> bool {
    &&& sample.no_duplicates()
    &&& forall|i: int| 0 <= i < sample.len() ==> m.contains_key(#[trigger] sample[i])
    &&& sample.len() == if m.dom().len() < n {
        m.dom().len()
    } else {
        n
    }
}

/// Of the sample, the first that was used least recently.
pub open spec fn oldest(m: Map<u64, EntryView>, sample: Seq<u64>) -> u64
    decreases sample.len(),
{
    if sample.len() <= 1 {
        sample[0]
    } else {
        let before = oldest(m, sample.drop_last());
        if m[sample.last()].last_access < m[before].last_access {
            sample.last()
        } else {
            before
        }
    }
}

/// The entry may go: it is the least recently used of some sample.
pub open spec fn may_go(m: Map<u64, EntryView>, hkey: u64, n: nat) -> bool {
    exists|sample: Seq<u64>|
        sample.len() > 0 && #[trigger] is_sample(m, sample, n) && oldest(m, sample) == hkey
}

/// The entries without the first `i` of those that went.
pub open spec fn without(m: Map<u64, EntryView>, gone: Seq<u64>, i: int) -> Map<u64, EntryView>
    decreases i,
{
    if i <= 0 {
        m
    } else {
        without(m, gone, i - 1).remove(gone[i - 1])
    }
}

/// These entries went, one by one, each because there were still too many.
pub open spec fn went(o: DMapOptions, m: Map<u64, EntryView>, gone: Seq<u64>) -> bool {
    forall|i: int|
        0 <= i < gone.len() ==> {
            &&& over(o, #[trigger] without(m, gone, i))
            &&& may_go(without(m, gone, i), gone[i], sample_size(o))
        }
}

/// Entries go, the least recently used of a sample each time, until the map
/// holds no more than it may or there is none left to compare.
pub open spec fn evicted(
    o: DMapOptions,
    before: Map<u64, EntryView>,
    after: Map<u64, EntryView>,
) -> bool {
    &&& exists|gone: Seq<u64>| #[trigger]
        went(o, before, gone) && after == without(before, gone, gone.len() as int)
    &&& !over(o, after) || after.dom().len() == 0 || sample_size(o) == 0
}

/// The second map is the first one once there is room.
pub open spec fn made_room<H>(a: DMapState<H>, b: DMapState<H>) -> bool {
    b == with_entries(a, b.entries) && evicted(a.options, a.entries, b.entries)
}

/// Where there is room nothing goes.
pub proof fn lemma_room_keeps(o: DMapOptions, a: Map<u64, EntryView>, b: Map<u64, EntryView>)
    requires
        evicted(o, a, b),
        !over(o, a),
    ensures
        a == b,
{
    let gone = choose|gone: Seq<u64>| #[trigger]
        went(o, a, gone) && b == without(a, gone, gone.len() as int);
    if gone.len() > 0 {
        assert(over(o, without(a, gone, 0)));
    }
}

/// What stays is as it was.
pub proof fn lemma_evicted_keeps(o: DMapOptions, a: Map<u64, EntryView>, b: Map<u64, EntryView>)
    requires
        evicted(o, a, b),
    ensures
        b.submap_of(a),
{
    let gone = choose|gone: Seq<u64>| #[trigger]
        went(o, a, gone) && b == without(a, gone, gone.len() as int);
    lemma_without_keeps(a, gone, gone.len() as int);
}

proof fn lemma_without_keeps(m: Map<u64, EntryView>, gone: Seq<u64>, i: int)
    ensures
        without(m, gone, i).submap_of(m),
    decreases i,
{
    if i > 0 {
        lemma_without_keeps(m, gone, i - 1);
    }
}

// ---------------------------------------------------------------------------
// Counters, expiry and locks
// ---------------------------------------------------------------------------

/// The number that a key holds; 0 where there is none.
pub open spec fn counter(m: Map<u64, EntryView>, hkey: u64, now: i64) -> Result<i64, ErrorView> {
    match live(m, hkey, now) {
        None => Ok(0),
        Some(e) => if !valid_utf8(e.value) {
            Err(ErrorView::Serialization(utf8_fault(e.value)))
        } else {
            match small_number(e.value) {
                Some(n) => Ok(n),
                None => Err(
                    ErrorView::NotANumber {
                        expected: "integer"@,
                        got: i64_fault(decode_utf8(e.value)),
                    },
                ),
            }
        },
    }
}

/// The nearest signed 64-bit number.
pub open spec fn nearest(n: int) -> i64 {
    if n > i64::MAX {
        i64::MAX
    } else if n < i64::MIN {
        i64::MIN
    } else {
        n as i64
    }
}

/// The expiry that a duration from now gives; a duration of zero means never.
pub open spec fn expiry_in(now: i64, duration_ns: u64) -> i64 {
    if duration_ns == 0 {
        0
    } else {
        up_to_max(now + up_to_max(duration_ns as int))
    }
}

/// The map once the entry under `hkey` got another expiry.
pub open spec fn with_expiry<H>(s: DMapState<H>, hkey: u64, now: i64, duration_ns: u64) -> DMapState<
    H,
> {
    with_entries(
        s,
        s.entries.insert(
            hkey,
            EntryView { ttl: expiry_in(now, duration_ns), last_access: now, ..s.entries[hkey] },
        ),
    )
}

/// Whether the lock under `hkey` is held with this token.
pub open spec fn holds_lock(m: Map<u64, EntryView>, hkey: u64, token: Seq<u8>, now: i64) -> bool {
    live(m, hkey, now) matches Some(e) && e.value == token
}

/// The write by which a lock is taken: only where the key is free, and for as
/// long as the lease says, in whole milliseconds.
pub open spec fn lock_options(lease_ns: Option<u64>) -> PutOptions {
    PutOptions {
        nx: true,
        px: match lease_ns {
            Some(l) => Some((l / 1_000_000) as u64),
            None => None,
        },
        ..no_options()
    }
}

// ---------------------------------------------------------------------------
// Scanning
// ---------------------------------------------------------------------------

/// Whether a scan finds an entry.
pub open spec fn scanned(e: EntryView, pattern: Option<Seq<char>>, now: i64) -> bool {
    &&& !expired(e, now)
    &&& valid_utf8(e.key)
    &&& pattern matches Some(p) ==> regex_matches(regex_of(p), decode_utf8(e.key))
}

/// What a scan finds among the entries under these hashes.
pub open spec fn found_under(
    m: Map<u64, EntryView>,
    l: Seq<u64>,
    pattern: Option<Seq<char>>,
    now: i64,
) -> Seq<PairView>
    decreases l.len(),
{
    if l.len() == 0 {
        Seq::empty()
    } else {
        let front = found_under(m, l.drop_last(), pattern, now);
        let e = m[l.last()];
        if scanned(e, pattern, now) {
            front.push(PairView { key: decode_utf8(e.key), value: e.value })
        } else {
            front
        }
    }
}

/// What a scan finds.
pub open spec fn found(m: Map<u64, EntryView>, pattern: Option<Seq<char>>, now: i64) -> Seq<
    PairView,
> {
    found_under(m, ascending(m.dom()), pattern, now)
}

/// A scan with a pattern finds, of what one without finds, the keys that the
/// pattern matches.
pub proof fn lemma_pattern_keeps(
    m: Map<u64, EntryView>,
    l: Seq<u64>,
    pattern: Seq<char>,
    now: i64,
    hits: Seq<bool>,
)
    requires
        ({
            let all = found_under(m, l, None, now);
            &&& hits.len() == all.len()
            &&& forall|i: int|
                0 <= i < all.len() ==> #[trigger] hits[i] == regex_matches(
                    regex_of(pattern),
                    all[i].key,
                )
        }),
    ensures
        found_under(m, l, Some(pattern), now) == kept(
            found_under(m, l, None, now),
            hits,
            hits.len() as int,
        ),
    decreases l.len(),
{
    if l.len() > 0 {
        let all = found_under(m, l, None, now);
        let front = found_under(m, l.drop_last(), None, now);
        let n = front.len() as int;
        let some = hits.take(n);
        assert forall|i: int| 0 <= i < n implies #[trigger] some[i] == regex_matches(
            regex_of(pattern),
            front[i].key,
        ) by {
            assert(some[i] == hits[i]);
            assert(all[i] == front[i]);
        }
        lemma_pattern_keeps(m, l.drop_last(), pattern, now, some);
        lemma_kept(all, front, hits, some, n);
    }
}

} // verus!
