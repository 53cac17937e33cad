//! What holds of the maps of a node.

use vstd::prelude::*;
use vstd::utf8::*;

use crate::client::dmap::{
    after_lww, after_put, holds_lock, lemma_evicted_keeps, lemma_room_keeps, live, lock_options,
    made_room, nearest, over, put_fault, sample_size, slot_of, written, DMapState,
};
use crate::client::embedded::adjusted;
use crate::client::entry::{entry_fault, expired, EntryView};
use crate::client::error::{Error, ErrorView};
use crate::client::fragment::{ascending, bytes_in_use, capped, lemma_can_list};
use crate::client::lock::{after_unlock, attempted, LockStep, LockView, RequestView};
use crate::client::registry::{
    cleared, exported, exported_under, imported, map_named, partition_of, registered, ClientState,
};
use crate::client::types::{expiry, nanos_of, no_options, options_fault, PutOptions};
use crate::config::sections::EvictionPolicy;
use crate::hasher::Hasher;
use crate::text::{
    lemma_ascii_is_utf8, lemma_signed_decimal, lemma_signed_decimal_ascii, signed_decimal,
};

verus! {

/// A value that was written is read back until it expires, as long as there is
/// room for it.
pub proof fn law_write_is_read_back<H: Hasher>(
    s: DMapState<H>,
    t: DMapState<H>,
    key: Seq<char>,
    value: Seq<u8>,
    o: PutOptions,
    now_micros: u64,
    later: i64,
)
    requires
        put_fault(s, key, value, o, now_micros) is None,
        made_room(after_put(s, key, value, o, now_micros), t),
        !over(s.options, after_put(s, key, value, o, now_micros).entries),
    ensures
        ({
            let x = expiry(o, now_micros, s.options.ttl);
            let seen = live(t.entries, slot_of(t, key), later);
            if x != 0 && x <= later {
                seen is None
            } else {
                seen == Some(written(s, key, value, o, now_micros)) && seen->0.value == value
            }
        }),
{
    let a = after_put(s, key, value, o, now_micros);
    lemma_room_keeps(s.options, a.entries, t.entries);
}

/// A write touches no key but its own and those that make room.
pub proof fn law_write_leaves_other_keys<H: Hasher>(
    s: DMapState<H>,
    t: DMapState<H>,
    key: Seq<char>,
    value: Seq<u8>,
    o: PutOptions,
    now_micros: u64,
    hkey: u64,
)
    requires
        put_fault(s, key, value, o, now_micros) is None,
        made_room(after_put(s, key, value, o, now_micros), t),
        hkey != slot_of(s, key),
    ensures
        t.entries.contains_key(hkey) ==> s.entries.contains_key(hkey) && t.entries[hkey]
            == s.entries[hkey],
        !over(s.options, after_put(s, key, value, o, now_micros).entries) ==> (
        t.entries.contains_key(hkey) <==> s.entries.contains_key(hkey)),
{
    let a = after_put(s, key, value, o, now_micros);
    lemma_evicted_keeps(s.options, a.entries, t.entries);
    if t.entries.contains_key(hkey) {
        assert(t.entries.dom().contains(hkey));
        assert(a.entries.dom().contains(hkey));
    }
    if !over(s.options, a.entries) {
        lemma_room_keeps(s.options, a.entries, t.entries);
    }
}

/// A write that wants a new key is refused where there is one, and a write that
/// wants the key to be there is refused where there is none. Neither changes
/// what is read.
pub proof fn law_conditions_are_kept<H: Hasher>(
    s: DMapState<H>,
    key: Seq<char>,
    value: Seq<u8>,
    o: PutOptions,
    now_micros: u64,
)
    requires
        options_fault(o) is None,
    ensures
        ({
            let now = nanos_of(now_micros);
            let there = live(s.entries, slot_of(s, key), now);
            let fault = put_fault(s, key, value, o, now_micros);
            let after = after_put(s, key, value, o, now_micros);
            &&& o.nx && there is Some ==> fault == Some(ErrorView::KeyAlreadyExists)
            &&& o.xx && there is None ==> fault == Some(ErrorView::KeyNotExists)
            &&& (o.nx && there is Some) || (o.xx && there is None) ==> live(
                after.entries,
                slot_of(s, key),
                now,
            ) == there && after.floor == s.floor
        }),
{
}

/// Of two writes that bring no timestamp the second has the larger one, whatever
/// the clock says, until the largest number is reached; so has one that follows
/// a write with a timestamp of its own.
pub proof fn law_timestamps_increase<H: Hasher>(
    s: DMapState<H>,
    t: DMapState<H>,
    key_a: Seq<char>,
    value_a: Seq<u8>,
    o: PutOptions,
    now_a: u64,
    key_b: Seq<char>,
    value_b: Seq<u8>,
    now_b: u64,
)
    requires
        put_fault(s, key_a, value_a, o, now_a) is None,
        made_room(after_put(s, key_a, value_a, o, now_a), t),
    ensures
        ({
            let first = written(s, key_a, value_a, o, now_a).timestamp;
            let second = written(t, key_b, value_b, no_options(), now_b).timestamp;
            first < i64::MAX ==> first < second
        }),
{
}

/// A map that evicts holds no more than it may once a write is done.
pub proof fn law_limits_are_kept<H: Hasher>(
    s: DMapState<H>,
    t: DMapState<H>,
    key: Seq<char>,
    value: Seq<u8>,
    o: PutOptions,
    now_micros: u64,
)
    requires
        put_fault(s, key, value, o, now_micros) is None,
        made_room(after_put(s, key, value, o, now_micros), t),
        t.entries.dom().finite(),
        s.options.eviction_policy == Some(EvictionPolicy::Lru),
        sample_size(s.options) > 0,
    ensures
        s.options.max_keys matches Some(n) ==> t.entries.dom().len() <= n,
        s.options.max_inuse matches Some(n) ==> capped(bytes_in_use(t.entries)) <= n,
{
    if t.entries.dom().len() == 0 {
        lemma_can_list(t.entries.dom());
        let l = ascending(t.entries.dom());
        if l.len() > 0 {
            assert(l.to_set().contains(l[0]));
            assert(t.entries.dom().contains(l[0]));
        }
        assert(bytes_in_use(t.entries) == 0);
    }
}

/// A counter goes on from the number that it gave before, until its entry
/// expires, as long as there is room for it.
pub proof fn law_counters_go_on<H: Hasher>(
    s: DMapState<H>,
    t: DMapState<H>,
    u: DMapState<H>,
    key: Seq<char>,
    a: int,
    b: int,
    now_a: u64,
    now_b: u64,
    first: Result<i64, Error>,
    second: Result<i64, Error>,
)
    requires
        adjusted(s, key, a, now_a, first, t),
        adjusted(t, key, b, now_b, second, u),
        first is Ok,
        second is Ok,
        ({
            let value = signed_decimal(first->Ok_0 as int);
            let x = expiry(no_options(), now_a, s.options.ttl);
            &&& !over(s.options, after_put(s, key, value, no_options(), now_a).entries)
            &&& x == 0 || x > nanos_of(now_b)
        }),
    ensures
        second->Ok_0 == nearest(first->Ok_0 + b),
{
    let n = first->Ok_0 as int;
    let value = signed_decimal(n);
    lemma_room_keeps(s.options, after_put(s, key, value, no_options(), now_a).entries, t.entries);
    lemma_signed_decimal(n);
    lemma_signed_decimal_ascii(n);
    lemma_ascii_is_utf8(value);
    assert(live(t.entries, slot_of(t, key), nanos_of(now_b)) == Some(
        written(s, key, value, no_options(), now_a),
    ));
}

/// A replicated write never replaces a newer one, and an older one never
/// survives it.
pub proof fn law_newest_write_wins<H: Hasher>(
    s: DMapState<H>,
    key: Seq<char>,
    value: Seq<u8>,
    o: PutOptions,
    now_micros: u64,
)
    requires
        options_fault(o) is None,
        o.timestamp is Some,
        entry_fault(written(s, key, value, o, now_micros)) is None,
    ensures
        ({
            let hkey = slot_of(s, key);
            let after = after_lww(s, key, value, o, now_micros).entries;
            let e = written(s, key, value, o, now_micros);
            &&& after.contains_key(hkey)
            &&& s.entries.contains_key(hkey) && s.entries[hkey].timestamp >= o.timestamp->0
                ==> after[hkey] == s.entries[hkey]
            &&& !(s.entries.contains_key(hkey) && s.entries[hkey].timestamp >= o.timestamp->0)
                ==> after[hkey] == e
        }),
{
}

/// While a lock is held nobody else gets it, and the attempt changes nothing.
pub proof fn law_lock_excludes<H: Hasher>(
    s: DMapState<H>,
    holder: Seq<u8>,
    q: RequestView,
    elapsed_ns: u64,
    now_micros: u64,
    r: LockStep,
    after: DMapState<H>,
)
    requires
        holds_lock(s.entries, slot_of(s, q.key), holder, nanos_of(now_micros)),
        attempted(s, q, elapsed_ns, now_micros, r, after),
    ensures
        !(r is Held),
        after == s,
{
    assert(after.entries =~= s.entries);
}

/// Who takes a lock holds it until it is released or its lease runs out.
pub proof fn law_lock_is_held<H: Hasher>(
    s: DMapState<H>,
    q: RequestView,
    elapsed_ns: u64,
    now_micros: u64,
    r: LockStep,
    t: DMapState<H>,
    later: i64,
)
    requires
        attempted(s, q, elapsed_ns, now_micros, r, t),
        r is Held,
        !over(
            s.options,
            after_put(s, q.key, q.token, lock_options(q.lease_ns), now_micros).entries,
        ),
    ensures
        ({
            let x = expiry(lock_options(q.lease_ns), now_micros, s.options.ttl);
            holds_lock(t.entries, slot_of(t, q.key), q.token, later) <==> x == 0 || later < x
        }),
{
    let o = lock_options(q.lease_ns);
    law_write_is_read_back(s, t, q.key, q.token, o, now_micros, later);
}

/// Once its holder has released a lock, anyone gets it.
pub proof fn law_unlock_frees<H: Hasher>(
    s: DMapState<H>,
    l: LockView,
    q: RequestView,
    elapsed_ns: u64,
    now: i64,
    now_micros: u64,
    r: LockStep,
    after: DMapState<H>,
)
    requires
        holds_lock(s.entries, slot_of(s, l.key), l.token, now),
        q.key == l.key,
        encode_utf8(q.key).len() <= 255,
        q.token.len() <= u32::MAX,
        attempted(after_unlock(s, l, now), q, elapsed_ns, now_micros, r, after),
    ensures
        r is Held,
{
}

/// Without the token a lock is not released.
pub proof fn law_unlock_needs_the_token<H: Hasher>(
    s: DMapState<H>,
    l: LockView,
    holder: Seq<u8>,
    now: i64,
)
    requires
        holds_lock(s.entries, slot_of(s, l.key), holder, now),
        l.token != holder,
    ensures
        after_unlock(s, l, now) == s,
{
    assert(after_unlock(s, l, now).entries =~= s.entries);
}

/// What was merged in from another node is there, or something newer is.
pub proof fn law_import_keeps_the_newest<H: Hasher>(
    s: DMapState<H>,
    entries: Seq<EntryView>,
    i: int,
)
    requires
        0 <= i < entries.len(),
    ensures
        ({
            let hkey = s.hasher.hash_of(entries[i].key);
            let after = imported(s, entries);
            &&& after.entries.contains_key(hkey)
            &&& after.entries[hkey].timestamp >= entries[i].timestamp
        }),
    decreases entries.len(),
{
    lemma_import_hasher(s, entries.drop_last());
    if i < entries.len() - 1 {
        law_import_keeps_the_newest(s, entries.drop_last(), i);
    }
}

proof fn lemma_import_hasher<H: Hasher>(s: DMapState<H>, entries: Seq<EntryView>)
    ensures
        imported(s, entries).hasher == s.hasher,
    decreases entries.len(),
{
    if entries.len() > 0 {
        lemma_import_hasher(s, entries.drop_last());
    }
}

/// Merging in never lets what is there go back, and takes nothing away.
pub proof fn law_import_never_goes_back<H: Hasher>(
    s: DMapState<H>,
    entries: Seq<EntryView>,
    hkey: u64,
)
    requires
        s.entries.contains_key(hkey),
    ensures
        ({
            let after = imported(s, entries);
            &&& after.entries.contains_key(hkey)
            &&& after.entries[hkey].timestamp >= s.entries[hkey].timestamp
            &&& after.entries[hkey].timestamp == s.entries[hkey].timestamp
                ==> after.entries[hkey] == s.entries[hkey]
        }),
    decreases entries.len(),
{
    if entries.len() > 0 {
        law_import_never_goes_back(s, entries.drop_last(), hkey);
    }
}

/// A partition that was cleared is not exported, and other partitions are as
/// they were.
pub proof fn law_cleared_partition_is_empty<H: Hasher>(
    s: ClientState<H>,
    name: Seq<char>,
    partition_id: u32,
    hkey: u64,
)
    ensures
        ({
            let m = map_named(s.maps, name).entries;
            let rest = cleared(s, name, partition_id);
            let p = partition_of(s.hasher, s.partition_count, name, m[hkey].key);
            &&& rest.contains_key(hkey) <==> m.contains_key(hkey) && p != partition_id
            &&& rest.contains_key(hkey) ==> rest[hkey] == m[hkey]
        }),
{
}

proof fn lemma_exported<H: Hasher>(
    s: ClientState<H>,
    name: Seq<char>,
    l: Seq<u64>,
    partition_id: u32,
    now: i64,
    k: int,
)
    requires
        0 <= k < l.len(),
        ({
            let e = map_named(s.maps, name).entries[l[k]];
            &&& !expired(e, now)
            &&& partition_of(s.hasher, s.partition_count, name, e.key) == partition_id
        }),
    ensures
        exported_under(s, name, l, partition_id, now).contains(
            map_named(s.maps, name).entries[l[k]],
        ),
    decreases l.len(),
{
    let out = exported_under(s, name, l, partition_id, now);
    let e = map_named(s.maps, name).entries[l[k]];
    if k == l.len() - 1 {
        assert(out[out.len() - 1] == e);
    } else {
        let front = exported_under(s, name, l.drop_last(), partition_id, now);
        lemma_exported(s, name, l.drop_last(), partition_id, now, k);
        let i = choose|i: int| 0 <= i < front.len() && front[i] == e;
        assert(out[i] == e);
    }
}

/// What a node has of a partition and has not expired reaches the node that takes
/// the partition over: it has the entry, or a newer one.
pub proof fn law_moved_partition_arrives<H: Hasher>(
    s: ClientState<H>,
    name: Seq<char>,
    partition_id: u32,
    now: i64,
    t: DMapState<H>,
    hkey: u64,
)
    requires
        registered(s.maps, name),
        map_named(s.maps, name).entries.dom().finite(),
        map_named(s.maps, name).entries.contains_key(hkey),
        ({
            let e = map_named(s.maps, name).entries[hkey];
            &&& !expired(e, now)
            &&& partition_of(s.hasher, s.partition_count, name, e.key) == partition_id
        }),
    ensures
        ({
            let e = map_named(s.maps, name).entries[hkey];
            let after = imported(t, exported(s, name, partition_id, now));
            &&& after.entries.contains_key(t.hasher.hash_of(e.key))
            &&& after.entries[t.hasher.hash_of(e.key)].timestamp >= e.timestamp
        }),
{
    let e = map_named(s.maps, name).entries[hkey];
    let l = ascending(map_named(s.maps, name).entries.dom());
    let out = exported(s, name, partition_id, now);
    lemma_can_list(map_named(s.maps, name).entries.dom());
    assert(l.to_set().contains(hkey));
    let k = choose|k: int| 0 <= k < l.len() && l[k] == hkey;
    lemma_exported(s, name, l, partition_id, now, k);
    let i = choose|i: int| 0 <= i < out.len() && out[i] == e;
    law_import_keeps_the_newest(t, out, i);
}

} // verus!
