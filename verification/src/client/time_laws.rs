//! How long entries and locks last, in nanoseconds. A time that does not fit is
//! the largest one that does.

use vstd::prelude::*;

use crate::client::dmap::{
    after_get, after_put, holds_lock, lemma_evicted_keeps, live, lock_options, looked_up,
    made_room, put_fault, response_of, slot_of, with_expiry, written, DMapState,
};
use crate::client::lock::{attempted, wait_for, LockStep, RequestView};
use crate::client::types::{expiries, expiry, nanos_of, PutOptions};
use crate::hasher::Hasher;

verus! {

/// The time is before the end, which comes at the largest time at the latest. An
/// end at time zero never comes.
pub open spec fn before(t: i64, end: int) -> bool {
    end == 0 || (t < end && t < i64::MAX)
}

/// A reading of the clock in microseconds is a thousand times as many
/// nanoseconds.
pub proof fn law_microseconds_are_thousands(micros: u64)
    ensures
        micros * 1000 <= i64::MAX ==> nanos_of(micros) == micros * 1000,
        micros * 1000 > i64::MAX ==> nanos_of(micros) == i64::MAX,
{
}

/// An entry lives for as many seconds or milliseconds as the write asks for,
/// counted from the write, or until the time that the write names. Otherwise it
/// lives for as long as the map says, and without that for ever.
pub proof fn law_write_lives_as_long_as_asked<H: Hasher>(
    s: DMapState<H>,
    t: DMapState<H>,
    key: Seq<char>,
    value: Seq<u8>,
    o: PutOptions,
    now_micros: u64,
    later: i64,
)
    requires
        put_fault(s, key, value, o, now_micros) is None,
        made_room(after_put(s, key, value, o, now_micros), t),
        t.entries.contains_key(slot_of(t, key)),
    ensures
        ({
            let hkey = t.hasher.hash_of(vstd::utf8::encode_utf8(key));
            let e = t.entries[hkey];
            let there = live(t.entries, hkey, later) is Some;
            let start = now_micros * 1000;
            &&& e.value == value
            &&& e.key == vstd::utf8::encode_utf8(key)
            &&& there ==> live(t.entries, hkey, later) == Some(e)
            &&& o.ex matches Some(n) ==> (there <==> before(later, start + n * 1_000_000_000))
            &&& o.px matches Some(n) ==> (there <==> before(later, start + n * 1_000_000))
            &&& o.exat matches Some(n) ==> (there <==> before(later, n * 1_000_000_000))
            &&& o.pxat matches Some(n) ==> (there <==> before(later, n * 1_000_000))
            &&& o.ex is None && o.px is None && o.exat is None && o.pxat is None ==> (
            match s.options.ttl {
                Some(d) => there <==> d == 0 || before(later, start + d),
                None => there,
            })
        }),
{
    let a = after_put(s, key, value, o, now_micros);
    let hkey = slot_of(s, key);
    assert(slot_of(t, key) == hkey);
    lemma_evicted_keeps(s.options, a.entries, t.entries);
    assert(t.entries.dom().contains(hkey));
    assert(a.entries.dom().contains(hkey));
    assert(t.entries[hkey] == a.entries[hkey]);
    assert(a.entries[hkey] == written(s, key, value, o, now_micros));
    let x = expiry(o, now_micros, s.options.ttl);
    assert(t.entries[slot_of(t, key)].ttl == x);
    assert(live(t.entries, slot_of(t, key), later) is Some <==> x == 0 || later < x);
    assert(expiries(o) <= 1);
    assert(o.px is Some ==> o.ex is None);
    assert(o.exat is Some ==> o.ex is None && o.px is None);
    assert(o.pxat is Some ==> o.ex is None && o.px is None && o.exat is None);
}

/// A key whose expiry is set lives for exactly that long from then on, and for
/// ever where the duration is zero. Its value stays, and so do all other keys.
pub proof fn law_expiry_is_kept<H: Hasher>(
    s: DMapState<H>,
    hkey: u64,
    now: i64,
    duration_ns: u64,
    later: i64,
    other: u64,
)
    requires
        live(s.entries, hkey, now) is Some,
        now >= 0,
    ensures
        ({
            let t = with_expiry(s, hkey, now, duration_ns);
            let seen = live(t.entries, hkey, later);
            &&& seen is Some <==> duration_ns == 0 || before(later, now + duration_ns)
            &&& seen matches Some(e) ==> e.value == s.entries[hkey].value && e.key
                == s.entries[hkey].key && e.timestamp == s.entries[hkey].timestamp
                && e.last_access == now
            &&& other != hkey ==> live(t.entries, other, later) == live(s.entries, other, later)
            &&& t.hasher == s.hasher && t.options == s.options && t.name == s.name && t.floor
                == s.floor
        }),
{
}

/// A reader is told how long the entry still lives: until the end of the
/// duration that was set last.
pub proof fn law_read_tells_the_time_left<H: Hasher>(
    s: DMapState<H>,
    hkey: u64,
    now: i64,
    duration_ns: u64,
    later: i64,
)
    requires
        live(s.entries, hkey, now) is Some,
        0 <= now <= later,
    ensures
        ({
            let t = with_expiry(s, hkey, now, duration_ns);
            let r = response_of(t.entries[hkey], later);
            &&& r.value == s.entries[hkey].value
            &&& r.timestamp == s.entries[hkey].timestamp
            &&& duration_ns == 0 ==> r.ttl is None
            &&& duration_ns > 0 && now + duration_ns <= i64::MAX && later <= now + duration_ns
                ==> r.ttl == Some((now + duration_ns - later) as u64)
        }),
{
}

/// A read changes nothing that is read, now or later, and marks the entry as
/// used; what has expired goes.
pub proof fn law_reads_change_nothing<H: Hasher>(s: DMapState<H>, hkey: u64, now: i64, later: i64)
    requires
        now <= later,
    ensures
        ({
            let t = after_get(s, hkey, now);
            let was = live(s.entries, hkey, later);
            let is = live(t.entries, hkey, later);
            &&& is is Some <==> was is Some
            &&& is matches Some(e) ==> {
                &&& e.last_access == now
                &&& e.key == was->0.key
                &&& e.value == was->0.value
                &&& e.ttl == was->0.ttl
                &&& e.timestamp == was->0.timestamp
            }
            &&& live(s.entries, hkey, now) is None ==> !t.entries.contains_key(hkey)
            &&& forall|k: u64|
                k != hkey ==> (#[trigger] t.entries.contains_key(k) <==> s.entries.contains_key(k))
            &&& forall|k: u64|
                k != hkey && s.entries.contains_key(k) ==> #[trigger] t.entries[k] == s.entries[k]
        }),
{
}

/// Who takes a lock holds it for the lease, in whole milliseconds from then on;
/// without a lease for as long as entries of the map live, and for ever where
/// the map sets no limit.
pub proof fn law_lock_lasts_for_its_lease<H: Hasher>(
    s: DMapState<H>,
    q: RequestView,
    elapsed_ns: u64,
    now_micros: u64,
    r: LockStep,
    t: DMapState<H>,
    later: i64,
)
    requires
        attempted(s, q, elapsed_ns, now_micros, r, t),
        r is Held,
        t.entries.contains_key(slot_of(t, q.key)),
    ensures
        ({
            let start = now_micros * 1000;
            let held = holds_lock(t.entries, slot_of(t, q.key), q.token, later);
            match q.lease_ns {
                Some(l) => held <==> before(later, start + (l as int / 1_000_000) * 1_000_000),
                None => match s.options.ttl {
                    Some(d) => held <==> d == 0 || before(later, start + d),
                    None => held,
                },
            }
        }),
        r matches LockStep::Held(c) && c@.token == q.token && c@.key == q.key && c@.name == s.name,
{
    let o = lock_options(q.lease_ns);
    law_write_lives_as_long_as_asked(s, t, q.key, q.token, o, now_micros, later);
}

/// While the lease of a lock runs, a second request for it waits or fails, and
/// once it has run out the request gets it.
pub proof fn law_second_request_waits_for_the_lease<H: Hasher>(
    s: DMapState<H>,
    first: RequestView,
    elapsed_a: u64,
    now_a: u64,
    a: LockStep,
    t: DMapState<H>,
    second: RequestView,
    elapsed_b: u64,
    now_b: u64,
    b: LockStep,
    u: DMapState<H>,
)
    requires
        attempted(s, first, elapsed_a, now_a, a, t),
        a is Held,
        t.entries.contains_key(slot_of(t, first.key)),
        attempted(t, second, elapsed_b, now_b, b, u),
        second.key == first.key,
        second.token.len() <= u32::MAX,
        now_b * 1000 < i64::MAX,
        first.lease_ns is Some,
    ensures
        ({
            let end = now_a * 1000 + (first.lease_ns->0 as int / 1_000_000) * 1_000_000;
            b is Held <==> end != 0 && now_b * 1000 >= end
        }),
{
    let o = lock_options(first.lease_ns);
    law_write_lives_as_long_as_asked(s, t, first.key, first.token, o, now_a, nanos_of(now_b));
}

/// The holder of a lock that extends it holds it for the duration from then on,
/// and until it is released where the duration is zero.
pub proof fn law_extended_lock_is_held<H: Hasher>(
    s: DMapState<H>,
    hkey: u64,
    token: Seq<u8>,
    now: i64,
    duration_ns: u64,
    later: i64,
)
    requires
        holds_lock(s.entries, hkey, token, now),
        now >= 0,
    ensures
        holds_lock(with_expiry(s, hkey, now, duration_ns).entries, hkey, token, later)
            <==> duration_ns == 0 || before(later, now + duration_ns),
{
    law_expiry_is_kept(s, hkey, now, duration_ns, later, hkey);
}

/// Who holds a lock is whoever's token its entry has, while the entry lives.
pub proof fn law_holder_has_the_token<H: Hasher>(
    s: DMapState<H>,
    hkey: u64,
    token: Seq<u8>,
    now: i64,
)
    ensures
        holds_lock(s.entries, hkey, token, now) <==> {
            &&& s.entries.contains_key(hkey)
            &&& s.entries[hkey].value == token
            &&& s.entries[hkey].ttl == 0 || s.entries[hkey].ttl > now
        },
{
}

/// A request never waits past its deadline, and does not wait for longer than
/// ten milliseconds at a time; it fails from its deadline on.
pub proof fn law_waiting_ends_at_the_deadline(elapsed_ns: u64, deadline_ns: u64)
    ensures
        wait_for(elapsed_ns, deadline_ns) is None <==> elapsed_ns >= deadline_ns,
        wait_for(elapsed_ns, deadline_ns) matches Some(w) ==> {
            &&& 0 < w <= 10_000_000
            &&& elapsed_ns + w <= deadline_ns
            &&& w == 10_000_000 || elapsed_ns + w == deadline_ns
        },
{
}

/// What a lookup finds has an end that has not come, or no end; looking up
/// takes away nothing else.
pub proof fn law_expired_entries_are_not_found<H: Hasher>(s: DMapState<H>, hkey: u64, now: i64)
    ensures
        live(s.entries, hkey, now) is Some <==> s.entries.contains_key(hkey) && (
        s.entries[hkey].ttl == 0 || now < s.entries[hkey].ttl),
        live(s.entries, hkey, now) matches Some(e) ==> e == s.entries[hkey],
        looked_up(s, hkey, now).entries == if live(s.entries, hkey, now) is Some {
            s.entries
        } else {
            s.entries.remove(hkey)
        },
{
    assert(!s.entries.contains_key(hkey) ==> s.entries.remove(hkey) =~= s.entries);
}

} // verus!
