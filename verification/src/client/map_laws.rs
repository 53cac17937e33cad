//! What maps do with their entries: which go when there are too many, how
//! counters count, which write wins, and what moves with a partition.

use vstd::prelude::*;
use vstd::utf8::*;

use crate::client::dmap::{
    after_get, after_lww, after_put, counter, evicted, is_sample, lemma_evicted_keeps, live,
    lww_fault, made_room, may_go, nearest, oldest, over, put_fault, sample_size, slot_of, taken_in,
    went, without, DMapState,
};
use crate::client::embedded::adjusted;
use crate::client::entry::EntryView;
use crate::client::error::{Error, ErrorView};
use crate::client::fragment::{ascending, bytes_in_use, bytes_under, lemma_can_list, lists};
use crate::client::registry::{
    exported, exported_under, imported, map_named, partition_of, places, registered, ClientState,
    PlaceView,
};
use crate::client::types::{
    nanos_of, no_options, options_fault, small_number, DMapOptions, PutOptions,
};
use crate::config::sections::EvictionPolicy;
use crate::hasher::Hasher;
use crate::text::{
    decimal, lemma_ascii_is_utf8, lemma_signed_decimal, lemma_signed_decimal_ascii, signed_decimal,
    signed_numeral,
};

verus! {

// ---------------------------------------------------------------------------
// Making room
// ---------------------------------------------------------------------------

proof fn lemma_oldest(m: Map<u64, EntryView>, sample: Seq<u64>)
    requires
        sample.len() > 0,
    ensures
        sample.contains(oldest(m, sample)),
        forall|i: int|
            0 <= i < sample.len() ==> m[oldest(m, sample)].last_access <= m[
                #[trigger] sample[i]
            ].last_access,
    decreases sample.len(),
{
    if sample.len() == 1 {
        assert(sample.contains(sample[0]));
    } else {
        let front = sample.drop_last();
        lemma_oldest(m, front);
        let before = oldest(m, front);
        let k = choose|k: int| 0 <= k < front.len() && front[k] == before;
        assert(sample[k] == before);
        assert(sample[sample.len() - 1] == sample.last());
        assert forall|i: int| 0 <= i < sample.len() implies m[oldest(m, sample)].last_access <= m[
            #[trigger] sample[i]
        ].last_access by {
            if i < front.len() {
                assert(front[i] == sample[i]);
            }
        }
    }
}

/// An entry that goes to make room was used no more recently than all entries
/// that it was compared with: as many as the sample asks for, it included. Where
/// all entries are compared it is the least recently used one.
pub proof fn law_least_recently_used_goes(m: Map<u64, EntryView>, hkey: u64, n: nat)
    requires
        m.dom().finite(),
        may_go(m, hkey, n),
    ensures
        m.contains_key(hkey),
        ({
            let fresher = m.dom().filter(|k: u64| m[hkey].last_access <= m[k].last_access);
            fresher.len() >= if n < m.dom().len() {
                n
            } else {
                m.dom().len()
            }
        }),
        n >= m.dom().len() ==> forall|k: u64| #[trigger]
            m.contains_key(k) ==> m[hkey].last_access <= m[k].last_access,
{
    let sample = choose|sample: Seq<u64>|
        sample.len() > 0 && #[trigger] is_sample(m, sample, n) && oldest(m, sample) == hkey;
    lemma_oldest(m, sample);
    let fresher = m.dom().filter(|k: u64| m[hkey].last_access <= m[k].last_access);
    sample.unique_seq_to_set();
    assert(sample.to_set().subset_of(fresher)) by {
        assert forall|k: u64| sample.to_set().contains(k) implies fresher.contains(k) by {
            let i = choose|i: int| 0 <= i < sample.len() && sample[i] == k;
            assert(m.contains_key(sample[i]));
        }
    }
    vstd::set_lib::lemma_len_subset(sample.to_set(), fresher);
    if n >= m.dom().len() {
        vstd::set_lib::lemma_len_subset(fresher, m.dom());
        vstd::set_lib::lemma_subset_equality(fresher, m.dom());
        assert forall|k: u64| #[trigger] m.contains_key(k) implies m[hkey].last_access
            <= m[k].last_access by {
            assert(fresher.contains(k));
        }
    }
}

proof fn lemma_went_len(o: DMapOptions, m: Map<u64, EntryView>, gone: Seq<u64>, i: int)
    requires
        m.dom().finite(),
        went(o, m, gone),
        0 <= i <= gone.len(),
    ensures
        without(m, gone, i).dom().finite(),
        without(m, gone, i).dom().len() + i == m.dom().len(),
    decreases i,
{
    if i > 0 {
        lemma_went_len(o, m, gone, i - 1);
        let before = without(m, gone, i - 1);
        assert(over(o, before));
        law_least_recently_used_goes(before, gone[i - 1], sample_size(o));
        assert(before.remove(gone[i - 1]).dom() =~= before.dom().remove(gone[i - 1]));
    }
}

/// Where the number of entries is limited, exactly as many go as there are too
/// many. A map that does not evict keeps everything.
pub proof fn law_as_many_go_as_must(
    o: DMapOptions,
    a: Map<u64, EntryView>,
    b: Map<u64, EntryView>,
)
    requires
        evicted(o, a, b),
        a.dom().finite(),
    ensures
        o.eviction_policy != Some(EvictionPolicy::Lru) ==> a == b,
        o.max_keys is None && o.max_inuse is None ==> a == b,
        o.eviction_policy == Some(EvictionPolicy::Lru) && o.max_inuse is None && o.lru_samples
            != Some(0u32) && o.max_keys is Some ==> b.dom().len() == if a.dom().len()
            <= o.max_keys->0 {
            a.dom().len()
        } else {
            o.max_keys->0 as nat
        },
{
    let gone = choose|gone: Seq<u64>| #[trigger]
        went(o, a, gone) && b == without(a, gone, gone.len() as int);
    let n = gone.len() as int;
    lemma_went_len(o, a, gone, n);
    if n > 0 {
        assert(over(o, without(a, gone, n - 1)));
        assert(over(o, without(a, gone, 0)));
        lemma_went_len(o, a, gone, n - 1);
    }
}

proof fn lemma_bytes_same(m: Map<u64, EntryView>, t: Map<u64, EntryView>, l: Seq<u64>)
    requires
        forall|i: int| 0 <= i < l.len() ==> m[#[trigger] l[i]] == t[l[i]],
    ensures
        bytes_under(m, l) == bytes_under(t, l),
    decreases l.len(),
{
    if l.len() > 0 {
        assert(m[l[l.len() - 1]] == t[l[l.len() - 1]]);
        assert forall|i: int| 0 <= i < l.drop_last().len() implies m[#[trigger] l.drop_last()[i]]
            == t[l.drop_last()[i]] by {
            assert(l[i] == l.drop_last()[i]);
        }
        lemma_bytes_same(m, t, l.drop_last());
    }
}

proof fn lemma_bytes_insert(m: Map<u64, EntryView>, l: Seq<u64>, i: int)
    requires
        0 <= i < l.len(),
    ensures
        bytes_under(m, l) == bytes_under(m, l.remove(i)) + m[l[i]].key.len() + m[l[i]].value.len()
            + 29,
    decreases l.len(),
{
    if i < l.len() - 1 {
        lemma_bytes_insert(m, l.drop_last(), i);
        assert(l.remove(i).drop_last() =~= l.drop_last().remove(i));
        assert(l.remove(i).last() == l.last());
    } else {
        assert(l.remove(i) =~= l.drop_last());
    }
}

/// An entry takes as many bytes as its key and its value, and twenty-nine more.
pub proof fn law_entries_take_their_bytes(m: Map<u64, EntryView>, hkey: u64)
    requires
        m.dom().finite(),
    ensures
        bytes_in_use(Map::<u64, EntryView>::empty()) == 0,
        m.contains_key(hkey) ==> bytes_in_use(m) == bytes_in_use(m.remove(hkey))
            + m[hkey].key.len() + m[hkey].value.len() + 29,
{
    let none = Map::<u64, EntryView>::empty();
    lemma_can_list(none.dom());
    let e = ascending(none.dom());
    if e.len() > 0 {
        assert(e.to_set().contains(e[0]));
    }
    if m.contains_key(hkey) {
        let l = ascending(m.dom());
        let t = m.remove(hkey);
        lemma_can_list(m.dom());
        assert(l.to_set().contains(hkey));
        let i = choose|i: int| 0 <= i < l.len() && l[i] == hkey;
        let rest = l.remove(i);
        lemma_bytes_insert(m, l, i);
        assert forall|a: int, b: int| 0 <= a < b < rest.len() implies #[trigger] rest[a]
            < #[trigger] rest[b] by {
            let x = if a < i {
                a
            } else {
                a + 1
            };
            let y = if b < i {
                b
            } else {
                b + 1
            };
            assert(rest[a] == l[x] && rest[b] == l[y]);
        }
        assert(rest.to_set() =~= t.dom()) by {
            assert forall|k: u64| rest.to_set().contains(k) <==> t.dom().contains(k) by {
                if rest.to_set().contains(k) {
                    let a = choose|a: int| 0 <= a < rest.len() && rest[a] == k;
                    let x = if a < i {
                        a
                    } else {
                        a + 1
                    };
                    assert(l[x] == k);
                    assert(l.to_set().contains(k));
                    assert(k != hkey) by {
                        if x < i {
                            assert(l[x] < l[i]);
                        } else {
                            assert(l[i] < l[x]);
                        }
                    }
                }
                if t.dom().contains(k) {
                    assert(l.to_set().contains(k));
                    let x = choose|x: int| 0 <= x < l.len() && l[x] == k;
                    if x < i {
                        assert(rest[x] == k);
                    } else {
                        assert(rest[x - 1] == k);
                    }
                }
            }
        }
        assert(lists(rest, t.dom()));
        crate::client::fragment::lemma_ascending(rest, t.dom());
        assert forall|a: int| 0 <= a < rest.len() implies m[#[trigger] rest[a]] == t[rest[a]] by {
            assert(rest.to_set().contains(rest[a]));
            assert(t.dom().contains(rest[a]));
        }
        lemma_bytes_same(m, t, rest);
    }
}

// ---------------------------------------------------------------------------
// Counters
// ---------------------------------------------------------------------------

/// A counter gives the number that its key holds, 0 where it holds none, plus what
/// is added; where that does not fit, the nearest number that does. The key then
/// holds that number in decimal.
pub proof fn law_counters_add<H: Hasher>(
    s: DMapState<H>,
    t: DMapState<H>,
    key: Seq<char>,
    n: i64,
    by: int,
    now_micros: u64,
    r: Result<i64, Error>,
)
    requires
        adjusted(s, key, by, now_micros, r, t),
        r is Ok,
        match live(s.entries, slot_of(s, key), nanos_of(now_micros)) {
            Some(e) => e.value == signed_decimal(n as int),
            None => n == 0,
        },
    ensures
        i64::MIN <= n + by <= i64::MAX ==> r->Ok_0 == n + by,
        n + by > i64::MAX ==> r->Ok_0 == i64::MAX,
        n + by < i64::MIN ==> r->Ok_0 == i64::MIN,
        t.entries.contains_key(slot_of(s, key)) ==> t.entries[slot_of(s, key)].value
            == signed_decimal(r->Ok_0 as int),
        small_number(signed_decimal(r->Ok_0 as int)) == Some(r->Ok_0),
{
    let m = r->Ok_0 as int;
    lemma_signed_decimal(n as int);
    lemma_signed_decimal_ascii(n as int);
    lemma_ascii_is_utf8(signed_decimal(n as int));
    lemma_signed_decimal(m);
    lemma_signed_decimal_ascii(m);
    lemma_ascii_is_utf8(signed_decimal(m));
    if t.entries.contains_key(slot_of(s, key)) {
        let a = after_put(s, key, signed_decimal(m), no_options(), now_micros);
        lemma_evicted_keeps(s.options, a.entries, t.entries);
        let hkey = slot_of(s, key);
        assert(t.entries.dom().contains(hkey));
        assert(a.entries.dom().contains(hkey));
        assert(t.entries[hkey] == a.entries[hkey]);
    }
}

/// A counter counts if and only if its key fits and holds nothing, something that
/// has expired, or a decimal number of 64 bits. What it then stores lives as long
/// as a write that gives no expiry, and what it refuses stays as it is.
pub proof fn law_counters_need_numbers<H: Hasher>(
    s: DMapState<H>,
    t: DMapState<H>,
    key: Seq<char>,
    by: int,
    now_micros: u64,
    r: Result<i64, Error>,
)
    requires
        adjusted(s, key, by, now_micros, r, t),
        now_micros * 1000 <= i64::MAX,
        encode_utf8(key).len() <= 255,
    ensures
        ({
            let hkey = s.hasher.hash_of(encode_utf8(key));
            let there = s.entries.contains_key(hkey) && (s.entries[hkey].ttl == 0 || now_micros
                * 1000 < s.entries[hkey].ttl);
            let n = signed_numeral(s.entries[hkey].value);
            let start = now_micros * 1000;
            &&& r is Ok <==> !there || (valid_utf8(s.entries[hkey].value) && n is Some && i64::MIN
                <= n->0 <= i64::MAX)
            &&& r is Ok && t.entries.contains_key(hkey) ==> (match s.options.ttl {
                None => t.entries[hkey].ttl == 0,
                Some(d) => if d == 0 {
                    t.entries[hkey].ttl == 0
                } else if start + d > i64::MAX {
                    t.entries[hkey].ttl == i64::MAX
                } else {
                    t.entries[hkey].ttl == start + d
                },
            })
            &&& r is Err ==> t.entries.contains_key(hkey) && t.entries[hkey] == s.entries[hkey]
        }),
{
    let hkey = slot_of(s, key);
    match counter(s.entries, hkey, nanos_of(now_micros)) {
        Ok(n) => {
            let m = nearest(n + by) as int;
            lemma_small_numeral(m);
            let a = after_put(s, key, signed_decimal(m), no_options(), now_micros);
            if r is Ok && t.entries.contains_key(hkey) {
                lemma_evicted_keeps(s.options, a.entries, t.entries);
                assert(t.entries.dom().contains(hkey));
                assert(a.entries.dom().contains(hkey));
                assert(t.entries[hkey] == a.entries[hkey]);
            }
        },
        Err(_) => {},
    }
}

/// A number of 64 bits has at most twenty characters.
proof fn lemma_small_numeral(m: int)
    requires
        i64::MIN <= m <= i64::MAX,
    ensures
        signed_decimal(m).len() <= u32::MAX,
{
    let n: nat = if m < 0 {
        (-m) as nat
    } else {
        m as nat
    };
    lemma_length(n);
}

proof fn lemma_length(n: nat)
    ensures
        n <= 0x8000_0000_0000_0000 ==> decimal(n).len() <= 20,
{
    reveal_with_fuel(decimal, 21);
}

// ---------------------------------------------------------------------------
// Which write wins
// ---------------------------------------------------------------------------

/// A write without a timestamp of its own gets one that is not behind the clock
/// and above all that were given or seen, and no larger than that takes. One that
/// brings a timestamp keeps it.
pub proof fn law_timestamps_follow_the_clock<H: Hasher>(
    s: DMapState<H>,
    t: DMapState<H>,
    key: Seq<char>,
    value: Seq<u8>,
    o: PutOptions,
    now_micros: u64,
)
    requires
        put_fault(s, key, value, o, now_micros) is None,
        made_room(after_put(s, key, value, o, now_micros), t),
        t.entries.contains_key(slot_of(s, key)),
        now_micros * 1000 <= i64::MAX,
    ensures
        ({
            let ts = t.entries[slot_of(s, key)].timestamp;
            let now = now_micros * 1000;
            &&& o.timestamp matches Some(x) ==> ts == x
            &&& o.timestamp is None ==> ts >= now && (ts == now || ts == s.floor + 1 || ts
                == i64::MAX)
            &&& o.timestamp is None && s.floor < i64::MAX ==> ts > s.floor
            &&& t.floor >= ts && t.floor >= s.floor && (t.floor == ts || t.floor == s.floor)
        }),
{
    let a = after_put(s, key, value, o, now_micros);
    lemma_evicted_keeps(s.options, a.entries, t.entries);
    let hkey = slot_of(s, key);
    assert(t.entries.dom().contains(hkey));
    assert(a.entries.dom().contains(hkey));
    assert(t.entries[hkey] == a.entries[hkey]);
}

/// A replicated write leaves its value under its key exactly where nothing as new
/// was there, and touches no other key.
pub proof fn law_replicated_write_is_read_back<H: Hasher>(
    s: DMapState<H>,
    key: Seq<char>,
    value: Seq<u8>,
    o: PutOptions,
    now_micros: u64,
    other: u64,
)
    requires
        options_fault(o) is None,
        o.timestamp is Some,
        encode_utf8(key).len() <= 255,
        value.len() <= u32::MAX,
    ensures
        ({
            let hkey = s.hasher.hash_of(encode_utf8(key));
            let m = after_lww(s, key, value, o, now_micros).entries;
            let wins = !s.entries.contains_key(hkey) || s.entries[hkey].timestamp
                < o.timestamp->0;
            &&& m.contains_key(hkey)
            &&& wins ==> m[hkey].value == value && m[hkey].timestamp == o.timestamp->0
                && m[hkey].key == encode_utf8(key)
            &&& !wins ==> m[hkey] == s.entries[hkey]
            &&& other != hkey ==> (m.contains_key(other) <==> s.entries.contains_key(other))
                && m[other] == s.entries[other]
        }),
{
}

/// An entry that another node has sent is taken exactly where it is newer than
/// what is there, as it is; nothing else changes.
pub proof fn law_newer_entries_are_taken<H: Hasher>(s: DMapState<H>, e: EntryView, other: u64)
    ensures
        ({
            let hkey = s.hasher.hash_of(e.key);
            let m = taken_in(s, e).entries;
            let wins = !s.entries.contains_key(hkey) || s.entries[hkey].timestamp < e.timestamp;
            &&& m.contains_key(hkey)
            &&& m[hkey] == if wins {
                e
            } else {
                s.entries[hkey]
            }
            &&& other != hkey ==> (m.contains_key(other) <==> s.entries.contains_key(other))
                && m[other] == s.entries[other]
        }),
{
}

// ---------------------------------------------------------------------------
// Partitions
// ---------------------------------------------------------------------------

proof fn lemma_only_the_partition<H: Hasher>(
    s: ClientState<H>,
    name: Seq<char>,
    l: Seq<u64>,
    partition_id: u32,
    now: i64,
    e: EntryView,
)
    requires
        s.partition_count > 0,
    ensures
        exported_under(s, name, l, partition_id, now).contains(e) <==> exists|i: int|
            0 <= i < l.len() && e == map_named(s.maps, name).entries[#[trigger] l[i]] && (e.ttl
                == 0 || now < e.ttl) && s.hasher.hash_of(encode_utf8(name) + e.key) as int
                % s.partition_count as int == partition_id,
    decreases l.len(),
{
    let m = map_named(s.maps, name).entries;
    let all = exported_under(s, name, l, partition_id, now);
    let fits = |x: EntryView|
        (x.ttl == 0 || now < x.ttl) && s.hasher.hash_of(encode_utf8(name) + x.key) as int
            % s.partition_count as int == partition_id;
    if l.len() > 0 {
        let front = exported_under(s, name, l.drop_last(), partition_id, now);
        lemma_only_the_partition(s, name, l.drop_last(), partition_id, now, e);
        if all.contains(e) {
            let j = choose|j: int| 0 <= j < all.len() && all[j] == e;
            if j < front.len() {
                assert(front[j] == e);
                assert(front.contains(e));
                let i = choose|i: int|
                    0 <= i < l.drop_last().len() && e == m[#[trigger] l.drop_last()[i]] && fits(e);
                assert(l[i] == l.drop_last()[i]);
            } else {
                assert(e == m[l[l.len() - 1]]);
            }
        }
        if exists|i: int| 0 <= i < l.len() && e == m[#[trigger] l[i]] && fits(e) {
            let i = choose|i: int| 0 <= i < l.len() && e == m[#[trigger] l[i]] && fits(e);
            if i < l.len() - 1 {
                assert(l.drop_last()[i] == l[i]);
                assert(front.contains(e));
                let j = choose|j: int| 0 <= j < front.len() && front[j] == e;
                assert(all[j] == e);
            } else {
                assert(all[all.len() - 1] == e);
            }
        }
    }
}

/// What moves with a partition are the entries of the map which have not expired
/// and whose key, behind the name of the map, hashes to the partition.
pub proof fn law_export_is_the_partition<H: Hasher>(
    s: ClientState<H>,
    name: Seq<char>,
    partition_id: u32,
    now: i64,
    e: EntryView,
)
    requires
        s.partition_count > 0,
        registered(s.maps, name),
        map_named(s.maps, name).entries.dom().finite(),
    ensures
        ({
            let m = map_named(s.maps, name).entries;
            exported(s, name, partition_id, now).contains(e) <==> exists|k: u64| #[trigger]
                m.contains_key(k) && m[k] == e && (e.ttl == 0 || now < e.ttl)
                    && s.hasher.hash_of(encode_utf8(name) + e.key) as int
                    % s.partition_count as int == partition_id
        }),
{
    let m = map_named(s.maps, name).entries;
    let l = ascending(m.dom());
    lemma_can_list(m.dom());
    lemma_only_the_partition(s, name, l, partition_id, now, e);
    let fits = (e.ttl == 0 || now < e.ttl) && s.hasher.hash_of(encode_utf8(name) + e.key) as int
        % s.partition_count as int == partition_id;
    if exported(s, name, partition_id, now).contains(e) {
        let i = choose|i: int| 0 <= i < l.len() && e == m[#[trigger] l[i]] && fits;
        assert(l.to_set().contains(l[i]));
        assert(m.contains_key(l[i]));
    }
    if exists|k: u64| #[trigger] m.contains_key(k) && m[k] == e && fits {
        let k = choose|k: u64| #[trigger] m.contains_key(k) && m[k] == e && fits;
        assert(l.to_set().contains(k));
        let i = choose|i: int| 0 <= i < l.len() && l[i] == k;
        assert(e == m[l[i]]);
    }
}

/// An entry that moves arrives as it is, unless something as new was there: its
/// key, its value, its timestamp and its expiry.
pub proof fn law_moved_entries_arrive_unchanged<H: Hasher>(
    s: DMapState<H>,
    entries: Seq<EntryView>,
    i: int,
)
    requires
        0 <= i < entries.len(),
        forall|j: int|
            0 <= j < entries.len() && j != i ==> s.hasher.hash_of((#[trigger] entries[j]).key)
                != s.hasher.hash_of(entries[i].key),
    ensures
        ({
            let hkey = s.hasher.hash_of(entries[i].key);
            let t = imported(s, entries);
            &&& t.hasher == s.hasher
            &&& t.entries.contains_key(hkey)
            &&& t.entries[hkey] == if s.entries.contains_key(hkey)
                && s.entries[hkey].timestamp >= entries[i].timestamp {
                s.entries[hkey]
            } else {
                entries[i]
            }
        }),
    decreases entries.len(),
{
    let front = entries.drop_last();
    let hkey = s.hasher.hash_of(entries[i].key);
    if i < entries.len() - 1 {
        assert forall|j: int| 0 <= j < front.len() && j != i implies s.hasher.hash_of(
            (#[trigger] front[j]).key,
        ) != s.hasher.hash_of(front[i].key) by {
            assert(front[j] == entries[j]);
        }
        law_moved_entries_arrive_unchanged(s, front, i);
        assert(entries[entries.len() - 1] == entries.last());
    } else {
        assert forall|j: int| 0 <= j < front.len() implies s.hasher.hash_of(
            (#[trigger] front[j]).key,
        ) != hkey by {
            assert(front[j] == entries[j]);
        }
        lemma_others_untouched(s, front, hkey);
    }
}

proof fn lemma_others_untouched<H: Hasher>(s: DMapState<H>, entries: Seq<EntryView>, hkey: u64)
    requires
        forall|j: int|
            0 <= j < entries.len() ==> s.hasher.hash_of((#[trigger] entries[j]).key) != hkey,
    ensures
        imported(s, entries).hasher == s.hasher,
        imported(s, entries).entries.contains_key(hkey) <==> s.entries.contains_key(hkey),
        s.entries.contains_key(hkey) ==> imported(s, entries).entries[hkey] == s.entries[hkey],
    decreases entries.len(),
{
    if entries.len() > 0 {
        let front = entries.drop_last();
        assert forall|j: int| 0 <= j < front.len() implies s.hasher.hash_of(
            (#[trigger] front[j]).key,
        ) != hkey by {
            assert(front[j] == entries[j]);
        }
        lemma_others_untouched(s, front, hkey);
        assert(entries[entries.len() - 1] == entries.last());
    }
}

proof fn lemma_held_is_finite<H: Hasher>(s: ClientState<H>, i: int, now: i64)
    requires
        s.partition_count > 0,
    ensures
        crate::client::registry::partitions_held(s, i, now).finite(),
{
    let held = crate::client::registry::partitions_held(s, i, now);
    let all = vstd::set_lib::set_int_range(0, s.partition_count as int).map(|x: int| x as u64);
    vstd::set_lib::lemma_int_range(0, s.partition_count as int);
    vstd::set_lib::set_int_range(0, s.partition_count as int).lemma_map_finite(|x: int| x as u64);
    assert forall|p: u64| held.contains(p) implies all.contains(p) by {
        let x = p as int;
        assert(vstd::set_lib::set_int_range(0, s.partition_count as int).contains(x));
        assert(x as u64 == p);
    }
    vstd::set_lib::lemma_set_subset_finite(all, held);
}

/// A partition is listed, with the name of the map, exactly where one of the first
/// `n` maps has an entry of it which has not expired.
pub proof fn law_listed_partitions_hold_entries<H: Hasher>(
    s: ClientState<H>,
    n: int,
    now: i64,
    name: Seq<char>,
    partition: u64,
)
    requires
        s.partition_count > 0,
        0 <= n <= s.maps.len(),
    ensures
        places(s, n, now).contains(PlaceView { name, partition }) <==> exists|i: int, k: u64|
            #![trigger s.maps[i].map.entries.contains_key(k)]
            0 <= i < n && s.maps[i].name == name && s.maps[i].map.entries.contains_key(k) && {
                let e = s.maps[i].map.entries[k];
                &&& e.ttl == 0 || now < e.ttl
                &&& partition == s.hasher.hash_of(encode_utf8(name) + e.key) as int
                    % s.partition_count as int
            },
    decreases n,
{
    let here = |i: int, k: u64|
        0 <= i < n && s.maps[i].name == name && s.maps[i].map.entries.contains_key(k) && {
            let e = s.maps[i].map.entries[k];
            &&& e.ttl == 0 || now < e.ttl
            &&& partition == s.hasher.hash_of(encode_utf8(name) + e.key) as int
                % s.partition_count as int
        };
    if n > 0 {
        law_listed_partitions_hold_entries(s, n - 1, now, name, partition);
        lemma_held_is_finite(s, n - 1, now);
        let held = crate::client::registry::partitions_held(s, n - 1, now);
        let ids = ascending(held);
        lemma_can_list(held);
        let front = places(s, n - 1, now);
        let all = places(s, n, now);
        let x = PlaceView { name, partition };
        let m = s.maps[n - 1].map.entries;
        if all.contains(x) {
            let j = choose|j: int| 0 <= j < all.len() && all[j] == x;
            if j < front.len() {
                assert(front[j] == x);
                assert(front.contains(x));
            } else {
                let a = j - front.len();
                assert(ids[a] == partition);
                assert(ids.to_set().contains(partition));
                assert(held.contains(partition));
                let k = choose|k: u64| #[trigger]
                    m.contains_key(k) && !crate::client::entry::expired(m[k], now) && partition
                        == partition_of(s.hasher, s.partition_count, s.maps[n - 1].name, m[k].key);
                assert(s.maps[n - 1].map.entries.contains_key(k));
                assert(here(n - 1, k));
            }
        }
        if exists|i: int, k: u64|
            #![trigger s.maps[i].map.entries.contains_key(k)]
            here(i, k) {
            let (i, k) = choose|i: int, k: u64|
                #![trigger s.maps[i].map.entries.contains_key(k)]
                here(i, k);
            if i < n - 1 {
                assert(s.maps[i].map.entries.contains_key(k));
                assert(front.contains(x));
                let j = choose|j: int| 0 <= j < front.len() && front[j] == x;
                assert(all[j] == x);
            } else {
                assert(m.contains_key(k));
                assert(held.contains(partition));
                assert(ids.to_set().contains(partition));
                let a = choose|a: int| 0 <= a < ids.len() && ids[a] == partition;
                assert(all[front.len() + a] == x);
            }
        }
    }
}

// ---------------------------------------------------------------------------
// What is accepted
// ---------------------------------------------------------------------------

/// A write is accepted if and only if it does not ask for a key both to be there
/// and not to be there, gives at most one expiry, meets a key that is there or is
/// not there as it asks, and brings a key of at most 255 bytes and a value whose
/// length fits in 32 bits. What is refused is refused for the first of these
/// reasons.
pub proof fn law_writes_are_accepted<H: Hasher>(
    s: DMapState<H>,
    key: Seq<char>,
    value: Seq<u8>,
    o: PutOptions,
    now_micros: u64,
)
    requires
        now_micros * 1000 <= i64::MAX,
    ensures
        ({
            let hkey = s.hasher.hash_of(encode_utf8(key));
            let there = s.entries.contains_key(hkey) && (s.entries[hkey].ttl == 0 || now_micros
                * 1000 < s.entries[hkey].ttl);
            let twice = (o.ex is Some && (o.px is Some || o.exat is Some || o.pxat is Some)) || (
            o.px is Some && (o.exat is Some || o.pxat is Some)) || (o.exat is Some && o.pxat
                is Some);
            let fault = put_fault(s, key, value, o, now_micros);
            &&& fault is None <==> !(o.nx && o.xx) && !twice && !(o.nx && there) && !(o.xx
                && !there) && encode_utf8(key).len() <= 255 && value.len() <= u32::MAX
            &&& (o.nx && o.xx) || twice ==> (fault matches Some(e) && e is InvalidArgument)
            &&& !(o.nx && o.xx) && !twice && o.nx && there ==> fault == Some(
                ErrorView::KeyAlreadyExists,
            )
            &&& !(o.nx && o.xx) && !twice && o.xx && !there ==> fault == Some(
                ErrorView::KeyNotExists,
            )
        }),
{
}

/// A replicated write is accepted if and only if its options do not contradict
/// each other, it brings its timestamp, and its key and value fit.
pub proof fn law_replicated_writes_are_accepted<H: Hasher>(
    s: DMapState<H>,
    key: Seq<char>,
    value: Seq<u8>,
    o: PutOptions,
    now_micros: u64,
)
    ensures
        ({
            let twice = (o.ex is Some && (o.px is Some || o.exat is Some || o.pxat is Some)) || (
            o.px is Some && (o.exat is Some || o.pxat is Some)) || (o.exat is Some && o.pxat
                is Some);
            lww_fault(s, key, value, o, now_micros) is None <==> !(o.nx && o.xx) && !twice
                && o.timestamp is Some && encode_utf8(key).len() <= 255 && value.len() <= u32::MAX
        }),
{
}

/// An entry remembers when it was last written or read, to the nanosecond.
pub proof fn law_uses_are_remembered<H: Hasher>(
    s: DMapState<H>,
    key: Seq<char>,
    value: Seq<u8>,
    o: PutOptions,
    now_micros: u64,
)
    requires
        now_micros * 1000 <= i64::MAX,
    ensures
        ({
            let hkey = s.hasher.hash_of(encode_utf8(key));
            let now = (now_micros * 1000) as i64;
            let read = after_get(s, hkey, nanos_of(now_micros)).entries;
            let put = after_put(s, key, value, o, now_micros).entries;
            &&& s.entries.contains_key(hkey) && (s.entries[hkey].ttl == 0 || now
                < s.entries[hkey].ttl) ==> read.contains_key(hkey) && read[hkey].last_access == now
            &&& put_fault(s, key, value, o, now_micros) is None ==> put.contains_key(hkey)
                && put[hkey].last_access == now
        }),
{
}

} // verus!
