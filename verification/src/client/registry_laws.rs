//! What holds of the maps of a node, by their names.

use vstd::prelude::*;
use vstd::utf8::encode_utf8;

use crate::client::dmap::DMapState;
use crate::client::entry::EntryView;
use crate::client::migration::{all_storable, law_payload_reads_back, payload};
use crate::client::registry::{
    applied_count, brought, cleared, figures, import_fault, imported, in_order, lemma_place,
    lemma_with_state, map_named, name_less, place, registered, with_map, with_state, ClientState,
    NamedState,
};
use crate::client::stats::{figure_index, FigureView};
use crate::client::types::DMapOptions;
use crate::hasher::Hasher;

verus! {

/// A map is registered where one of the maps has its name, and that map is found
/// under the name.
pub proof fn law_maps_are_found_by_name<H>(maps: Seq<NamedState<H>>, name: Seq<char>)
    requires
        in_order(maps),
    ensures
        registered(maps, name) <==> exists|i: int|
            0 <= i < maps.len() && (#[trigger] maps[i]).name == name,
        forall|i: int|
            0 <= i < maps.len() && (#[trigger] maps[i]).name == name ==> map_named(maps, name)
                == maps[i].map,
{
    lemma_place(maps, name, 0);
}

/// Opening a map that is there changes nothing. One that is not there is added,
/// empty and with the settings given; all others stay as they are.
pub proof fn law_opening_adds_one_map<H>(
    s: ClientState<H>,
    name: Seq<char>,
    options: DMapOptions,
    other: Seq<char>,
)
    requires
        in_order(s.maps),
    ensures
        ({
            let n = with_map(s, name, options);
            &&& registered(s.maps, name) ==> n == s
            &&& !registered(s.maps, name) ==> {
                &&& n.maps.len() == s.maps.len() + 1
                &&& registered(n.maps, name)
                &&& map_named(n.maps, name).name == name
                &&& map_named(n.maps, name).options == options
                &&& map_named(n.maps, name).hasher == s.hasher
                &&& map_named(n.maps, name).entries == Map::<u64, EntryView>::empty()
            }
            &&& in_order(n.maps)
            &&& other != name ==> {
                &&& registered(n.maps, other) <==> registered(s.maps, other)
                &&& registered(s.maps, other) ==> map_named(n.maps, other) == map_named(
                    s.maps,
                    other,
                )
            }
            &&& n.hasher == s.hasher
            &&& n.partition_count == s.partition_count
        }),
{
    let n = with_map(s, name, options);
    let at = place(s.maps, name, 0);
    lemma_place(s.maps, name, 0);
    lemma_place(s.maps, other, 0);
    if !registered(s.maps, name) {
        assert forall|i: int, j: int| 0 <= i < j < n.maps.len() implies name_less(
            (#[trigger] n.maps[i]).name,
            (#[trigger] n.maps[j]).name,
        ) by {
            let a: int = if i < at {
                i
            } else {
                i - 1
            };
            let b: int = if j < at {
                j
            } else {
                j - 1
            };
            if i != at && j != at {
                assert(n.maps[i] == s.maps[a] && n.maps[j] == s.maps[b]);
                assert(name_less(s.maps[a].name, s.maps[b].name));
            } else if i == at {
                assert(n.maps[j] == s.maps[b]);
            } else {
                assert(n.maps[i] == s.maps[a]);
            }
        }
        lemma_place(n.maps, name, 0);
        assert(n.maps[at].name == name);
        lemma_place(n.maps, other, 0);
        if other != name && registered(s.maps, other) {
            let k = place(s.maps, other, 0);
            let l: int = if k < at {
                k
            } else {
                k + 1
            };
            assert(n.maps[l] == s.maps[k]);
        }
        if other != name && registered(n.maps, other) {
            let l = place(n.maps, other, 0);
            let k: int = if l < at {
                l
            } else {
                l - 1
            };
            assert(n.maps[l] == s.maps[k]);
        }
    }
}

/// What happens to a map leaves all others as they are.
pub proof fn law_maps_do_not_touch_each_other<H>(
    s: ClientState<H>,
    name: Seq<char>,
    map: DMapState<H>,
    other: Seq<char>,
)
    requires
        in_order(s.maps),
        registered(s.maps, name),
        other != name,
    ensures
        ({
            let n = with_state(s, name, map);
            &&& map_named(n.maps, name) == map
            &&& registered(n.maps, name)
            &&& in_order(n.maps)
            &&& n.maps.len() == s.maps.len()
            &&& registered(n.maps, other) <==> registered(s.maps, other)
            &&& registered(s.maps, other) ==> map_named(n.maps, other) == map_named(
                s.maps,
                other,
            )
        }),
{
    let n = with_state(s, name, map);
    lemma_with_state(s, name, map);
    lemma_place(s.maps, name, 0);
    lemma_place(s.maps, other, 0);
    lemma_place(n.maps, other, 0);
    if registered(s.maps, other) {
        let k = place(s.maps, other, 0);
        assert(n.maps[k] == s.maps[k]);
    }
    if registered(n.maps, other) {
        let k = place(n.maps, other, 0);
        assert(n.maps[k] == s.maps[k]);
    }
}

/// The figures of a map count the entries that have not expired, and are found
/// under its name.
pub proof fn law_figures_count_live_entries<H>(s: ClientState<H>, i: int, now: i64)
    requires
        in_order(s.maps),
        0 <= i < s.maps.len(),
        s.maps[i].map.entries.dom().finite(),
        s.maps[i].map.entries.dom().len() <= usize::MAX,
    ensures
        ({
            let m = s.maps[i].map.entries;
            let all = figures(s, s.maps.len() as int, now);
            &&& all.len() == s.maps.len()
            &&& all[i].name == s.maps[i].name
            &&& all[i].stats.len == m.dom().filter(|k: u64| m[k].ttl == 0 || now < m[k].ttl).len()
            &&& figure_index(all, s.maps[i].name, 0) == i
        }),
{
    let m = s.maps[i].map.entries;
    let all = figures(s, s.maps.len() as int, now);
    let kept = m.dom().filter(|k: u64| m[k].ttl == 0 || now < m[k].ttl);
    assert(crate::client::fragment::unexpired(m, now).dom() =~= kept);
    vstd::set_lib::lemma_len_subset(kept, m.dom());
    assert forall|j: int| 0 <= j < i implies (#[trigger] all[j]).name != s.maps[i].name by {
        assert(name_less(s.maps[j].name, s.maps[i].name));
        lemma_place(s.maps, s.maps[i].name, 0);
    }
    lemma_first_figure(all, s.maps[i].name, 0, i);
}

proof fn lemma_first_figure(s: Seq<FigureView>, name: Seq<char>, from: int, at: int)
    requires
        0 <= from <= at < s.len(),
        s[at].name == name,
        forall|j: int| from <= j < at ==> (#[trigger] s[j]).name != name,
    ensures
        figure_index(s, name, from) == at,
    decreases at - from,
{
    if from < at {
        lemma_first_figure(s, name, from + 1, at);
    }
}

/// Clearing a partition takes away the entries whose map and key hash to it, and
/// leaves all others as they are.
pub proof fn law_clearing_takes_the_partition<H: Hasher>(
    s: ClientState<H>,
    name: Seq<char>,
    partition_id: u32,
    k: u64,
)
    requires
        s.partition_count > 0,
    ensures
        ({
            let m = map_named(s.maps, name).entries;
            let rest = cleared(s, name, partition_id);
            &&& rest.contains_key(k) <==> m.contains_key(k) && s.hasher.hash_of(
                encode_utf8(name) + m[k].key,
            ) as int % s.partition_count as int != partition_id
            &&& rest.contains_key(k) ==> rest[k] == m[k]
        }),
{
    let m = map_named(s.maps, name).entries;
    let h = s.hasher.hash_of(encode_utf8(name) + m[k].key) as int;
    let p = s.partition_count as int;
    assert(0 <= h % p < p) by {
        vstd::arithmetic::div_mod::lemma_mod_bound(h, p);
    }
}

/// Of the entries that another node sends, those are counted that are newer than
/// what is there when their turn comes.
pub proof fn law_taken_entries_are_counted<H: Hasher>(
    s: DMapState<H>,
    entries: Seq<EntryView>,
    e: EntryView,
)
    ensures
        applied_count(s, Seq::empty()) == 0,
        imported(s, Seq::empty()) == s,
        ({
            let before = imported(s, entries);
            let after = imported(s, entries.push(e));
            let k = s.hasher.hash_of(e.key);
            let wins = !before.entries.contains_key(k) || before.entries[k].timestamp
                < e.timestamp;
            &&& applied_count(s, entries.push(e)) == applied_count(s, entries) + (if wins {
                1nat
            } else {
                0nat
            })
            &&& after.entries == (if wins {
                before.entries.insert(k, e)
            } else {
                before.entries
            })
        }),
{
    assert(entries.push(e).drop_last() =~= entries);
    lemma_import_keeps_hasher(s, entries);
}

proof fn lemma_import_keeps_hasher<H: Hasher>(s: DMapState<H>, entries: Seq<EntryView>)
    ensures
        imported(s, entries).hasher == s.hasher,
    decreases entries.len(),
{
    if entries.len() > 0 {
        lemma_import_keeps_hasher(s, entries.drop_last());
    }
}

/// A partition that arrives is taken if and only if it is the one that was
/// announced, and brings the entries that it was written with.
pub proof fn law_partitions_arrive_as_announced(
    partition_id: u32,
    announced: u32,
    s: Seq<EntryView>,
)
    requires
        all_storable(s),
        s.len() <= u32::MAX,
    ensures
        import_fault(announced, payload(partition_id, s)) is None <==> announced == partition_id,
        announced != partition_id ==> (import_fault(
            announced,
            payload(partition_id, s),
        ) matches Some(e) && e is InvalidArgument),
        brought(payload(partition_id, s)) == s,
{
    let b = payload(partition_id, s);
    law_payload_reads_back(partition_id, s, Seq::empty());
    assert(b + Seq::<u8>::empty() =~= b);
}

} // verus!
