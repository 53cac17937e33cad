//! What a routing table promises of every partition.

use vstd::multiset::*;
use vstd::prelude::*;

use crate::cluster::routing::ring::{
    around, backup_ids, chosen_slot, followers, free_slot, lemma_primaries_len, lemma_ring,
    occurrences, owners, primaries, primary_ids, primary_slot, ring_of, slot_from, slots_upto,
    starts_of, Slot,
};
use crate::cluster::routing::ring_laws::{
    distinct_ids, law_backups_are_distinct, lemma_chosen_slot, lemma_followers, lemma_followers_ids,
    lemma_primaries_at, lemma_primaries_ids, lemma_ring_slots, lemma_starts, owner_ids,
};
use crate::cluster::routing::table::{
    backups_in, member_ids, member_with, owners_in, table_for, TableView,
};
use crate::hasher::Hasher;
use crate::ids::MemberId;
use crate::member::MemberView;
use crate::text::{decimal, hex};

verus! {

// ---------------------------------------------------------------------------
// Members by their ids
// ---------------------------------------------------------------------------

/// No two members have the same id.
pub open spec fn have_distinct_ids(members: Seq<MemberView>) -> bool {
    forall|i: int, j: int|
        0 <= i < j < members.len() ==> (#[trigger] members[i]).id != (#[trigger] members[j]).id
}

proof fn lemma_member_with(members: Seq<MemberView>, i: int)
    requires
        0 <= i < members.len(),
        have_distinct_ids(members),
    ensures
        member_with(members, members[i].id) == members[i],
    decreases members.len(),
{
    if i < members.len() - 1 {
        assert(members[i].id != members[members.len() - 1].id);
        let front = members.drop_last();
        assert(have_distinct_ids(front)) by {
            assert forall|a: int, b: int| 0 <= a < b < front.len() implies (#[trigger] front[a]).id
                != (#[trigger] front[b]).id by {
                assert(members[a].id != members[b].id);
            }
        }
        lemma_member_with(front, i);
        assert(front[i] == members[i]);
    }
}

proof fn lemma_distinct(members: Seq<MemberView>)
    requires
        have_distinct_ids(members),
    ensures
        distinct_ids(member_ids(members)),
{
    let ids = member_ids(members);
    assert forall|i: int, j: int| 0 <= i < ids.len() && 0 <= j < ids.len() && i != j implies ids[i]
        != ids[j] by {
        if i < j {
            assert(members[i].id != members[j].id);
        } else {
            assert(members[j].id != members[i].id);
        }
    }
}

// ---------------------------------------------------------------------------
// The walk
// ---------------------------------------------------------------------------

/// The id that stands `step` places behind place `at` of a ring.
pub open spec fn behind(line: Seq<MemberId>, at: int, step: int) -> MemberId {
    line[(at + step) % line.len() as int]
}

/// The list holds the ids that come next on a ring behind place `at`, each once
/// and without the id at that place, nearest first.
pub open spec fn comes_next(line: Seq<MemberId>, at: int, list: Seq<MemberId>) -> bool {
    forall|i: int| 0 <= i < list.len() ==> #[trigger] is_next(line, at, list, i)
}

/// All that stands between place `at` and where the walk meets the `i`th id of the
/// list is the id at that place and those ids that come earlier in the list.
pub open spec fn is_next(line: Seq<MemberId>, at: int, list: Seq<MemberId>, i: int) -> bool {
    exists|s: int| 1 <= s < line.len() && #[trigger] behind(line, at, s) == list[i]
        && only_earlier(line, at, list, i, s)
}

/// The walk meets nothing else in fewer than `s` steps.
pub open spec fn only_earlier(
    line: Seq<MemberId>,
    at: int,
    list: Seq<MemberId>,
    i: int,
    s: int,
) -> bool {
    forall|r: int|
        1 <= r < s ==> #[trigger] behind(line, at, r) == line[at] || list.take(i).contains(
            behind(line, at, r),
        )
}

proof fn lemma_comes_next(line: Seq<MemberId>, at: int, want: nat, steps: int)
    requires
        0 <= at < line.len(),
        steps <= line.len(),
    ensures
        comes_next(line, at, followers(line, at, want, steps)),
    decreases steps,
{
    if steps > 1 {
        lemma_comes_next(line, at, want, steps - 1);
        lemma_followers(line, at, want, steps - 1);
        let nearer = followers(line, at, want, steps - 1);
        let all = followers(line, at, want, steps);
        assert forall|i: int| 0 <= i < all.len() implies #[trigger] is_next(line, at, all, i) by {
            if i < nearer.len() {
                assert(is_next(line, at, nearer, i));
                let s = choose|s: int|
                    1 <= s < line.len() && #[trigger] behind(line, at, s) == nearer[i]
                        && only_earlier(line, at, nearer, i, s);
                assert(all.take(i) =~= nearer.take(i));
                assert(only_earlier(line, at, all, i, s));
                assert(behind(line, at, s) == all[i]);
            } else {
                let s = steps - 1;
                assert(around(at, s, line.len() as int) == (at + s) % line.len() as int);
                assert(all == nearer.push(behind(line, at, s)));
                assert(all.take(i) =~= nearer);
                assert forall|r: int| 1 <= r < s implies #[trigger] behind(line, at, r) == line[at]
                    || all.take(i).contains(behind(line, at, r)) by {
                    assert(behind(line, at, r) == line[around(at, r, line.len() as int)]);
                }
                assert(only_earlier(line, at, all, i, s));
                assert(behind(line, at, s) == all[i]);
            }
        }
    }
}

proof fn lemma_counted<T>(s: Seq<T>, x: T)
    ensures
        occurrences(s, x) == s.to_multiset().count(x),
    decreases s.len(),
{
    s.to_multiset_ensures();
    if s.len() > 0 {
        let front = s.drop_last();
        lemma_counted(front, x);
        front.to_multiset_ensures();
        assert(s =~= front.push(s.last()));
    } else {
        assert(!s.contains(x));
    }
}

/// Where a walk that starts at a hash enters a ring: all that stands in front lies
/// before the hash, and nothing behind does.
pub open spec fn enters(ring: Seq<Slot>, hash: u64, start: int) -> bool {
    &&& 0 <= start <= ring.len()
    &&& forall|k: int| 0 <= k < start ==> (#[trigger] ring[k]).pos < hash
    &&& forall|k: int| start <= k < ring.len() ==> (#[trigger] ring[k]).pos >= hash
}

/// A walk from `start` ends `step` places on: everyone on the way has a full load,
/// and the one at the end has room, unless nobody has and the walk ends where it
/// starts.
pub open spec fn ends_at(
    line: Seq<MemberId>,
    load: Multiset<MemberId>,
    capacity: nat,
    start: int,
    step: int,
) -> bool {
    &&& 0 <= step < line.len()
    &&& forall|s: int| 0 <= s < step ==> load.count(#[trigger] behind(line, start, s)) >= capacity
    &&& load.count(behind(line, start, step)) < capacity || (step == 0 && forall|s: int|
        0 <= s < line.len() ==> load.count(#[trigger] behind(line, start, s)) >= capacity)
}

proof fn lemma_enters(ring: Seq<Slot>, hash: u64, i: int)
    requires
        0 <= i <= ring.len(),
        forall|a: int, b: int| 0 <= a < b < ring.len() ==> (#[trigger] ring[a]).pos <= (
        #[trigger] ring[b]).pos,
        forall|k: int| 0 <= k < i ==> (#[trigger] ring[k]).pos < hash,
    ensures
        enters(ring, hash, slot_from(ring, hash, i)),
    decreases ring.len() - i,
{
    if i < ring.len() {
        if ring[i].pos < hash {
            lemma_enters(ring, hash, i + 1);
        } else {
            assert forall|k: int| i <= k < ring.len() implies (#[trigger] ring[k]).pos >= hash by {
                if k > i {
                    assert(ring[i].pos <= ring[k].pos);
                }
            }
        }
    }
}

proof fn lemma_free(
    line: Seq<MemberId>,
    earlier: Seq<MemberId>,
    cap: nat,
    start: int,
    step: int,
) -> (end: int)
    requires
        line.len() > 0,
        0 <= step <= line.len(),
        forall|s: int|
            0 <= s < step ==> earlier.to_multiset().count(#[trigger] behind(line, start, s)) >= cap,
    ensures
        match free_slot(line, earlier, cap, start, step) {
            Some(i) => ends_at(line, earlier.to_multiset(), cap, start, end) && i == (start + end)
                % line.len() as int,
            None => forall|s: int|
                0 <= s < line.len() ==> earlier.to_multiset().count(
                    #[trigger] behind(line, start, s),
                ) >= cap,
        },
    decreases line.len() - step,
{
    if step < line.len() {
        let i = around(start, step, line.len() as int);
        lemma_counted(earlier, line[i]);
        assert(behind(line, start, step) == line[i]);
        if occurrences(earlier, line[i]) < cap {
            step
        } else {
            lemma_free(line, earlier, cap, start, step + 1)
        }
    } else {
        step
    }
}

proof fn lemma_chosen(line: Seq<MemberId>, earlier: Seq<MemberId>, cap: nat, start: int) -> (end:
    int)
    requires
        line.len() > 0,
    ensures
        ends_at(line, earlier.to_multiset(), cap, start, end),
        chosen_slot(line, earlier, cap, start) == (start + end) % line.len() as int,
{
    let end = lemma_free(line, earlier, cap, start, 0);
    if free_slot(line, earlier, cap, start, 0) is None {
        0
    } else {
        end
    }
}

// ---------------------------------------------------------------------------
// The table
// ---------------------------------------------------------------------------

/// What is hashed for a partition: `p:______` and its number in four bytes, the
/// most significant first.
pub open spec fn hashed_for(partition: u32) -> Seq<u8> {
    seq![
        0x70u8,
        0x3a,
        0x5f,
        0x5f,
        0x5f,
        0x5f,
        0x5f,
        0x5f,
        (partition as int / 0x100_0000) as u8,
        (partition as int / 0x1_0000 % 256) as u8,
        (partition as int / 0x100 % 256) as u8,
        (partition as int % 256) as u8,
    ]
}

/// Ids of the first owners of the partitions below `p`.
pub open spec fn earlier_primaries(t: TableView, p: u32) -> Seq<MemberId> {
    Seq::new(p as nat, |q: int| t.primary[q as u32][0].id)
}

/// Ids of members.
pub open spec fn ids_in(members: Seq<MemberView>) -> Seq<MemberId> {
    Seq::new(members.len(), |i: int| members[i].id)
}

/// The table knows the partitions below the number asked for and no others. Each
/// has one owner and its backups, all of them members.
pub proof fn law_table_knows_every_partition<H: Hasher>(
    h: &H,
    members: Seq<MemberView>,
    partition_count: u32,
    vnodes: u32,
    capacity: u32,
    replica_count: u32,
    signature: u64,
    p: u32,
)
    requires
        have_distinct_ids(members),
        0 < members.len() <= usize::MAX,
        vnodes > 0,
    ensures
        ({
            let t = table_for(
                h,
                members,
                partition_count,
                vnodes,
                capacity,
                replica_count,
                signature,
            );
            &&& t.schema_version == 1
            &&& t.members == members
            &&& t.signature == signature
            &&& t.primary.contains_key(p) <==> p < partition_count
            &&& t.backup.contains_key(p) <==> p < partition_count
            &&& p < partition_count ==> {
                &&& t.primary[p].len() == 1
                &&& members.contains(t.primary[p][0])
                &&& forall|i: int|
                    0 <= i < t.backup[p].len() ==> members.contains(#[trigger] t.backup[p][i])
            }
        }),
{
    if p < partition_count {
        let t = table_for(
            h,
            members,
            partition_count,
            vnodes,
            capacity,
            replica_count,
            signature,
        );
        let want = crate::cluster::routing::table::backups_wanted(replica_count);
        let n = partition_count as nat;
        lemma_table_at(h, members, n, vnodes as nat, capacity as nat, want, p as int);
        let ids = member_ids(members);
        let first = primary_ids(h, ids, vnodes as nat, capacity as nat, n)[p as int];
        let next = backup_ids(h, ids, vnodes as nat, capacity as nat, n, want)[p as int];
        lemma_has_member(members, first);
        assert forall|i: int| 0 <= i < t.backup[p].len() implies members.contains(
            #[trigger] t.backup[p][i],
        ) by {
            assert(ids_in(members).contains(next[i]));
            lemma_has_member(members, next[i]);
        }
    }
}

proof fn lemma_has_member(members: Seq<MemberView>, id: MemberId)
    requires
        have_distinct_ids(members),
        ids_in(members).contains(id),
    ensures
        member_with(members, id).id == id,
        members.contains(member_with(members, id)),
{
    let i = choose|i: int| 0 <= i < members.len() && ids_in(members)[i] == id;
    lemma_member_with(members, i);
    assert(members[i] == member_with(members, id));
}

/// The assignment of a partition, over the ids along the ring.
proof fn lemma_table_at<H: Hasher>(
    h: &H,
    members: Seq<MemberView>,
    n: nat,
    vnodes: nat,
    cap: nat,
    want: nat,
    p: int,
)
    requires
        have_distinct_ids(members),
        0 < members.len() <= usize::MAX,
        vnodes > 0,
        0 <= p < n,
    ensures
        ({
            let ids = member_ids(members);
            let ring = ring_of(h, ids, vnodes);
            let line = owner_ids(ring);
            let starts = starts_of(h, ring, n);
            let at = primary_slot(line, starts, cap, p);
            let first = primary_ids(h, ids, vnodes, cap, n);
            let next = backup_ids(h, ids, vnodes, cap, n, want);
            &&& ring.len() > 0 && line.len() == ring.len()
            &&& 0 <= at < line.len()
            &&& at == chosen_slot(line, first.take(p), cap, starts[p])
            &&& first.len() == n && next.len() == n
            &&& first[p] == line[at]
            &&& next[p] == followers(line, at, want, line.len() as int)
            &&& ids_in(members).contains(first[p])
            &&& forall|i: int|
                0 <= i < next[p].len() ==> ids_in(members).contains(#[trigger] next[p][i])
        }),
{
    let ids = member_ids(members);
    let ring = ring_of(h, ids, vnodes);
    let places = owners(ring);
    let line = owner_ids(ring);
    let starts = starts_of(h, ring, n);
    lemma_distinct(members);
    lemma_ring_slots(h, ids, vnodes);
    lemma_starts(h, ring, n);
    lemma_primaries_ids(ids, places, starts, cap, n);
    lemma_primaries_ids(ids, places, starts, cap, (p + 1) as nat);
    lemma_primaries_ids(ids, places, starts, cap, p as nat);
    lemma_primaries_at(places, starts, cap, n, p);
    lemma_primaries_at(line, starts, cap, n, p);
    lemma_primaries_len(line, starts, cap, n);
    lemma_primaries_len(line, starts, cap, p as nat);
    lemma_primaries_len(places, starts, cap, n);
    let at = primary_slot(line, starts, cap, p);
    lemma_chosen_slot(line, primaries(line, starts, cap, p as nat), cap, starts[p]);
    lemma_followers_ids(ids, places, at, want, ring.len() as int);
    lemma_followers(line, at, want, ring.len() as int);
    lemma_prefix(line, starts, cap, p as nat, n);
    let first = primary_ids(h, ids, vnodes, cap, n);
    assert(first.take(p) =~= primaries(line, starts, cap, p as nat));
    assert forall|k: int| 0 <= k < line.len() implies ids_in(members).contains(
        #[trigger] line[k],
    ) by {
        let m = ring[k].member as int;
        assert(ids_in(members)[m] == line[k]);
    }
    let f = followers(line, at, want, line.len() as int);
    assert forall|i: int| 0 <= i < f.len() implies ids_in(members).contains(#[trigger] f[i]) by {
        assert(line.contains(f[i]));
        let k = choose|k: int| 0 <= k < line.len() && line[k] == f[i];
        assert(ids_in(members).contains(line[k]));
    }
}

/// Later partitions do not change the primaries of earlier ones.
proof fn lemma_prefix<T>(ring: Seq<T>, starts: Seq<int>, cap: nat, p: nat, n: nat)
    requires
        p <= n,
    ensures
        primaries(ring, starts, cap, n).take(p as int) == primaries(ring, starts, cap, p),
    decreases n,
{
    lemma_primaries_len(ring, starts, cap, n);
    lemma_primaries_len(ring, starts, cap, p);
    if p < n {
        lemma_prefix(ring, starts, cap, p, (n - 1) as nat);
        lemma_primaries_len(ring, starts, cap, (n - 1) as nat);
        assert(primaries(ring, starts, cap, n).take(p as int) =~= primaries(
            ring,
            starts,
            cap,
            (n - 1) as nat,
        ).take(p as int));
    } else {
        assert(primaries(ring, starts, cap, n).take(p as int) =~= primaries(ring, starts, cap, p));
    }
}

/// The first owner of a partition is the first member behind the hash of the
/// partition, along the ring, whose load of earlier partitions has not reached its
/// capacity. The backups are the next distinct members behind that place, nearest
/// first: as many as are asked for besides the owner, or all others where there
/// are fewer. None of them is the owner, and none is named twice.
pub proof fn law_table_follows_the_ring<H: Hasher>(
    h: &H,
    members: Seq<MemberView>,
    partition_count: u32,
    vnodes: u32,
    capacity: u32,
    replica_count: u32,
    signature: u64,
    p: u32,
) -> (walk: (int, int))
    requires
        have_distinct_ids(members),
        0 < members.len() <= usize::MAX,
        vnodes > 0,
        p < partition_count,
    ensures
        ({
            let t = table_for(
                h,
                members,
                partition_count,
                vnodes,
                capacity,
                replica_count,
                signature,
            );
            let ring = ring_of(h, member_ids(members), vnodes as nat);
            let line = owner_ids(ring);
            let (start, step) = walk;
            let owner = t.primary[p][0];
            let backups = t.backup[p];
            &&& enters(ring, h.hash_of(hashed_for(p)), start)
            &&& ends_at(
                line,
                earlier_primaries(t, p).to_multiset(),
                capacity as nat,
                start,
                step,
            )
            &&& behind(line, start, step) == owner.id
            &&& comes_next(line, (start + step) % line.len() as int, ids_in(backups))
            &&& backups.len() == if replica_count == 0 {
                0
            } else if replica_count <= members.len() {
                replica_count - 1
            } else {
                members.len() - 1
            }
            &&& forall|i: int|
                0 <= i < backups.len() ==> (#[trigger] backups[i]).id != owner.id
            &&& forall|i: int, j: int|
                0 <= i < j < backups.len() ==> (#[trigger] backups[i]).id != (
                #[trigger] backups[j]).id
        }),
{
    let t = table_for(
        h,
        members,
        partition_count,
        vnodes,
        capacity,
        replica_count,
        signature,
    );
    let ids = member_ids(members);
    let ring = ring_of(h, ids, vnodes as nat);
    let line = owner_ids(ring);
    let n = partition_count as nat;
    let cap = capacity as nat;
    let want = crate::cluster::routing::table::backups_wanted(replica_count);
    let starts = starts_of(h, ring, n);
    let first = primary_ids(h, ids, vnodes as nat, cap, n);
    let next = backup_ids(h, ids, vnodes as nat, cap, n, want)[p as int];
    lemma_distinct(members);
    lemma_table_at(h, members, n, vnodes as nat, cap, want, p as int);
    lemma_ring(h, ids, vnodes as nat);
    assert forall|a: int, b: int| 0 <= a < b < ring.len() implies (#[trigger] ring[a]).pos <= (
    #[trigger] ring[b]).pos by {
        assert(crate::cluster::routing::ring::slot_order()(ring[a], ring[b]));
    }
    let start = starts[p as int];
    lemma_enters(ring, h.hash_of(crate::cluster::routing::ring::partition_key(p)), 0);
    assert(crate::cluster::routing::ring::partition_key(p) =~= hashed_for(p));
    let step = lemma_chosen(line, first.take(p as int), cap, start);
    let at = (start + step) % line.len() as int;
    assert(earlier_primaries(t, p) =~= first.take(p as int)) by {
        assert forall|q: int| 0 <= q < p implies #[trigger] earlier_primaries(t, p)[q]
            == first[q] by {
            lemma_table_at(h, members, n, vnodes as nat, cap, want, q);
            lemma_has_member(members, first[q]);
        }
    }
    lemma_has_member(members, first[p as int]);
    lemma_comes_next(line, at, want, line.len() as int);
    law_backups_are_distinct(h, ids, vnodes as nat, cap, n, want, p as int);
    let backups = t.backup[p];
    assert forall|i: int| 0 <= i < backups.len() implies (#[trigger] backups[i]).id == next[i] by {
        assert(ids_in(members).contains(next[i]));
        lemma_has_member(members, next[i]);
    }
    assert(ids_in(backups) =~= next);
    assert forall|i: int| 0 <= i < backups.len() implies (#[trigger] backups[i]).id
        != t.primary[p][0].id by {
        assert(next.contains(next[i]));
    }
    (start, step)
}

/// No member is the first owner of more partitions than its capacity, as long as
/// the capacities of all members make up for the partitions.
pub proof fn law_table_bounds_the_load<H: Hasher>(
    h: &H,
    members: Seq<MemberView>,
    partition_count: u32,
    vnodes: u32,
    capacity: u32,
    replica_count: u32,
    signature: u64,
    id: MemberId,
)
    requires
        have_distinct_ids(members),
        0 < members.len() <= usize::MAX,
        vnodes > 0,
        partition_count <= capacity * members.len(),
    ensures
        ({
            let t = table_for(
                h,
                members,
                partition_count,
                vnodes,
                capacity,
                replica_count,
                signature,
            );
            earlier_primaries(t, partition_count).to_multiset().count(id) <= capacity
        }),
{
    let t = table_for(
        h,
        members,
        partition_count,
        vnodes,
        capacity,
        replica_count,
        signature,
    );
    let ids = member_ids(members);
    let n = partition_count as nat;
    let want = crate::cluster::routing::table::backups_wanted(replica_count);
    let first = primary_ids(h, ids, vnodes as nat, capacity as nat, n);
    lemma_distinct(members);
    crate::cluster::routing::ring_laws::law_bounded_load(
        h,
        ids,
        vnodes as nat,
        capacity as nat,
        n,
        id,
    );
    if n > 0 {
        lemma_table_at(h, members, n, vnodes as nat, capacity as nat, want, 0);
        assert(earlier_primaries(t, partition_count) =~= first) by {
            assert forall|q: int| 0 <= q < n implies #[trigger] earlier_primaries(
                t,
                partition_count,
            )[q] == first[q] by {
                lemma_table_at(h, members, n, vnodes as nat, capacity as nat, want, q);
                lemma_has_member(members, first[q]);
            }
        }
    } else {
        assert(earlier_primaries(t, partition_count) =~= Seq::empty());
        earlier_primaries(t, partition_count).to_multiset_ensures();
        assert(!earlier_primaries(t, partition_count).contains(id));
    }
    lemma_counted(first, id);
}

proof fn lemma_every_slot<H: Hasher>(h: &H, ids: Seq<u64>, n: nat, vnodes: nat, m: int, v: int)
    requires
        n <= ids.len() <= usize::MAX,
    ensures
        slots_upto(h, ids, n, vnodes).len() == n * vnodes,
        0 <= m < n && 0 <= v < vnodes ==> slots_upto(h, ids, n, vnodes).contains(
            Slot {
                pos: h.hash_of(hex(ids[m] as nat, 16) + seq![0x23u8] + decimal(v as nat)),
                id: ids[m],
                member: m as usize,
            },
        ),
    decreases n,
{
    if n > 0 {
        let before = slots_upto(h, ids, (n - 1) as nat, vnodes);
        let all = slots_upto(h, ids, n, vnodes);
        lemma_every_slot(h, ids, (n - 1) as nat, vnodes, m, v);
        assert(n * vnodes == (n - 1) * vnodes + vnodes) by (nonlinear_arith)
            requires
                n > 0,
        ;
        if 0 <= m < n && 0 <= v < vnodes {
            let x = Slot {
                pos: h.hash_of(hex(ids[m] as nat, 16) + seq![0x23u8] + decimal(v as nat)),
                id: ids[m],
                member: m as usize,
            };
            if m < n - 1 {
                let i = choose|i: int| 0 <= i < before.len() && before[i] == x;
                assert(all[i] == x);
            } else {
                assert(all[before.len() + v] == x);
            }
        }
    } else {
        assert(n * vnodes == 0) by (nonlinear_arith)
            requires
                n == 0,
        ;
    }
}

/// Every member stands on the ring as often as it has virtual nodes: where the hash
/// of its id in hexadecimal, a hash sign and the number of the virtual node puts
/// it. Nothing else does, and the positions never go down.
pub proof fn law_ring_holds_every_virtual_node<H: Hasher>(
    h: &H,
    ids: Seq<u64>,
    vnodes: nat,
    m: int,
    v: int,
)
    requires
        ids.len() <= usize::MAX,
        0 <= m < ids.len(),
        0 <= v < vnodes,
    ensures
        ({
            let ring = ring_of(h, ids, vnodes);
            &&& ring.len() == ids.len() * vnodes
            &&& exists|k: int|
                0 <= k < ring.len() && (#[trigger] ring[k]).id == ids[m] && ring[k].pos
                    == h.hash_of(hex(ids[m] as nat, 16) + seq![0x23u8] + decimal(v as nat))
            &&& forall|k: int|
                0 <= k < ring.len() ==> (#[trigger] ring[k]).member < ids.len() && ring[k].id
                    == ids[ring[k].member as int]
            &&& forall|a: int, b: int|
                0 <= a < b < ring.len() ==> (#[trigger] ring[a]).pos <= (#[trigger] ring[b]).pos
        }),
{
    let ring = ring_of(h, ids, vnodes);
    let slots = slots_upto(h, ids, ids.len(), vnodes);
    lemma_ring(h, ids, vnodes);
    lemma_ring_slots(h, ids, vnodes);
    lemma_every_slot(h, ids, ids.len(), vnodes, m, v);
    slots.to_multiset_ensures();
    ring.to_multiset_ensures();
    let x = Slot {
        pos: h.hash_of(hex(ids[m] as nat, 16) + seq![0x23u8] + decimal(v as nat)),
        id: ids[m],
        member: m as usize,
    };
    assert(slots.to_multiset().count(x) > 0);
    assert(ring.contains(x));
    let k = choose|k: int| 0 <= k < ring.len() && ring[k] == x;
    assert(ring[k].id == ids[m]);
    assert forall|a: int, b: int| 0 <= a < b < ring.len() implies (#[trigger] ring[a]).pos <= (
    #[trigger] ring[b]).pos by {
        assert(crate::cluster::routing::ring::slot_order()(ring[a], ring[b]));
    }
}

/// What a table names for a partition is what it holds under the number of the
/// partition, and nothing where it holds nothing.
pub proof fn law_partitions_are_looked_up(t: TableView, p: u32)
    ensures
        t.primary.contains_key(p) ==> owners_in(t, p) == t.primary[p],
        !t.primary.contains_key(p) ==> owners_in(t, p).len() == 0,
        t.backup.contains_key(p) ==> backups_in(t, p) == t.backup[p],
        !t.backup.contains_key(p) ==> backups_in(t, p).len() == 0,
{
}

} // verus!
