//! What holds of every assignment of partitions.

use vstd::multiset::*;
use vstd::prelude::*;
use vstd::relations::*;

use crate::cluster::routing::ring::{
    around, backup_ids, chosen_slot, followers, free_slot, ids_at, lemma_primaries_len, lemma_ring,
    member_slots, occurrences, owners, primaries, primary_ids, primary_slot, ring_of, slot_from,
    slot_leq, slot_order, slots_upto, starts_of, vnode_key, vnode_slot, Slot,
};
use crate::hasher::Hasher;
use crate::ids::MemberId;

verus! {

/// No id occurs twice.
pub open spec fn distinct_ids(ids: Seq<u64>) -> bool {
    ids.no_duplicates()
}

/// Ids along a ring.
pub open spec fn owner_ids(ring: Seq<Slot>) -> Seq<MemberId> {
    Seq::new(ring.len(), |i: int| MemberId(ring[i].id))
}

/// The listed members, as ids.
pub open spec fn all_ids(ids: Seq<u64>) -> Seq<MemberId> {
    Seq::new(ids.len(), |i: int| MemberId(ids[i]))
}

// ---------------------------------------------------------------------------
// The walk
// ---------------------------------------------------------------------------

proof fn lemma_around(start: int, k: int, len: int) -> (s: int)
    requires
        0 <= start <= len,
        0 <= k < len,
    ensures
        0 <= s < len,
        around(start, s, len) == k,
{
    let s = if k >= start {
        k - start
    } else {
        k - start + len
    };
    if k >= start {
        vstd::arithmetic::div_mod::lemma_small_mod(k as nat, len as nat);
    } else {
        vstd::arithmetic::div_mod::lemma_small_mod(k as nat, len as nat);
        vstd::arithmetic::div_mod::lemma_mod_add_multiples_vanish(k, len);
    }
    s
}

pub proof fn lemma_around_range(start: int, step: int, len: int)
    requires
        len > 0,
    ensures
        0 <= around(start, step, len) < len,
{
    vstd::arithmetic::div_mod::lemma_mod_bound(start + step, len);
}

pub proof fn lemma_free_slot<T>(
    ring: Seq<T>,
    earlier: Seq<T>,
    cap: nat,
    start: int,
    step: int,
)
    requires
        ring.len() > 0,
        0 <= step,
    ensures
        match free_slot(ring, earlier, cap, start, step) {
            Some(i) => 0 <= i < ring.len() && occurrences(earlier, ring[i]) < cap,
            None => forall|s: int|
                step <= s < ring.len() ==> occurrences(
                    earlier,
                    ring[#[trigger] around(start, s, ring.len() as int)],
                ) >= cap,
        },
    decreases ring.len() - step,
{
    if step < ring.len() {
        lemma_around_range(start, step, ring.len() as int);
        lemma_free_slot(ring, earlier, cap, start, step + 1);
    }
}

/// The slot that a walk ends at is on the ring, and its member has capacity
/// left where any member has.
pub proof fn lemma_chosen_slot<T>(ring: Seq<T>, earlier: Seq<T>, cap: nat, start: int)
    requires
        ring.len() > 0,
        0 <= start <= ring.len(),
    ensures
        0 <= chosen_slot(ring, earlier, cap, start) < ring.len(),
        (exists|k: int| 0 <= k < ring.len() && occurrences(earlier, #[trigger] ring[k]) < cap)
            ==> occurrences(earlier, ring[chosen_slot(ring, earlier, cap, start)]) < cap,
{
    lemma_free_slot(ring, earlier, cap, start, 0);
    lemma_around_range(start, 0, ring.len() as int);
    if exists|k: int| 0 <= k < ring.len() && occurrences(earlier, #[trigger] ring[k]) < cap {
        let k = choose|k: int|
            0 <= k < ring.len() && occurrences(earlier, #[trigger] ring[k]) < cap;
        let s = lemma_around(start, k, ring.len() as int);
        assert(free_slot(ring, earlier, cap, start, 0) is Some);
    }
}

// ---------------------------------------------------------------------------
// Counting
// ---------------------------------------------------------------------------

/// How many elements of `s` are among `who`, counted member by member.
spec fn total<T>(s: Seq<T>, who: Seq<T>) -> nat
    decreases who.len(),
{
    if who.len() == 0 {
        0
    } else {
        total(s, who.drop_last()) + occurrences(s, who.last())
    }
}

proof fn lemma_total_step<T>(s: Seq<T>, who: Seq<T>)
    requires
        s.len() > 0,
        who.no_duplicates(),
    ensures
        total(s, who) <= total(s.drop_last(), who) + if who.contains(s.last()) {
            1nat
        } else {
            0nat
        },
    decreases who.len(),
{
    if who.len() > 0 {
        let front = who.drop_last();
        lemma_total_step(s, front);
        assert(who.contains(who.last())) by {
            assert(who[who.len() - 1] == who.last());
        }
        if front.contains(s.last()) {
            let i = choose|i: int| 0 <= i < front.len() && front[i] == s.last();
            assert(who[i] == s.last());
            assert(who[i] != who[who.len() - 1]);
        }
    }
}

proof fn lemma_total_bound<T>(s: Seq<T>, who: Seq<T>)
    requires
        who.no_duplicates(),
    ensures
        total(s, who) <= s.len(),
    decreases s.len(),
{
    if s.len() == 0 {
        lemma_total_empty(s, who);
    } else {
        lemma_total_bound(s.drop_last(), who);
        lemma_total_step(s, who);
    }
}

proof fn lemma_total_empty<T>(s: Seq<T>, who: Seq<T>)
    requires
        s.len() == 0,
    ensures
        total(s, who) == 0,
    decreases who.len(),
{
    if who.len() > 0 {
        lemma_total_empty(s, who.drop_last());
    }
}

proof fn lemma_total_full<T>(s: Seq<T>, who: Seq<T>, cap: nat)
    requires
        forall|i: int| 0 <= i < who.len() ==> occurrences(s, #[trigger] who[i]) >= cap,
    ensures
        total(s, who) >= cap * who.len(),
    decreases who.len(),
{
    if who.len() > 0 {
        let front = who.drop_last();
        assert forall|i: int| 0 <= i < front.len() implies occurrences(s, #[trigger] front[i])
            >= cap by {
            assert(front[i] == who[i]);
        }
        lemma_total_full(s, front, cap);
        assert(who.last() == who[who.len() - 1]);
        assert(cap * who.len() == cap * front.len() + cap) by (nonlinear_arith)
            requires
                who.len() == front.len() + 1,
        ;
    }
}

/// Where the capacities add up to more than the earlier partitions, some member
/// has capacity left.
proof fn lemma_room<T>(earlier: Seq<T>, who: Seq<T>, cap: nat) -> (i: int)
    requires
        who.no_duplicates(),
        earlier.len() < cap * who.len(),
    ensures
        0 <= i < who.len(),
        occurrences(earlier, who[i]) < cap,
{
    if forall|i: int| 0 <= i < who.len() ==> occurrences(earlier, #[trigger] who[i]) >= cap {
        lemma_total_full(earlier, who, cap);
        lemma_total_bound(earlier, who);
    }
    choose|i: int| 0 <= i < who.len() && occurrences(earlier, #[trigger] who[i]) < cap
}

proof fn lemma_bounded<T>(ring: Seq<T>, who: Seq<T>, starts: Seq<int>, cap: nat, n: nat, x: T)
    requires
        ring.len() > 0,
        n <= starts.len(),
        forall|p: int| 0 <= p < starts.len() ==> 0 <= #[trigger] starts[p] <= ring.len(),
        who.no_duplicates(),
        forall|i: int| 0 <= i < who.len() ==> ring.contains(#[trigger] who[i]),
        n <= cap * who.len(),
    ensures
        occurrences(primaries(ring, starts, cap, n), x) <= cap,
    decreases n,
{
    if n > 0 {
        let earlier = primaries(ring, starts, cap, (n - 1) as nat);
        let start = starts[n - 1];
        lemma_bounded(ring, who, starts, cap, (n - 1) as nat, x);
        lemma_primaries_len(ring, starts, cap, (n - 1) as nat);
        let i = lemma_room(earlier, who, cap);
        let k = choose|k: int| 0 <= k < ring.len() && ring[k] == who[i];
        assert(occurrences(earlier, ring[k]) < cap);
        lemma_chosen_slot(ring, earlier, cap, start);
        let next = ring[chosen_slot(ring, earlier, cap, start)];
        assert(earlier.push(next).drop_last() =~= earlier);
    }
}

// ---------------------------------------------------------------------------
// From places in the member list to ids
// ---------------------------------------------------------------------------

proof fn lemma_ids_at_push(ids: Seq<u64>, s: Seq<int>, m: int)
    ensures
        ids_at(ids, s.push(m)) == ids_at(ids, s).push(MemberId(ids[m])),
{
    assert(ids_at(ids, s.push(m)) =~= ids_at(ids, s).push(MemberId(ids[m])));
}

proof fn lemma_ids_at_occurrences(ids: Seq<u64>, s: Seq<int>, m: int)
    requires
        distinct_ids(ids),
        0 <= m < ids.len(),
        forall|i: int| 0 <= i < s.len() ==> 0 <= #[trigger] s[i] < ids.len(),
    ensures
        occurrences(ids_at(ids, s), MemberId(ids[m])) == occurrences(s, m),
    decreases s.len(),
{
    if s.len() > 0 {
        let front = s.drop_last();
        assert forall|i: int| 0 <= i < front.len() implies 0 <= #[trigger] front[i] < ids.len() by {
            assert(front[i] == s[i]);
        }
        lemma_ids_at_occurrences(ids, front, m);
        assert(ids_at(ids, s).drop_last() =~= ids_at(ids, front));
        assert(s.last() == s[s.len() - 1]);
        assert(ids_at(ids, s).last() == MemberId(ids[s.last()]));
    }
}

proof fn lemma_free_slot_ids(
    ids: Seq<u64>,
    line: Seq<int>,
    earlier: Seq<int>,
    cap: nat,
    start: int,
    step: int,
)
    requires
        distinct_ids(ids),
        line.len() > 0,
        forall|i: int| 0 <= i < line.len() ==> 0 <= #[trigger] line[i] < ids.len(),
        forall|i: int| 0 <= i < earlier.len() ==> 0 <= #[trigger] earlier[i] < ids.len(),
    ensures
        free_slot(ids_at(ids, line), ids_at(ids, earlier), cap, start, step) == free_slot(
            line,
            earlier,
            cap,
            start,
            step,
        ),
    decreases line.len() - step,
{
    if step < line.len() {
        let i = around(start, step, line.len() as int);
        lemma_around_range(start, step, line.len() as int);
        assert(0 <= line[i] < ids.len());
        lemma_ids_at_occurrences(ids, earlier, line[i]);
        lemma_free_slot_ids(ids, line, earlier, cap, start, step + 1);
    }
}

pub proof fn lemma_primaries_ids(ids: Seq<u64>, line: Seq<int>, starts: Seq<int>, cap: nat, n: nat)
    requires
        distinct_ids(ids),
        line.len() > 0,
        n <= starts.len(),
        forall|p: int| 0 <= p < starts.len() ==> 0 <= #[trigger] starts[p] <= line.len(),
        forall|i: int| 0 <= i < line.len() ==> 0 <= #[trigger] line[i] < ids.len(),
    ensures
        primaries(ids_at(ids, line), starts, cap, n) == ids_at(
            ids,
            primaries(line, starts, cap, n),
        ),
        forall|i: int|
            0 <= i < n ==> 0 <= #[trigger] primaries(line, starts, cap, n)[i] < ids.len(),
        n > 0 ==> primary_slot(ids_at(ids, line), starts, cap, n - 1) == primary_slot(
            line,
            starts,
            cap,
            n - 1,
        ),
    decreases n,
{
    if n > 0 {
        let earlier = primaries(line, starts, cap, (n - 1) as nat);
        lemma_primaries_ids(ids, line, starts, cap, (n - 1) as nat);
        lemma_primaries_len(line, starts, cap, (n - 1) as nat);
        lemma_free_slot_ids(ids, line, earlier, cap, starts[n - 1], 0);
        let at = chosen_slot(line, earlier, cap, starts[n - 1]);
        lemma_chosen_slot(line, earlier, cap, starts[n - 1]);
        lemma_ids_at_push(ids, earlier, line[at]);
        assert(0 <= line[at] < ids.len());
    } else {
        assert(ids_at(ids, Seq::<int>::empty()) =~= Seq::<MemberId>::empty());
    }
}

pub proof fn lemma_followers_ids(ids: Seq<u64>, line: Seq<int>, at: int, want: nat, steps: int)
    requires
        distinct_ids(ids),
        0 <= at < line.len(),
        forall|i: int| 0 <= i < line.len() ==> 0 <= #[trigger] line[i] < ids.len(),
    ensures
        followers(ids_at(ids, line), at, want, steps) == ids_at(
            ids,
            followers(line, at, want, steps),
        ),
        forall|i: int|
            0 <= i < followers(line, at, want, steps).len() ==> 0 <= #[trigger] followers(
                line,
                at,
                want,
                steps,
            )[i] < ids.len(),
    decreases steps,
{
    if steps <= 1 {
        assert(ids_at(ids, Seq::<int>::empty()) =~= Seq::<MemberId>::empty());
    } else {
        lemma_followers_ids(ids, line, at, want, steps - 1);
        let nearer = followers(line, at, want, steps - 1);
        let k = around(at, steps - 1, line.len() as int);
        lemma_around_range(at, steps - 1, line.len() as int);
        let m = line[k];
        assert(0 <= m < ids.len());
        assert(0 <= line[at] < ids.len());
        lemma_ids_at_push(ids, nearer, m);
        assert(ids_at(ids, nearer).contains(MemberId(ids[m])) <==> nearer.contains(m)) by {
            if nearer.contains(m) {
                let i = choose|i: int| 0 <= i < nearer.len() && nearer[i] == m;
                assert(ids_at(ids, nearer)[i] == MemberId(ids[m]));
            }
            if ids_at(ids, nearer).contains(MemberId(ids[m])) {
                let i = choose|i: int|
                    0 <= i < nearer.len() && ids_at(ids, nearer)[i] == MemberId(ids[m]);
                assert(0 <= nearer[i] < ids.len());
                assert(nearer[i] == m);
            }
        }
    }
}

/// What the slots of the first `n` members hold.
proof fn lemma_slots<H: Hasher>(h: &H, ids: Seq<u64>, n: nat, vnodes: nat)
    requires
        n <= ids.len() <= usize::MAX,
    ensures
        forall|k: int|
            0 <= k < slots_upto(h, ids, n, vnodes).len() ==> {
                let s = #[trigger] slots_upto(h, ids, n, vnodes)[k];
                s.member < n && s.id == ids[s.member as int]
            },
        vnodes > 0 ==> forall|m: int|
            0 <= m < n ==> slots_upto(h, ids, n, vnodes).contains(
                #[trigger] vnode_slot(h, ids, m, 0),
            ),
    decreases n,
{
    if n > 0 {
        let before = slots_upto(h, ids, (n - 1) as nat, vnodes);
        let here = member_slots(h, ids, n - 1, vnodes);
        let all = slots_upto(h, ids, n, vnodes);
        lemma_slots(h, ids, (n - 1) as nat, vnodes);
        assert forall|k: int| 0 <= k < all.len() implies {
            let s = #[trigger] all[k];
            s.member < n && s.id == ids[s.member as int]
        } by {
            if k < before.len() {
                assert(all[k] == before[k]);
            } else {
                assert(all[k] == here[k - before.len()]);
            }
        }
        if vnodes > 0 {
            assert forall|m: int| 0 <= m < n implies all.contains(
                #[trigger] vnode_slot(h, ids, m, 0),
            ) by {
                if m < n - 1 {
                    assert(before.contains(vnode_slot(h, ids, m, 0)));
                    let i = choose|i: int|
                        0 <= i < before.len() && before[i] == vnode_slot(h, ids, m, 0);
                    assert(all[i] == vnode_slot(h, ids, m, 0));
                } else {
                    assert(all[before.len() as int] == here[0]);
                }
            }
        }
    }
}

/// What a ring holds: the slots of the listed members, of each at least one.
pub proof fn lemma_ring_slots<H: Hasher>(h: &H, ids: Seq<u64>, vnodes: nat)
    requires
        ids.len() <= usize::MAX,
        vnodes > 0,
        ids.len() > 0,
    ensures
        ring_of(h, ids, vnodes).len() > 0,
        forall|k: int|
            0 <= k < ring_of(h, ids, vnodes).len() ==> {
                let s = #[trigger] ring_of(h, ids, vnodes)[k];
                s.member < ids.len() && s.id == ids[s.member as int]
            },
        ids_at(ids, owners(ring_of(h, ids, vnodes))) == owner_ids(ring_of(h, ids, vnodes)),
        forall|m: int|
            0 <= m < ids.len() ==> owner_ids(ring_of(h, ids, vnodes)).contains(
                MemberId(#[trigger] ids[m]),
            ),
{
    let slots = slots_upto(h, ids, ids.len(), vnodes);
    let ring = ring_of(h, ids, vnodes);
    lemma_ring(h, ids, vnodes);
    lemma_slots(h, ids, ids.len(), vnodes);
    slots.to_multiset_ensures();
    ring.to_multiset_ensures();
    assert forall|k: int| 0 <= k < ring.len() implies {
        let s = #[trigger] ring[k];
        s.member < ids.len() && s.id == ids[s.member as int]
    } by {
        assert(ring.contains(ring[k]));
        assert(ring.to_multiset().count(ring[k]) > 0);
        assert(slots.contains(ring[k]));
        let j = choose|j: int| 0 <= j < slots.len() && slots[j] == ring[k];
        assert(slots[j].member < ids.len());
    }
    assert(ids_at(ids, owners(ring)) =~= owner_ids(ring));
    assert forall|m: int| 0 <= m < ids.len() implies owner_ids(ring).contains(
        MemberId(#[trigger] ids[m]),
    ) by {
        let s = vnode_slot(h, ids, m, 0);
        assert(slots.contains(s));
        assert(slots.to_multiset().count(s) > 0);
        assert(ring.contains(s));
        let k = choose|k: int| 0 <= k < ring.len() && ring[k] == s;
        assert(owner_ids(ring)[k] == MemberId(ids[m]));
    }
}

proof fn lemma_slot_from_range(ring: Seq<Slot>, hash: u64, i: int)
    requires
        0 <= i <= ring.len(),
    ensures
        i <= slot_from(ring, hash, i) <= ring.len(),
    decreases ring.len() - i,
{
    if i < ring.len() && ring[i].pos < hash {
        lemma_slot_from_range(ring, hash, i + 1);
    }
}

pub proof fn lemma_starts<H: Hasher>(h: &H, ring: Seq<Slot>, n: nat)
    ensures
        forall|p: int| 0 <= p < n ==> 0 <= #[trigger] starts_of(h, ring, n)[p] <= ring.len(),
{
    assert forall|p: int| 0 <= p < n implies 0 <= #[trigger] starts_of(h, ring, n)[p]
        <= ring.len() by {
        lemma_slot_from_range(
            ring,
            h.hash_of(crate::cluster::routing::ring::partition_key(p as u32)),
            0,
        );
    }
}

proof fn lemma_all_ids(ids: Seq<u64>)
    requires
        distinct_ids(ids),
    ensures
        all_ids(ids).no_duplicates(),
{
    assert forall|i: int, j: int| 0 <= i < ids.len() && 0 <= j < ids.len() && i != j implies all_ids(
        ids,
    )[i] != all_ids(ids)[j] by {
        assert(ids[i] != ids[j]);
    }
}

/// No member is the primary of more partitions than its capacity, as long as
/// the capacities of all members make up for the partitions.
pub proof fn law_bounded_load<H: Hasher>(
    h: &H,
    ids: Seq<u64>,
    vnodes: nat,
    cap: nat,
    n: nat,
    id: MemberId,
)
    requires
        distinct_ids(ids),
        0 < ids.len() <= usize::MAX,
        vnodes > 0,
        n <= cap * ids.len(),
    ensures
        occurrences(primary_ids(h, ids, vnodes, cap, n), id) <= cap,
{
    let ring = ring_of(h, ids, vnodes);
    let starts = starts_of(h, ring, n);
    lemma_ring_slots(h, ids, vnodes);
    lemma_starts(h, ring, n);
    lemma_all_ids(ids);
    lemma_primaries_ids(ids, owners(ring), starts, cap, n);
    assert forall|i: int| 0 <= i < all_ids(ids).len() implies owner_ids(ring).contains(
        #[trigger] all_ids(ids)[i],
    ) by {
        assert(owner_ids(ring).contains(MemberId(ids[i])));
    }
    lemma_bounded(owner_ids(ring), all_ids(ids), starts, cap, n, id);
}

// ---------------------------------------------------------------------------
// Backups
// ---------------------------------------------------------------------------

pub proof fn lemma_followers<T>(ring: Seq<T>, at: int, want: nat, steps: int)
    requires
        0 <= at < ring.len(),
    ensures
        followers(ring, at, want, steps).no_duplicates(),
        !followers(ring, at, want, steps).contains(ring[at]),
        followers(ring, at, want, steps).len() <= want,
        forall|i: int|
            0 <= i < followers(ring, at, want, steps).len() ==> ring.contains(
                #[trigger] followers(ring, at, want, steps)[i],
            ),
        followers(ring, at, want, steps).len() < want ==> forall|s: int|
            1 <= s < steps ==> {
                let m = ring[#[trigger] around(at, s, ring.len() as int)];
                m == ring[at] || followers(ring, at, want, steps).contains(m)
            },
    decreases steps,
{
    if steps > 1 {
        lemma_followers(ring, at, want, steps - 1);
        let nearer = followers(ring, at, want, steps - 1);
        let all = followers(ring, at, want, steps);
        let k = around(at, steps - 1, ring.len() as int);
        lemma_around_range(at, steps - 1, ring.len() as int);
        let m = ring[k];
        assert(ring.contains(m));
        if nearer.len() < want && m != ring[at] && !nearer.contains(m) {
            assert(all == nearer.push(m));
            assert(!all.contains(ring[at])) by {
                if all.contains(ring[at]) {
                    let i = choose|i: int| 0 <= i < all.len() && all[i] == ring[at];
                    if i < nearer.len() {
                        assert(nearer[i] == ring[at]);
                    }
                }
            }
            assert forall|s: int| all.len() < want && 1 <= s < steps implies {
                let x = ring[#[trigger] around(at, s, ring.len() as int)];
                x == ring[at] || all.contains(x)
            } by {
                let x = ring[around(at, s, ring.len() as int)];
                if s < steps - 1 {
                    if x != ring[at] {
                        let i = choose|i: int| 0 <= i < nearer.len() && nearer[i] == x;
                        assert(all[i] == x);
                    }
                } else {
                    assert(all[nearer.len() as int] == x);
                }
            }
            assert forall|i: int| 0 <= i < all.len() implies ring.contains(#[trigger] all[i]) by {
                if i < nearer.len() {
                    assert(all[i] == nearer[i]);
                }
            }
        }
    }
}

/// A duplicate-free list that is covered by another is no longer than it.
proof fn lemma_cover<T>(a: Seq<T>, b: Seq<T>)
    requires
        a.no_duplicates(),
        forall|i: int| 0 <= i < a.len() ==> b.contains(#[trigger] a[i]),
    ensures
        a.len() <= b.len(),
{
    a.unique_seq_to_set();
    b.lemma_cardinality_of_set();
    assert(a.to_set().subset_of(b.to_set())) by {
        assert forall|x: T| a.to_set().contains(x) implies b.to_set().contains(x) by {
            let i = choose|i: int| 0 <= i < a.len() && a[i] == x;
            assert(b.contains(a[i]));
        }
    }
    vstd::set_lib::lemma_len_subset(a.to_set(), b.to_set());
}

proof fn lemma_followers_len<T>(ring: Seq<T>, who: Seq<T>, at: int, want: nat)
    requires
        0 <= at < ring.len(),
        who.no_duplicates(),
        forall|i: int| 0 <= i < who.len() ==> ring.contains(#[trigger] who[i]),
        forall|k: int| 0 <= k < ring.len() ==> who.contains(#[trigger] ring[k]),
    ensures
        followers(ring, at, want, ring.len() as int).len() == if want <= who.len() - 1 {
            want as int
        } else {
            who.len() - 1
        },
{
    let len = ring.len() as int;
    let f = followers(ring, at, want, len);
    lemma_followers(ring, at, want, len);
    let with = f.push(ring[at]);
    assert(who.contains(ring[at]));
    assert(with.no_duplicates());
    assert forall|i: int| 0 <= i < with.len() implies who.contains(#[trigger] with[i]) by {
        if i < f.len() {
            assert(ring.contains(f[i]));
            let k = choose|k: int| 0 <= k < ring.len() && ring[k] == f[i];
            assert(who.contains(ring[k]));
        }
    }
    lemma_cover(with, who);
    if f.len() < want {
        assert forall|i: int| 0 <= i < who.len() implies with.contains(#[trigger] who[i]) by {
            assert(ring.contains(who[i]));
            let k = choose|k: int| 0 <= k < ring.len() && ring[k] == who[i];
            let s = lemma_around(at, k, len);
            if s == 0 {
                vstd::arithmetic::div_mod::lemma_small_mod(at as nat, len as nat);
                assert(with[f.len() as int] == who[i]);
            } else {
                let m = ring[around(at, s, len)];
                if m == ring[at] {
                    assert(with[f.len() as int] == who[i]);
                } else {
                    let j = choose|j: int| 0 <= j < f.len() && f[j] == m;
                    assert(with[j] == who[i]);
                }
            }
        }
        lemma_cover(who, with);
    }
}

/// The backups of a partition are distinct members, none of them its primary,
/// and as many as were asked for, if there are that many other members.
pub proof fn law_backups_are_distinct<H: Hasher>(
    h: &H,
    ids: Seq<u64>,
    vnodes: nat,
    cap: nat,
    n: nat,
    want: nat,
    p: int,
)
    requires
        distinct_ids(ids),
        0 < ids.len() <= usize::MAX,
        vnodes > 0,
        0 <= p < n,
    ensures
        backup_ids(h, ids, vnodes, cap, n, want)[p].no_duplicates(),
        !backup_ids(h, ids, vnodes, cap, n, want)[p].contains(
            primary_ids(h, ids, vnodes, cap, n)[p],
        ),
        backup_ids(h, ids, vnodes, cap, n, want)[p].len() == if want <= ids.len() - 1 {
            want as int
        } else {
            ids.len() - 1
        },
{
    let ring = ring_of(h, ids, vnodes);
    let line = owners(ring);
    let starts = starts_of(h, ring, n);
    let at = primary_slot(line, starts, cap, p);
    let q = (p + 1) as nat;
    lemma_ring_slots(h, ids, vnodes);
    lemma_starts(h, ring, n);
    lemma_all_ids(ids);
    lemma_primaries_ids(ids, line, starts, cap, q);
    lemma_chosen_slot(line, primaries(line, starts, cap, p as nat), cap, starts[p]);
    lemma_followers_ids(ids, line, at, want, ring.len() as int);
    lemma_followers(owner_ids(ring), at, want, ring.len() as int);
    assert forall|i: int| 0 <= i < all_ids(ids).len() implies owner_ids(ring).contains(
        #[trigger] all_ids(ids)[i],
    ) by {
        assert(owner_ids(ring).contains(MemberId(ids[i])));
    }
    assert forall|k: int| 0 <= k < ring.len() implies all_ids(ids).contains(
        #[trigger] owner_ids(ring)[k],
    ) by {
        assert(ring[k].member < ids.len());
        assert(all_ids(ids)[ring[k].member as int] == owner_ids(ring)[k]);
    }
    lemma_followers_len(owner_ids(ring), all_ids(ids), at, want);
    lemma_primaries_at(line, starts, cap, n, p);
    lemma_primaries_len(line, starts, cap, n);
}

pub proof fn lemma_primaries_at<T>(ring: Seq<T>, starts: Seq<int>, cap: nat, n: nat, p: int)
    requires
        0 <= p < n,
    ensures
        primaries(ring, starts, cap, n)[p] == ring[primary_slot(ring, starts, cap, p)],
    decreases n,
{
    lemma_primaries_len(ring, starts, cap, (n - 1) as nat);
    if p < n - 1 {
        lemma_primaries_at(ring, starts, cap, (n - 1) as nat, p);
    }
}

// ---------------------------------------------------------------------------
// The order of the members
// ---------------------------------------------------------------------------

/// Position and id of a virtual node: what does not depend on the order of the
/// members.
spec fn place_of(s: Slot) -> (u64, u64) {
    (s.pos, s.id)
}

spec fn places(s: Seq<Slot>) -> Seq<(u64, u64)> {
    Seq::new(s.len(), |i: int| place_of(s[i]))
}

spec fn place_order() -> spec_fn((u64, u64), (u64, u64)) -> bool {
    |a: (u64, u64), b: (u64, u64)| a.0 < b.0 || (a.0 == b.0 && a.1 <= b.1)
}

/// The places of one member.
spec fn member_places<H: Hasher>(h: &H, id: u64, vnodes: nat) -> Seq<(u64, u64)> {
    Seq::new(vnodes, |v: int| (h.hash_of(vnode_key(id, v as nat)), id))
}

spec fn add_places<H: Hasher>(h: &H, vnodes: nat) -> spec_fn(
    Multiset<(u64, u64)>,
    u64,
) -> Multiset<(u64, u64)> {
    |acc: Multiset<(u64, u64)>, id: u64| acc.add(member_places(h, id, vnodes).to_multiset())
}

spec fn add_place() -> spec_fn(Multiset<(u64, u64)>, Slot) -> Multiset<(u64, u64)> {
    |acc: Multiset<(u64, u64)>, s: Slot| acc.insert(place_of(s))
}

proof fn lemma_places_fold(s: Seq<Slot>)
    ensures
        places(s).to_multiset() == s.fold_left(Multiset::empty(), add_place()),
    decreases s.len(),
{
    broadcast use vstd::seq_lib::group_to_multiset_ensures;

    reveal(Seq::fold_left);
    if s.len() == 0 {
        assert(places(s) =~= Seq::empty());
        assert(places(s).to_multiset() =~= Multiset::empty());
    } else {
        lemma_places_fold(s.drop_last());
        assert(places(s) =~= places(s.drop_last()).push(place_of(s.last())));
        assert(places(s).to_multiset() =~= places(s.drop_last()).to_multiset().insert(
            place_of(s.last()),
        ));
    }
}

/// Slots in another order have the same places.
proof fn lemma_places_permuted(a: Seq<Slot>, b: Seq<Slot>)
    requires
        a.to_multiset() == b.to_multiset(),
    ensures
        places(a).to_multiset() == places(b).to_multiset(),
{
    lemma_places_fold(a);
    lemma_places_fold(b);
    assert forall|x: Slot, y: Slot, v: Multiset<(u64, u64)>| #[trigger]
        add_place()(add_place()(v, x), y) == add_place()(add_place()(v, y), x) by {
        assert(v.insert(place_of(x)).insert(place_of(y)) =~= v.insert(place_of(y)).insert(
            place_of(x),
        ));
    }
    vstd::seq_lib::lemma_fold_left_permutation(a, b, add_place(), Multiset::empty());
}

/// The places of the slots of the first `n` members.
proof fn lemma_slot_places<H: Hasher>(h: &H, ids: Seq<u64>, n: nat, vnodes: nat)
    requires
        n <= ids.len(),
    ensures
        places(slots_upto(h, ids, n, vnodes)).to_multiset() == ids.take(n as int).fold_left(
            Multiset::empty(),
            add_places(h, vnodes),
        ),
    decreases n,
{
    reveal(Seq::fold_left);
    if n == 0 {
        assert(places(slots_upto(h, ids, 0, vnodes)) =~= Seq::empty());
        assert(ids.take(0) =~= Seq::empty());
        broadcast use vstd::seq_lib::group_to_multiset_ensures;

        assert(Seq::<(u64, u64)>::empty().to_multiset() =~= Multiset::empty());
    } else {
        let before = slots_upto(h, ids, (n - 1) as nat, vnodes);
        let here = member_slots(h, ids, n - 1, vnodes);
        lemma_slot_places(h, ids, (n - 1) as nat, vnodes);
        assert(places(here) =~= member_places(h, ids[n - 1], vnodes));
        assert(places(before + here) =~= places(before) + places(here));
        vstd::seq_lib::lemma_multiset_commutative(places(before), places(here));
        assert(ids.take(n as int).drop_last() =~= ids.take(n - 1));
        assert(ids.take(n as int).last() == ids[n - 1]);
    }
}

/// Two rings over the same members hold the same places in the same order.
proof fn lemma_same_places<H: Hasher>(h: &H, a: Seq<u64>, b: Seq<u64>, vnodes: nat)
    requires
        a.to_multiset() == b.to_multiset(),
        a.len() <= usize::MAX,
        b.len() <= usize::MAX,
    ensures
        places(ring_of(h, a, vnodes)) == places(ring_of(h, b, vnodes)),
{
    lemma_ring(h, a, vnodes);
    lemma_ring(h, b, vnodes);
    let ra = ring_of(h, a, vnodes);
    let rb = ring_of(h, b, vnodes);
    lemma_places_permuted(ra, slots_upto(h, a, a.len(), vnodes));
    lemma_places_permuted(rb, slots_upto(h, b, b.len(), vnodes));
    lemma_slot_places(h, a, a.len(), vnodes);
    lemma_slot_places(h, b, b.len(), vnodes);
    assert(a.take(a.len() as int) =~= a);
    assert(b.take(b.len() as int) =~= b);
    let f = add_places(h, vnodes);
    assert forall|x: u64, y: u64, v: Multiset<(u64, u64)>| #[trigger] f(f(v, x), y) == f(
        f(v, y),
        x,
    ) by {
        let p = member_places(h, x, vnodes).to_multiset();
        let q = member_places(h, y, vnodes).to_multiset();
        assert(v.add(p).add(q) =~= v.add(q).add(p));
    }
    vstd::seq_lib::lemma_fold_left_permutation(a, b, f, Multiset::empty());
    lemma_places_sorted(ra);
    lemma_places_sorted(rb);
    vstd::seq_lib::lemma_sorted_unique(places(ra), places(rb), place_order());
}

proof fn lemma_places_sorted(r: Seq<Slot>)
    requires
        sorted_by(r, slot_order()),
    ensures
        sorted_by(places(r), place_order()),
{
    assert forall|i: int, j: int| 0 <= i < j < places(r).len() implies #[trigger] place_order()(
        places(r)[i],
        places(r)[j],
    ) by {
        assert(slot_order()(r[i], r[j]));
        assert(slot_leq(r[i], r[j]));
    }
}

proof fn lemma_slot_from_places(a: Seq<Slot>, b: Seq<Slot>, hash: u64, i: int)
    requires
        places(a) == places(b),
        0 <= i <= a.len(),
    ensures
        slot_from(a, hash, i) == slot_from(b, hash, i),
    decreases a.len() - i,
{
    assert(places(a).len() == a.len());
    assert(places(b).len() == b.len());
    if i < a.len() {
        assert(places(a)[i] == place_of(a[i]));
        assert(places(b)[i] == place_of(b[i]));
        lemma_slot_from_places(a, b, hash, i + 1);
    }
}

/// The assignment depends on which members there are, not on the order in which
/// they are listed.
pub proof fn law_member_order_is_irrelevant<H: Hasher>(
    h: &H,
    a: Seq<u64>,
    b: Seq<u64>,
    vnodes: nat,
    cap: nat,
    n: nat,
    want: nat,
)
    requires
        distinct_ids(a),
        distinct_ids(b),
        a.to_multiset() == b.to_multiset(),
        0 < a.len() <= usize::MAX,
        0 < b.len() <= usize::MAX,
        vnodes > 0,
    ensures
        primary_ids(h, a, vnodes, cap, n) == primary_ids(h, b, vnodes, cap, n),
        backup_ids(h, a, vnodes, cap, n, want) == backup_ids(h, b, vnodes, cap, n, want),
{
    let ra = ring_of(h, a, vnodes);
    let rb = ring_of(h, b, vnodes);
    lemma_same_places(h, a, b, vnodes);
    assert(places(ra).len() == places(rb).len());
    lemma_ring_slots(h, a, vnodes);
    lemma_ring_slots(h, b, vnodes);
    lemma_starts(h, ra, n);
    assert(starts_of(h, ra, n) =~= starts_of(h, rb, n)) by {
        assert forall|p: int| 0 <= p < n implies starts_of(h, ra, n)[p] == starts_of(h, rb, n)[p] by {
            lemma_slot_from_places(
                ra,
                rb,
                h.hash_of(crate::cluster::routing::ring::partition_key(p as u32)),
                0,
            );
        }
    }
    let starts = starts_of(h, ra, n);
    assert(owner_ids(ra) =~= owner_ids(rb)) by {
        assert forall|i: int| 0 <= i < ra.len() implies owner_ids(ra)[i] == owner_ids(rb)[i] by {
            assert(places(ra)[i] == places(rb)[i]);
        }
    }
    lemma_primaries_ids(a, owners(ra), starts, cap, n);
    lemma_primaries_ids(b, owners(rb), starts, cap, n);
    assert forall|p: int| 0 <= p < n implies backup_ids(h, a, vnodes, cap, n, want)[p]
        == backup_ids(h, b, vnodes, cap, n, want)[p] by {
        let q = (p + 1) as nat;
        lemma_primaries_ids(a, owners(ra), starts, cap, q);
        lemma_primaries_ids(b, owners(rb), starts, cap, q);
        let at = primary_slot(owners(ra), starts, cap, p);
        lemma_chosen_slot(
            owners(ra),
            primaries(owners(ra), starts, cap, p as nat),
            cap,
            starts[p],
        );
        lemma_followers_ids(a, owners(ra), at, want, ra.len() as int);
        lemma_followers_ids(b, owners(rb), at, want, rb.len() as int);
    }
    assert(backup_ids(h, a, vnodes, cap, n, want) =~= backup_ids(h, b, vnodes, cap, n, want));
}

} // verus!
