//! Consistent hashing with bounded loads (Mirrokni, Thorup, Zadimoghaddam:
//! "Consistent Hashing with Bounded Loads", arXiv:1608.01350).
//!
//! Every member stands on the ring as a number of virtual nodes, at positions
//! that depend on its id alone. A partition starts at its own position and
//! walks the ring to the first member that has capacity left: that one is its
//! primary. The next distinct members on the ring are its backups; only the
//! primaries are bounded by the capacity.

use vstd::prelude::*;
use vstd::relations::*;

use crate::hasher::Hasher;
use crate::ids::MemberId;
use crate::member::Member;
use crate::text::{decimal, decimal_bytes, hex, hex_bytes, push_bytes};

verus! {

/// Computed partition assignment.
#[derive(Debug)]
pub struct Assignment {
    /// Primary member of each partition.
    pub primary: Vec<MemberId>,
    /// Backup members of each partition, nearest first.
    pub backups: Vec<Vec<MemberId>>,
}

/// A virtual node on the ring.
#[derive(Debug, Clone, Copy, PartialEq, Eq, Structural)]
pub struct Slot {
    /// Position on the ring.
    pub pos: u64,
    /// Id of the member.
    pub id: u64,
    /// Index of the member in the list that the ring was built from.
    pub member: usize,
}

// ---------------------------------------------------------------------------
// The ring
// ---------------------------------------------------------------------------

/// Ids of a list of members.
pub open spec fn ids_of(members: Seq<Member>) -> Seq<u64> {
    Seq::new(members.len(), |i: int| members[i].id.0)
}

/// What is hashed for virtual node `v` of the member `id`: the id in
/// hexadecimal, a hash sign, and the number of the virtual node.
pub open spec fn vnode_key(id: u64, v: nat) -> Seq<u8> {
    hex(id as nat, 16) + seq![35u8] + decimal(v)
}

/// Virtual node `v` of member number `i`.
pub open spec fn vnode_slot<H: Hasher>(h: &H, ids: Seq<u64>, i: int, v: int) -> Slot {
    Slot { pos: h.hash_of(vnode_key(ids[i], v as nat)), id: ids[i], member: i as usize }
}

/// The virtual nodes of one member.
pub open spec fn member_slots<H: Hasher>(h: &H, ids: Seq<u64>, i: int, vnodes: nat) -> Seq<Slot> {
    Seq::new(vnodes, |v: int| vnode_slot(h, ids, i, v))
}

/// The virtual nodes of the first `n` members, in the order of the members.
pub open spec fn slots_upto<H: Hasher>(h: &H, ids: Seq<u64>, n: nat, vnodes: nat) -> Seq<Slot>
    decreases n,
{
    if n == 0 {
        Seq::empty()
    } else {
        slots_upto(h, ids, (n - 1) as nat, vnodes) + member_slots(h, ids, n - 1, vnodes)
    }
}

/// Order of the ring: by position; virtual nodes that collide are ordered by
/// id, so that the order of the members does not show.
pub open spec fn slot_leq(a: Slot, b: Slot) -> bool {
    a.pos < b.pos || (a.pos == b.pos && (a.id < b.id || (a.id == b.id && a.member <= b.member)))
}

/// [`slot_leq`] as a value.
pub open spec fn slot_order() -> spec_fn(Slot, Slot) -> bool {
    |a: Slot, b: Slot| slot_leq(a, b)
}

/// The ring: all virtual nodes in the order of their positions.
pub open spec fn ring_of<H: Hasher>(h: &H, ids: Seq<u64>, vnodes: nat) -> Seq<Slot> {
    slots_upto(h, ids, ids.len(), vnodes).sort_by(slot_order())
}

/// Members along the ring.
pub open spec fn owners(ring: Seq<Slot>) -> Seq<int> {
    Seq::new(ring.len(), |i: int| ring[i].member as int)
}

/// First slot from `i` on that lies at or behind `hash`; the end of the ring
/// where there is none.
pub open spec fn slot_from(ring: Seq<Slot>, hash: u64, i: int) -> int
    decreases ring.len() - i,
{
    if i >= ring.len() || ring[i].pos >= hash {
        i
    } else {
        slot_from(ring, hash, i + 1)
    }
}

/// The bytes of `n`, most significant first.
pub open spec fn big_endian(n: u32) -> Seq<u8> {
    seq![
        (n / 16777216) as u8,
        (n / 65536 % 256) as u8,
        (n / 256 % 256) as u8,
        (n % 256) as u8,
    ]
}

/// What is hashed for a partition: `p:______` and the number of the partition
/// in four bytes.
pub open spec fn partition_key(partition: u32) -> Seq<u8> {
    seq![112u8, 58u8, 95u8, 95u8, 95u8, 95u8, 95u8, 95u8] + big_endian(partition)
}

/// Where the walks of the first `n` partitions start.
pub open spec fn starts_of<H: Hasher>(h: &H, ring: Seq<Slot>, n: nat) -> Seq<int> {
    Seq::new(n, |p: int| slot_from(ring, h.hash_of(partition_key(p as u32)), 0))
}

// ---------------------------------------------------------------------------
// The walk, over the members along a ring
// ---------------------------------------------------------------------------

/// How often `x` occurs in `s`.
pub open spec fn occurrences<T>(s: Seq<T>, x: T) -> nat
    decreases s.len(),
{
    if s.len() == 0 {
        0
    } else {
        occurrences(s.drop_last(), x) + if s.last() == x {
            1nat
        } else {
            0nat
        }
    }
}

/// The slot `step` places behind `start` on a ring of `len` slots.
pub open spec fn around(start: int, step: int, len: int) -> int {
    (start + step) % len
}

/// First slot, from `step` places behind `start` on and once around, whose
/// member is the primary of fewer than `cap` of the earlier partitions.
pub open spec fn free_slot<T>(
    ring: Seq<T>,
    earlier: Seq<T>,
    cap: nat,
    start: int,
    step: int,
) -> Option<int>
    decreases ring.len() - step,
{
    if step >= ring.len() {
        None
    } else {
        let i = around(start, step, ring.len() as int);
        if occurrences(earlier, ring[i]) < cap {
            Some(i)
        } else {
            free_slot(ring, earlier, cap, start, step + 1)
        }
    }
}

/// Slot at which a walk from `start` ends. Where every member is full it is the
/// one where the walk started.
pub open spec fn chosen_slot<T>(ring: Seq<T>, earlier: Seq<T>, cap: nat, start: int) -> int {
    match free_slot(ring, earlier, cap, start, 0) {
        Some(i) => i,
        None => around(start, 0, ring.len() as int),
    }
}

/// Primaries of the first `n` partitions.
pub open spec fn primaries<T>(ring: Seq<T>, starts: Seq<int>, cap: nat, n: nat) -> Seq<T>
    decreases n,
{
    if n == 0 {
        Seq::empty()
    } else {
        let earlier = primaries(ring, starts, cap, (n - 1) as nat);
        earlier.push(ring[chosen_slot(ring, earlier, cap, starts[n - 1])])
    }
}

/// Slot that was chosen for partition `p`.
pub open spec fn primary_slot<T>(ring: Seq<T>, starts: Seq<int>, cap: nat, p: int) -> int {
    chosen_slot(ring, primaries(ring, starts, cap, p as nat), cap, starts[p])
}

/// At most `want` distinct members, without the one at slot `at`, that stand on
/// the slots less than `steps` places behind it, nearest first.
pub open spec fn followers<T>(ring: Seq<T>, at: int, want: nat, steps: int) -> Seq<T>
    decreases steps,
{
    if steps <= 1 {
        Seq::empty()
    } else {
        let nearer = followers(ring, at, want, steps - 1);
        let m = ring[around(at, steps - 1, ring.len() as int)];
        if nearer.len() < want && m != ring[at] && !nearer.contains(m) {
            nearer.push(m)
        } else {
            nearer
        }
    }
}

/// The ids of the members with these indices.
pub open spec fn ids_at(ids: Seq<u64>, at: Seq<int>) -> Seq<MemberId> {
    Seq::new(at.len(), |i: int| MemberId(ids[at[i]]))
}

/// Lists of ids.
pub open spec fn id_lists(v: Seq<Vec<MemberId>>) -> Seq<Seq<MemberId>> {
    Seq::new(v.len(), |i: int| v[i]@)
}

/// Primaries of the first `n` partitions, as ids.
pub open spec fn primary_ids<H: Hasher>(
    h: &H,
    ids: Seq<u64>,
    vnodes: nat,
    cap: nat,
    n: nat,
) -> Seq<MemberId> {
    let ring = ring_of(h, ids, vnodes);
    ids_at(ids, primaries(owners(ring), starts_of(h, ring, n), cap, n))
}

/// Backups of the first `n` partitions, as ids.
pub open spec fn backup_ids<H: Hasher>(
    h: &H,
    ids: Seq<u64>,
    vnodes: nat,
    cap: nat,
    n: nat,
    want: nat,
) -> Seq<Seq<MemberId>> {
    let ring = ring_of(h, ids, vnodes);
    let starts = starts_of(h, ring, n);
    Seq::new(
        n,
        |p: int|
            ids_at(
                ids,
                followers(
                    owners(ring),
                    primary_slot(owners(ring), starts, cap, p),
                    want,
                    ring.len() as int,
                ),
            ),
    )
}

// ---------------------------------------------------------------------------
// Building the ring
// ---------------------------------------------------------------------------

proof fn lemma_slot_order()
    ensures
        total_ordering(slot_order()),
{
}

proof fn lemma_slots_len<H: Hasher>(h: &H, ids: Seq<u64>, n: nat, vnodes: nat)
    ensures
        vnodes > 0 && n > 0 ==> slots_upto(h, ids, n, vnodes).len() > 0,
    decreases n,
{
}

/// Every slot belongs to one of the members.
proof fn lemma_slots_members<H: Hasher>(h: &H, ids: Seq<u64>, n: nat, vnodes: nat)
    requires
        n <= ids.len() <= usize::MAX,
    ensures
        forall|k: int|
            0 <= k < slots_upto(h, ids, n, vnodes).len() ==> (#[trigger] slots_upto(
                h,
                ids,
                n,
                vnodes,
            )[k]).member < n,
    decreases n,
{
    if n > 0 {
        let before = slots_upto(h, ids, (n - 1) as nat, vnodes);
        let here = member_slots(h, ids, n - 1, vnodes);
        let all = slots_upto(h, ids, n, vnodes);
        lemma_slots_members(h, ids, (n - 1) as nat, vnodes);
        assert forall|k: int| 0 <= k < all.len() implies (#[trigger] all[k]).member < n by {
            if k < before.len() {
                assert(all[k] == before[k]);
            } else {
                assert(all[k] == here[k - before.len()]);
            }
        }
    }
}

/// What holds of the slots of a ring, as far as the walk needs it.
pub proof fn lemma_ring<H: Hasher>(h: &H, ids: Seq<u64>, vnodes: nat)
    requires
        ids.len() <= usize::MAX,
    ensures
        sorted_by(ring_of(h, ids, vnodes), slot_order()),
        ring_of(h, ids, vnodes).to_multiset() == slots_upto(
            h,
            ids,
            ids.len(),
            vnodes,
        ).to_multiset(),
        vnodes > 0 && ids.len() > 0 ==> ring_of(h, ids, vnodes).len() > 0,
        forall|k: int|
            0 <= k < ring_of(h, ids, vnodes).len() ==> (#[trigger] ring_of(
                h,
                ids,
                vnodes,
            )[k]).member < ids.len(),
{
    let slots = slots_upto(h, ids, ids.len(), vnodes);
    let ring = ring_of(h, ids, vnodes);
    lemma_slot_order();
    slots.lemma_sort_by_ensures(slot_order());
    lemma_slots_len(h, ids, ids.len(), vnodes);
    lemma_slots_members(h, ids, ids.len(), vnodes);
    slots.to_multiset_ensures();
    ring.to_multiset_ensures();
    assert forall|k: int| 0 <= k < ring.len() implies (#[trigger] ring[k]).member < ids.len() by {
        assert(ring.contains(ring[k]));
        assert(slots.contains(ring[k]));
        let j = choose|j: int| 0 <= j < slots.len() && slots[j] == ring[k];
        assert(slots[j].member < ids.len());
    }
}

fn slot_before(a: &Slot, b: &Slot) -> (r: bool)
    ensures
        r == !slot_leq(*b, *a),
{
    a.pos < b.pos || (a.pos == b.pos && (a.id < b.id || (a.id == b.id && a.member < b.member)))
}

/// Puts `slot` where it belongs among sorted slots.
fn insert_slot(ring: &mut Vec<Slot>, slot: Slot)
    requires
        sorted_by(old(ring)@, slot_order()),
    ensures
        sorted_by(final(ring)@, slot_order()),
        final(ring)@.to_multiset() == old(ring)@.to_multiset().insert(slot),
{
    let ghost olds = ring@;
    let mut lo: usize = 0;
    let mut hi: usize = ring.len();
    while lo < hi
        invariant
            lo <= hi <= ring@.len(),
            ring@ == olds,
            sorted_by(olds, slot_order()),
            forall|j: int| 0 <= j < lo ==> slot_leq(#[trigger] olds[j], slot),
            forall|j: int| hi <= j < olds.len() ==> !slot_leq(#[trigger] olds[j], slot),
        decreases hi - lo,
    {
        let mid: usize = lo + (hi - lo) / 2;
        if slot_before(&slot, &ring[mid]) {
            assert forall|j: int| mid <= j < olds.len() implies !slot_leq(
                #[trigger] olds[j],
                slot,
            ) by {
                if j > mid {
                    assert(slot_order()(olds[mid as int], olds[j]));
                }
            }
            hi = mid;
        } else {
            assert forall|j: int| 0 <= j <= mid implies slot_leq(#[trigger] olds[j], slot) by {
                if j < mid {
                    assert(slot_order()(olds[j], olds[mid as int]));
                }
            }
            lo = mid + 1;
        }
    }
    ring.insert(lo, slot);
    proof {
        vstd::seq_lib::to_multiset_insert(olds, lo as int, slot);
        assert(ring@ =~= olds.insert(lo as int, slot));
        assert forall|i: int, j: int| 0 <= i < j < ring@.len() implies #[trigger] slot_order()(
            ring@[i],
            ring@[j],
        ) by {
            let oi: int = if i < lo {
                i
            } else {
                i - 1
            };
            let oj: int = if j < lo {
                j
            } else {
                j - 1
            };
            if i != lo {
                assert(ring@[i] == olds[oi]);
            }
            if j != lo {
                assert(ring@[j] == olds[oj]);
            }
            if i != lo && j != lo {
                assert(slot_order()(olds[oi], olds[oj]));
            }
        }
    }
}

/// Places the members on the ring.
pub fn build_ring<H: Hasher>(hasher: &H, members: &Vec<Member>, virtual_nodes_per_member: u32) -> (r:
    Vec<Slot>)
    ensures
        r@ == ring_of(hasher, ids_of(members@), virtual_nodes_per_member as nat),
{
    let ghost ids = ids_of(members@);
    let ghost vnodes = virtual_nodes_per_member as nat;
    let mut ring: Vec<Slot> = Vec::new();
    let mut i: usize = 0;
    while i < members.len()
        invariant
            i <= members@.len(),
            ids == ids_of(members@),
            vnodes == virtual_nodes_per_member,
            sorted_by(ring@, slot_order()),
            ring@.to_multiset() == slots_upto(hasher, ids, i as nat, vnodes).to_multiset(),
        decreases members@.len() - i,
    {
        let id: u64 = members[i].id.as_u64();
        let ghost done = slots_upto(hasher, ids, i as nat, vnodes);
        let ghost here = member_slots(hasher, ids, i as int, vnodes);
        let mut v: u32 = 0;
        assert(done + here.take(0) =~= done);
        while v < virtual_nodes_per_member
            invariant
                i < members@.len(),
                ids == ids_of(members@),
                vnodes == virtual_nodes_per_member,
                v <= virtual_nodes_per_member,
                id == ids[i as int],
                here == member_slots(hasher, ids, i as int, vnodes),
                sorted_by(ring@, slot_order()),
                ring@.to_multiset() == (done + here.take(v as int)).to_multiset(),
            decreases virtual_nodes_per_member - v,
        {
            let mut key: Vec<u8> = hex_bytes(id, 16);
            key.push(35);
            let digits: Vec<u8> = decimal_bytes(v as u64);
            push_bytes(&mut key, digits.as_slice());
            assert(key@ =~= vnode_key(id, v as nat));
            let pos: u64 = hasher.hash64(key.as_slice());
            let slot: Slot = Slot { pos, id, member: i };
            assert(slot == here[v as int]);
            insert_slot(&mut ring, slot);
            proof {
                let sofar = done + here.take(v as int);
                assert(done + here.take(v + 1) =~= sofar.push(slot));
                vstd::seq_lib::to_multiset_build(sofar, slot);
            }
            v = v + 1;
        }
        assert(here.take(v as int) =~= here);
        i = i + 1;
    }
    proof {
        lemma_slot_order();
        let slots = slots_upto(hasher, ids, ids.len(), vnodes);
        slots.lemma_sort_by_ensures(slot_order());
        vstd::seq_lib::lemma_sorted_unique(ring@, ring_of(hasher, ids, vnodes), slot_order());
    }
    ring
}

/// Position of a partition on the ring.
pub fn partition_position<H: Hasher>(hasher: &H, partition_id: u32) -> (r: u64)
    ensures
        r == hasher.hash_of(partition_key(partition_id)),
{
    let mut key: Vec<u8> = Vec::new();
    key.push(112);
    key.push(58);
    key.push(95);
    key.push(95);
    key.push(95);
    key.push(95);
    key.push(95);
    key.push(95);
    key.push((partition_id / 16777216) as u8);
    key.push((partition_id / 65536 % 256) as u8);
    key.push((partition_id / 256 % 256) as u8);
    key.push((partition_id % 256) as u8);
    assert(key@ =~= partition_key(partition_id));
    hasher.hash64(key.as_slice())
}

proof fn lemma_slot_from(ring: Seq<Slot>, hash: u64, i: int, at: int)
    requires
        0 <= i <= at <= ring.len(),
        forall|j: int| i <= j < at ==> (#[trigger] ring[j]).pos < hash,
        at < ring.len() ==> ring[at].pos >= hash,
    ensures
        slot_from(ring, hash, i) == at,
    decreases at - i,
{
    if i < at {
        lemma_slot_from(ring, hash, i + 1, at);
    }
}

/// First slot at or behind `hash`, or the length of the ring.
fn find_start(ring: &Vec<Slot>, hash: u64) -> (r: usize)
    requires
        sorted_by(ring@, slot_order()),
    ensures
        r == slot_from(ring@, hash, 0),
        r <= ring@.len(),
{
    let mut lo: usize = 0;
    let mut hi: usize = ring.len();
    while lo < hi
        invariant
            lo <= hi <= ring@.len(),
            sorted_by(ring@, slot_order()),
            forall|j: int| 0 <= j < lo ==> (#[trigger] ring@[j]).pos < hash,
            forall|j: int| hi <= j < ring@.len() ==> (#[trigger] ring@[j]).pos >= hash,
        decreases hi - lo,
    {
        let mid: usize = lo + (hi - lo) / 2;
        if ring[mid].pos < hash {
            assert forall|j: int| 0 <= j <= mid implies (#[trigger] ring@[j]).pos < hash by {
                if j < mid {
                    assert(slot_order()(ring@[j], ring@[mid as int]));
                }
            }
            lo = mid + 1;
        } else {
            assert forall|j: int| mid <= j < ring@.len() implies (#[trigger] ring@[j]).pos
                >= hash by {
                if j > mid {
                    assert(slot_order()(ring@[mid as int], ring@[j]));
                }
            }
            hi = mid;
        }
    }
    proof {
        lemma_slot_from(ring@, hash, 0, lo as int);
    }
    lo
}

// ---------------------------------------------------------------------------
// The walk
// ---------------------------------------------------------------------------

/// The slot `step` places behind `start`.
fn step_around(start: usize, step: usize, len: usize) -> (r: usize)
    requires
        start <= len,
        step < len,
    ensures
        r == around(start as int, step as int, len as int),
        r < len,
{
    if step < len - start {
        assert((start + step) % (len as int) == start + step) by (nonlinear_arith)
            requires
                0 <= start + step < len,
        ;
        start + step
    } else {
        let r: usize = step - (len - start);
        assert((start + step) % (len as int) == r) by (nonlinear_arith)
            requires
                start + step == r + len,
                0 <= r < len,
        ;
        r
    }
}

/// Loads of the members: how many of the partitions `earlier` each of them is
/// the primary of.
pub open spec fn is_load(load: Seq<u32>, earlier: Seq<int>) -> bool {
    forall|m: int| 0 <= m < load.len() ==> #[trigger] load[m] == occurrences(earlier, m)
}

/// Walks the ring from `start` to the first member that is the primary of fewer
/// than `cap` partitions. Where there is none, the slot at which the walk
/// started is taken. `None` comes back for an empty ring.
fn find_primary(
    ring: &Vec<Slot>,
    start: usize,
    load: &Vec<u32>,
    cap: u32,
    Ghost(earlier): Ghost<Seq<int>>,
) -> (r: Option<(usize, usize)>)
    requires
        start <= ring@.len(),
        forall|k: int| 0 <= k < ring@.len() ==> (#[trigger] ring@[k]).member < load@.len(),
        is_load(load@, earlier),
    ensures
        r == (if ring@.len() == 0 {
            None
        } else {
            let i = chosen_slot(owners(ring@), earlier, cap as nat, start as int);
            Some((ring@[i].member, i as usize))
        }),
        r matches Some(p) ==> p.1 < ring@.len() && p.1 == chosen_slot(
            owners(ring@),
            earlier,
            cap as nat,
            start as int,
        ),
{
    let len: usize = ring.len();
    if len == 0 {
        return None;
    }
    let mut step: usize = 0;
    while step < len
        invariant
            start <= len,
            step <= len,
            len == ring@.len(),
            len > 0,
            forall|k: int| 0 <= k < ring@.len() ==> (#[trigger] ring@[k]).member < load@.len(),
            is_load(load@, earlier),
            free_slot(owners(ring@), earlier, cap as nat, start as int, 0) == free_slot(
                owners(ring@),
                earlier,
                cap as nat,
                start as int,
                step as int,
            ),
        decreases len - step,
    {
        let at: usize = step_around(start, step, len);
        let member: usize = ring[at].member;
        assert(owners(ring@)[at as int] == member);
        if load[member] < cap {
            return Some((member, at));
        }
        step = step + 1;
    }
    let at: usize = step_around(start, 0, len);
    Some((ring[at].member, at))
}

/// The members on the slots behind `at`, nearest first: at most `want`, each
/// once, and not the one at `at`.
fn collect_backups(ring: &Vec<Slot>, at: usize, members: &Vec<Member>, want: usize) -> (r: Vec<
    MemberId,
>)
    requires
        at < ring@.len(),
        forall|k: int| 0 <= k < ring@.len() ==> (#[trigger] ring@[k]).member < members@.len(),
    ensures
        r@ == ids_at(
            ids_of(members@),
            followers(owners(ring@), at as int, want as nat, ring@.len() as int),
        ),
{
    let ghost ids = ids_of(members@);
    let ghost line = owners(ring@);
    let len: usize = ring.len();
    let primary: usize = ring[at].member;
    let mut seen: Vec<usize> = Vec::new();
    let mut out: Vec<MemberId> = Vec::new();
    let mut step: usize = 1;
    assert(out@ =~= ids_at(ids, followers(line, at as int, want as nat, 1)));
    while step < len
        invariant
            at < len,
            1 <= step <= len,
            len == ring@.len(),
            ids == ids_of(members@),
            line == owners(ring@),
            primary == line[at as int],
            forall|k: int| 0 <= k < ring@.len() ==> (#[trigger] ring@[k]).member < members@.len(),
            seen@.len() == followers(line, at as int, want as nat, step as int).len(),
            forall|k: int|
                0 <= k < seen@.len() ==> #[trigger] seen@[k] == followers(
                    line,
                    at as int,
                    want as nat,
                    step as int,
                )[k],
            out@ == ids_at(ids, followers(line, at as int, want as nat, step as int)),
        decreases len - step,
    {
        let ghost nearer = followers(line, at as int, want as nat, step as int);
        let i: usize = step_around(at, step, len);
        let m: usize = ring[i].member;
        assert(line[i as int] == m);
        let mut known: bool = m == primary;
        let mut k: usize = 0;
        while k < seen.len()
            invariant
                k <= seen@.len(),
                seen@.len() == nearer.len(),
                forall|j: int| 0 <= j < seen@.len() ==> #[trigger] seen@[j] == nearer[j],
                known == (m == primary || exists|j: int| 0 <= j < k && nearer[j] == m),
            decreases seen@.len() - k,
        {
            if seen[k] == m {
                known = true;
            }
            k = k + 1;
        }
        assert(nearer.contains(m as int) <==> exists|j: int| 0 <= j < k && nearer[j] == m);
        if seen.len() < want && !known {
            seen.push(m);
            out.push(members[m].id);
            assert(out@ =~= ids_at(ids, nearer.push(m as int)));
        }
        step = step + 1;
    }
    out
}

/// How often an element occurs in a sequence is at most its length.
pub proof fn lemma_occurrences_len<T>(s: Seq<T>, x: T)
    ensures
        occurrences(s, x) <= s.len(),
    decreases s.len(),
{
    if s.len() > 0 {
        lemma_occurrences_len(s.drop_last(), x);
    }
}

pub proof fn lemma_primaries_len<T>(ring: Seq<T>, starts: Seq<int>, cap: nat, n: nat)
    ensures
        primaries(ring, starts, cap, n).len() == n,
    decreases n,
{
    if n > 0 {
        lemma_primaries_len(ring, starts, cap, (n - 1) as nat);
    }
}

/// Assigns the partitions to the members. `replica_count` counts the primary
/// too, so that two means one primary and one backup; `capacity` is the number
/// of partitions that a member can be the primary of.
///
/// The result depends on nothing but the arguments: every node that knows the
/// same members computes the same assignment. `None` comes back where there is
/// no member or no partition.
pub fn assign<H: Hasher>(
    hasher: &H,
    members: &Vec<Member>,
    partition_count: u32,
    virtual_nodes_per_member: u32,
    capacity: u32,
    replica_count: u32,
) -> (r: Option<Assignment>)
    requires
        members@.len() > 0 && partition_count > 0 ==> virtual_nodes_per_member > 0,
    ensures
        r is None <==> members@.len() == 0 || partition_count == 0,
        r matches Some(a) ==> {
            let want: nat = if replica_count == 0 {
                0
            } else {
                (replica_count - 1) as nat
            };
            &&& a.primary@ == primary_ids(
                hasher,
                ids_of(members@),
                virtual_nodes_per_member as nat,
                capacity as nat,
                partition_count as nat,
            )
            &&& id_lists(a.backups@) == backup_ids(
                hasher,
                ids_of(members@),
                virtual_nodes_per_member as nat,
                capacity as nat,
                partition_count as nat,
                want,
            )
        },
{
    if members.len() == 0 || partition_count == 0 {
        return None;
    }
    let want: u32 = if replica_count == 0 {
        0
    } else {
        replica_count - 1
    };
    let ring: Vec<Slot> = build_ring(hasher, members, virtual_nodes_per_member);
    let ghost ids = ids_of(members@);
    let ghost line = owners(ring@);
    let ghost starts = starts_of(hasher, ring@, partition_count as nat);
    let ghost cap = capacity as nat;
    proof {
        lemma_ring(hasher, ids, virtual_nodes_per_member as nat);
    }
    let mut load: Vec<u32> = Vec::new();
    let mut i: usize = 0;
    while i < members.len()
        invariant
            i <= members@.len(),
            load@.len() == i,
            forall|m: int| 0 <= m < i ==> #[trigger] load@[m] == 0,
        decreases members@.len() - i,
    {
        load.push(0);
        i = i + 1;
    }
    let mut primary: Vec<MemberId> = Vec::new();
    let mut backups: Vec<Vec<MemberId>> = Vec::new();
    let mut p: u32 = 0;
    assert(primary@ =~= ids_at(ids, primaries(line, starts, cap, 0)));
    while p < partition_count
        invariant
            p <= partition_count,
            ids == ids_of(members@),
            line == owners(ring@),
            starts == starts_of(hasher, ring@, partition_count as nat),
            cap == capacity,
            ring@.len() > 0,
            sorted_by(ring@, slot_order()),
            forall|k: int| 0 <= k < ring@.len() ==> (#[trigger] ring@[k]).member < members@.len(),
            load@.len() == members@.len(),
            is_load(load@, primaries(line, starts, cap, p as nat)),
            primary@ == ids_at(ids, primaries(line, starts, cap, p as nat)),
            backups@.len() == p,
            forall|q: int|
                0 <= q < p ==> (#[trigger] backups@[q])@ == ids_at(
                    ids,
                    followers(
                        line,
                        primary_slot(line, starts, cap, q),
                        want as nat,
                        ring@.len() as int,
                    ),
                ),
        decreases partition_count - p,
    {
        let ghost earlier = primaries(line, starts, cap, p as nat);
        let hash: u64 = partition_position(hasher, p);
        let start: usize = find_start(&ring, hash);
        assert(starts[p as int] == start);
        match find_primary(&ring, start, &load, capacity, Ghost(earlier)) {
            Some((member, at)) => {
                proof {
                    lemma_primaries_len(line, starts, cap, p as nat);
                    lemma_occurrences_len(earlier, member as int);
                    assert(line[at as int] == member);
                    assert(earlier.push(member as int).drop_last() =~= earlier);
                }
                load[member] = load[member] + 1;
                primary.push(members[member].id);
                let nearest: Vec<MemberId> = collect_backups(&ring, at, members, want as usize);
                backups.push(nearest);
                proof {
                    assert(primaries(line, starts, cap, (p + 1) as nat) == earlier.push(
                        member as int,
                    ));
                    assert(primary@ =~= ids_at(ids, earlier.push(member as int)));
                }
            },
            None => {},
        }
        p = p + 1;
    }
    proof {
        let n = partition_count as nat;
        assert(id_lists(backups@) =~= backup_ids(
            hasher,
            ids,
            virtual_nodes_per_member as nat,
            cap,
            n,
            want as nat,
        ));
    }
    Some(Assignment { primary, backups })
}

} // verus!
