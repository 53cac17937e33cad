//! What the coordinator does on each tick: build a table when the topology has
//! changed, and push the current one to every peer.
//!
//! Every node runs the ticks; one that is not the coordinator does nothing. So
//! the next oldest member takes over as soon as the old coordinator is known to
//! be dead. Pushing on every tick lets a peer that missed a push catch up.

use std::collections::hash_map::DefaultHasher;
use std::hash::Hasher as _;

use vstd::prelude::*;
use vstd::std_specs::hash::DefaultHasherAdditionalSpecFns;

use crate::binary::{little_endian, little_endian_bytes};
use crate::cluster::routing::store::{after, RoutingTableStore};
use crate::cluster::routing::table::{table_for, RoutingTable, TableView};
use crate::hasher::Hasher;
use crate::ids::MemberId;
use crate::member::{members_view, Member, MemberView};
use crate::net::SocketAddr;

verus! {

/// Parameters of the coordinator.
#[derive(Debug, Clone, Copy)]
pub struct CoordinatorParams {
    /// Id of the local member.
    pub local_id: MemberId,
    /// Partitions of the cluster.
    pub partition_count: u32,
    /// Virtual nodes of a member on the ring.
    pub virtual_nodes_per_member: u32,
    /// Replicas of a partition, the primary among them.
    pub replica_count: u32,
}

/// Counter of the signatures that this node has given out.
#[derive(Debug)]
pub struct SignatureClock(u64);

impl View for SignatureClock {
    type V = u64;

    closed spec fn view(&self) -> u64 {
        self.0
    }
}

impl Default for SignatureClock {
    fn default() -> (r: Self)
        ensures
            r@ == 0,
    {
        SignatureClock(0)
    }
}

impl SignatureClock {
    /// A clock that has given out nothing.
    pub fn new() -> (r: Self)
        ensures
            r@ == 0,
    {
        SignatureClock(0)
    }

    /// The signature that was given out last.
    pub fn current(&self) -> (r: u64)
        ensures
            r == self@,
    {
        self.0
    }

    /// Gives out the next signature.
    pub fn next(&mut self) -> (r: u64)
        requires
            old(self)@ < u64::MAX,
        ensures
            final(self)@ == old(self)@ + 1,
            r == final(self)@,
    {
        self.0 = self.0 + 1;
        self.0
    }

    /// Moves the clock forward to `seen`, so that the next signature is above
    /// it.
    pub fn advance_to(&mut self, seen: u64)
        ensures
            final(self)@ == (if old(self)@ < seen {
                seen
            } else {
                old(self)@
            }),
    {
        if self.0 < seen {
            self.0 = seen;
        }
    }
}

// ---------------------------------------------------------------------------
// Topology
// ---------------------------------------------------------------------------

/// What the topology hash reads of a member.
pub ghost struct Identity {
    pub id: MemberId,
    pub birthdate: u64,
}

/// The ids of the members, each with its birthdate.
pub open spec fn identities(members: Seq<MemberView>) -> Seq<Identity> {
    Seq::new(
        members.len(),
        |i: int| Identity { id: members[i].id, birthdate: members[i].birthdate },
    )
}

/// Hash of one member: its id and its birthdate.
pub open spec fn member_hash(m: Identity) -> u64 {
    DefaultHasher::spec_finish(
        seq![little_endian(m.id.0, 8), little_endian(m.birthdate, 8)],
    )
}

/// One step of the topology hash.
pub open spec fn mix() -> spec_fn(u64, Identity) -> u64 {
    |acc: u64, m: Identity| acc ^ member_hash(m)
}

/// Hash of a set of members: the hashes of the members, joined by exclusive or.
pub open spec fn topology_of(members: Seq<MemberView>) -> u64 {
    identities(members).fold_left(0u64, mix())
}

/// Hash of the topology, by which a change is noticed.
pub fn topology_hash(members: &Vec<Member>) -> (r: u64)
    ensures
        r == topology_of(members_view(members@)),
{
    let ghost all = members_view(members@);
    let mut acc: u64 = 0;
    let mut i: usize = 0;
    proof {
        reveal(Seq::fold_left);
    }
    while i < members.len()
        invariant
            i <= members@.len(),
            all == members_view(members@),
            acc == topology_of(all.take(i as int)),
        decreases members@.len() - i,
    {
        let m: &Member = &members[i];
        let mut h: DefaultHasher = DefaultHasher::new();
        let id: Vec<u8> = little_endian_bytes(m.id.as_u64(), 8);
        let birthdate: Vec<u8> = little_endian_bytes(m.birthdate, 8);
        h.write(id.as_slice());
        h.write(birthdate.as_slice());
        assert(h@ =~= seq![little_endian(all[i as int].id.0, 8), little_endian(
            all[i as int].birthdate,
            8,
        )]);
        acc = acc ^ h.finish();
        proof {
            reveal(Seq::fold_left);
            assert(identities(all.take(i + 1)).drop_last() =~= identities(all.take(i as int)));
            assert(identities(all.take(i + 1)).last().id == all[i as int].id);
        }
        i = i + 1;
    }
    assert(all.take(i as int) =~= all);
    acc
}

/// The topology hash depends on the ids and the birthdates of the members alone,
/// and not on their order.
pub proof fn law_topology_ignores_order(a: Seq<MemberView>, b: Seq<MemberView>)
    requires
        identities(a).to_multiset() == identities(b).to_multiset(),
    ensures
        topology_of(a) == topology_of(b),
{
    assert forall|x: Identity, y: Identity, v: u64| #[trigger] mix()(mix()(v, x), y) == mix()(
        mix()(v, y),
        x,
    ) by {
        let p = member_hash(x);
        let q = member_hash(y);
        assert(v ^ p ^ q == v ^ q ^ p) by (bit_vector);
    }
    vstd::seq_lib::lemma_fold_left_permutation(identities(a), identities(b), mix(), 0u64);
}

// ---------------------------------------------------------------------------
// The tick
// ---------------------------------------------------------------------------

/// What a tick asks for.
#[derive(Debug)]
pub enum CoordinatorAction {
    /// Nothing.
    Idle,
    /// Push the current table to these addresses.
    Push(Vec<SocketAddr>),
}

/// What the coordinator remembers between two ticks.
#[derive(Debug)]
pub struct Coordinator {
    last_topology: Option<u64>,
    current: Option<RoutingTable>,
}

/// Mathematical value of a [`Coordinator`].
pub ghost struct CoordinatorView {
    /// Topology of the last build.
    pub last_topology: Option<u64>,
    /// Table of the last build.
    pub current: Option<TableView>,
}

impl View for Coordinator {
    type V = CoordinatorView;

    closed spec fn view(&self) -> CoordinatorView {
        CoordinatorView {
            last_topology: self.last_topology,
            current: match self.current {
                Some(t) => Some(t@),
                None => None,
            },
        }
    }
}

/// `local` is the coordinator: the first of the sorted members.
pub open spec fn leads(snapshot: Seq<MemberView>, local: MemberId) -> bool {
    snapshot.len() > 0 && snapshot[0].id == local
}

/// Addresses of the members but `local`, in order.
pub open spec fn peer_addrs(snapshot: Seq<MemberView>, local: MemberId) -> Seq<SocketAddr>
    decreases snapshot.len(),
{
    if snapshot.len() == 0 {
        Seq::empty()
    } else {
        let front = peer_addrs(snapshot.drop_last(), local);
        if snapshot.last().id != local {
            front.push(snapshot.last().addr)
        } else {
            front
        }
    }
}

/// Addresses of all members but `local`.
pub fn live_peer_addrs(snapshot: &Vec<Member>, local: MemberId) -> (r: Vec<SocketAddr>)
    ensures
        r@ == peer_addrs(members_view(snapshot@), local),
{
    let ghost all = members_view(snapshot@);
    let mut out: Vec<SocketAddr> = Vec::new();
    let mut i: usize = 0;
    while i < snapshot.len()
        invariant
            i <= snapshot@.len(),
            all == members_view(snapshot@),
            out@ == peer_addrs(all.take(i as int), local),
        decreases snapshot@.len() - i,
    {
        assert(all.take(i + 1).drop_last() =~= all.take(i as int));
        assert(all.take(i + 1).last() == all[i as int]);
        if snapshot[i].id != local {
            out.push(snapshot[i].addr);
        }
        i = i + 1;
    }
    assert(all.take(i as int) =~= all);
    out
}

/// A copy of a list of members.
pub(crate) fn copy_members(v: &Vec<Member>) -> (r: Vec<Member>)
    ensures
        members_view(r@) == members_view(v@),
{
    let mut out: Vec<Member> = Vec::new();
    let mut i: usize = 0;
    while i < v.len()
        invariant
            i <= v@.len(),
            out@.len() == i,
            forall|j: int| 0 <= j < i ==> (#[trigger] out@[j])@ == v@[j]@,
        decreases v@.len() - i,
    {
        out.push(v[i].clone());
        i = i + 1;
    }
    assert(members_view(out@) =~= members_view(v@));
    out
}

impl Default for Coordinator {
    fn default() -> (r: Self)
        ensures
            r@ == (CoordinatorView { last_topology: None, current: None }),
            r.wf(),
    {
        Coordinator { last_topology: None, current: None }
    }
}

impl Coordinator {
    /// A topology is remembered exactly when a table is.
    pub open spec fn wf(&self) -> bool {
        self@.last_topology is Some <==> self@.current is Some
    }

    /// A coordinator that has built nothing.
    pub fn new() -> (r: Self)
        ensures
            r@ == (CoordinatorView { last_topology: None, current: None }),
            r.wf(),
    {
        Coordinator { last_topology: None, current: None }
    }

    /// The table of the last build.
    pub fn current_table(&self) -> (r: Option<&RoutingTable>)
        ensures
            self@.current == (match r {
                Some(t) => Some(t@),
                None => None,
            }),
    {
        self.current.as_ref()
    }

    /// One tick over the current members, sorted by birthdate and id.
    ///
    /// Where the local node is not the first of them, nothing happens. Where the
    /// topology is not that of the last build, a table with a new signature is
    /// built and offered to the local store. Then the table of the last build is
    /// to be pushed to all peers.
    pub fn tick<H: Hasher>(
        &mut self,
        params: &CoordinatorParams,
        hasher: &H,
        snapshot: &Vec<Member>,
        capacity: u32,
        clock: &mut SignatureClock,
        store: &mut RoutingTableStore,
    ) -> (r: CoordinatorAction)
        requires
            old(self).wf(),
            params.partition_count > 0 ==> params.virtual_nodes_per_member > 0,
            old(clock)@ < u64::MAX,
        ensures
            final(self).wf(),
            ({
                let all = members_view(snapshot@);
                let topology = topology_of(all);
                let targets = peer_addrs(all, params.local_id);
                if !leads(all, params.local_id) {
                    &&& r is Idle
                    &&& final(self)@ == old(self)@
                    &&& final(clock)@ == old(clock)@
                    &&& final(store)@ == old(store)@
                } else if old(self)@.last_topology == Some(topology) {
                    &&& r matches CoordinatorAction::Push(t) && t@ == targets
                    &&& final(self)@ == old(self)@
                    &&& final(clock)@ == old(clock)@
                    &&& final(store)@ == old(store)@
                } else if params.partition_count == 0 {
                    &&& r is Idle
                    &&& final(self)@ == old(self)@
                    &&& final(clock)@ == old(clock)@ + 1
                    &&& final(store)@ == old(store)@
                } else {
                    let table = table_for(
                        hasher,
                        all,
                        params.partition_count,
                        params.virtual_nodes_per_member,
                        capacity,
                        params.replica_count,
                        final(clock)@,
                    );
                    &&& r matches CoordinatorAction::Push(t) && t@ == targets
                    &&& final(self)@ == (CoordinatorView {
                        last_topology: Some(topology),
                        current: Some(table),
                    })
                    &&& final(clock)@ == old(clock)@ + 1
                    &&& final(store)@ == after(old(store)@, table)
                }
            }),
    {
        let ghost all = members_view(snapshot@);
        if snapshot.len() == 0 {
            return CoordinatorAction::Idle;
        }
        assert(all[0] == snapshot@[0]@);
        if snapshot[0].id != params.local_id {
            return CoordinatorAction::Idle;
        }
        let topology: u64 = topology_hash(snapshot);
        let unchanged: bool = match self.last_topology {
            Some(t) => t == topology,
            None => false,
        };
        if !unchanged {
            let signature: u64 = clock.next();
            let members: Vec<Member> = copy_members(snapshot);
            match RoutingTable::build(
                members,
                hasher,
                params.partition_count,
                params.virtual_nodes_per_member,
                capacity,
                params.replica_count,
                signature,
            ) {
                None => {
                    return CoordinatorAction::Idle;
                },
                Some(table) => {
                    store.apply(table.clone());
                    self.last_topology = Some(topology);
                    self.current = Some(table);
                },
            }
        }
        CoordinatorAction::Push(live_peer_addrs(snapshot, params.local_id))
    }
}

// ---------------------------------------------------------------------------
// What a tick does
// ---------------------------------------------------------------------------

/// A table goes to every member but the local one, once each and in their order:
/// the addresses stand for the places returned.
pub proof fn law_table_goes_to_all_peers(snapshot: Seq<MemberView>, local: MemberId) -> (from: Seq<
    int,
>)
    ensures
        from.len() == peer_addrs(snapshot, local).len(),
        forall|k: int|
            0 <= k < from.len() ==> {
                &&& 0 <= #[trigger] from[k] < snapshot.len()
                &&& snapshot[from[k]].id != local
                &&& peer_addrs(snapshot, local)[k] == snapshot[from[k]].addr
            },
        forall|a: int, b: int| 0 <= a < b < from.len() ==> #[trigger] from[a] < #[trigger] from[b],
        forall|i: int|
            0 <= i < snapshot.len() && (#[trigger] snapshot[i]).id != local ==> from.contains(i),
    decreases snapshot.len(),
{
    if snapshot.len() == 0 {
        Seq::empty()
    } else {
        let rest = snapshot.drop_last();
        let front = law_table_goes_to_all_peers(rest, local);
        let from = if snapshot.last().id != local {
            front.push(snapshot.len() - 1)
        } else {
            front
        };
        assert forall|k: int| 0 <= k < from.len() implies {
            &&& 0 <= #[trigger] from[k] < snapshot.len()
            &&& snapshot[from[k]].id != local
            &&& peer_addrs(snapshot, local)[k] == snapshot[from[k]].addr
        } by {
            if k < front.len() {
                assert(0 <= front[k] < rest.len());
                assert(rest[front[k]] == snapshot[from[k]]);
            }
        }
        assert forall|i: int|
            0 <= i < snapshot.len() && (#[trigger] snapshot[i]).id
                != local implies from.contains(i) by {
            if i < rest.len() {
                assert(rest[i] == snapshot[i]);
                assert(front.contains(i));
                let a = choose|a: int| 0 <= a < front.len() && front[a] == i;
                assert(from[a] == i);
            } else {
                assert(from[front.len() as int] == i);
            }
        }
        from
    }
}

/// Every member adds to the topology hash the hash of its id and its birthdate,
/// by exclusive or; no members make zero.
pub proof fn law_topology_tells_members_apart(members: Seq<MemberView>, m: MemberView)
    ensures
        topology_of(Seq::empty()) == 0,
        topology_of(members.push(m)) == topology_of(members) ^ DefaultHasher::spec_finish(
            seq![little_endian(m.id.0, 8), little_endian(m.birthdate, 8)],
        ),
{
    reveal(Seq::fold_left);
    let all = identities(members.push(m));
    assert(all.drop_last() =~= identities(members));
    assert(identities(Seq::empty()).len() == 0);
    assert(all.last() == (Identity { id: m.id, birthdate: m.birthdate }));
    all.lemma_fold_left_split(0u64, mix(), members.len() as int);
    assert(all.subrange(0, members.len() as int) =~= identities(members));
    let tail = all.subrange(members.len() as int, all.len() as int);
    assert(tail =~= seq![all.last()]);
    assert(tail.drop_last() =~= Seq::<Identity>::empty());
    assert(tail.fold_left(topology_of(members), mix()) == mix()(
        tail.drop_last().fold_left(topology_of(members), mix()),
        tail.last(),
    ));
}

} // verus!
