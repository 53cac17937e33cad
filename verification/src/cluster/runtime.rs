//! A node of the cluster: its view of the members, its routing table, and what
//! follows from them.

use vstd::prelude::*;
use vstd::string::*;
use vstd::std_specs::convert::FromSpecImpl;

use crate::cluster::gossip::{pushed, send_budget, GossipQueue, QueueView};
use crate::cluster::membership::{
    is_snapshot, live_ids, EntryView, MemberState, Membership, MembershipView,
};
use crate::cluster::message::{
    alive_for, Envelope, EnvelopeView, EventView, GossipEvent, Incarnation, SwimMessage,
};
use crate::cluster::pubsub::{PubSubService, Registry};
use crate::cluster::routing::coordinator::{
    leads, peer_addrs, topology_of, Coordinator, CoordinatorAction, CoordinatorParams,
    CoordinatorView, SignatureClock,
};
use crate::cluster::routing::store::{
    after, signature_of, takes, ApplyRoutingOutcome, RoutingTableStore,
};
use crate::cluster::routing::table::{
    backups_in, owners_in, partition_for, table_for, RoutingTable, TableView,
};
use crate::cluster::routing::table_laws::{
    have_distinct_ids, law_table_follows_the_ring, law_table_knows_every_partition,
};
use crate::cluster::swim::{queued, Outgoing, SwimDriver, SwimState};
use crate::config::node::Config;
use crate::config::sections::{CoreConfig, ReplicationMode};
use crate::hasher::Hasher;
use crate::ids::MemberId;
use crate::member::{members_view, Member, MemberView};
use crate::net::SocketAddr;

verus! {

/// How replication is set up.
#[derive(Debug, Clone, Copy, PartialEq, Eq, Structural)]
pub struct ReplicationSettings {
    pub replica_count: u32,
    pub write_quorum: u32,
    pub read_quorum: u32,
    pub read_repair: bool,
    pub mode: ReplicationMode,
}

impl Default for ReplicationSettings {
    /// Replication as it is on a node without a cluster.
    fn default() -> (r: Self)
        ensures
            r == (ReplicationSettings {
                replica_count: 1,
                write_quorum: 1,
                read_quorum: 1,
                read_repair: false,
                mode: ReplicationMode::Sync,
            }),
    {
        ReplicationSettings {
            replica_count: 1,
            write_quorum: 1,
            read_quorum: 1,
            read_repair: false,
            mode: ReplicationMode::Sync,
        }
    }
}

/// A member, as it is listed to clients.
#[derive(Debug, PartialEq, Eq)]
pub struct MemberSummary {
    pub id: MemberId,
    pub name: String,
    pub addr: SocketAddr,
    pub discovery_addr: SocketAddr,
    pub birthdate: u64,
    pub is_coordinator: bool,
}

impl View for MemberSummary {
    type V = MemberView;

    open spec fn view(&self) -> MemberView {
        MemberView {
            id: self.id,
            name: self.name@,
            addr: self.addr,
            discovery_addr: self.discovery_addr,
            birthdate: self.birthdate,
            is_coordinator: self.is_coordinator,
        }
    }
}

impl From<&Member> for MemberSummary {
    fn from(m: &Member) -> (r: Self)
        ensures
            r@ == m@,
    {
        MemberSummary {
            id: m.id,
            name: m.name.clone(),
            addr: m.addr,
            discovery_addr: m.discovery_addr,
            birthdate: m.birthdate,
            is_coordinator: m.is_coordinator,
        }
    }
}

impl FromSpecImpl<&Member> for MemberSummary {
    open spec fn obeys_from_spec() -> bool {
        false
    }

    open spec fn from_spec(m: &Member) -> Self {
        arbitrary()
    }
}

// ---------------------------------------------------------------------------
// Where a key is served
// ---------------------------------------------------------------------------

/// Partition of a key.
pub open spec fn partition_of<H: Hasher>(h: &H, count: u32, dmap: Seq<u8>, key: Seq<u8>) -> u32 {
    (h.hash_of(dmap + key) as int % count as int) as u32
}

/// The local node is the primary of the partition.
pub open spec fn is_primary(t: TableView, local: MemberId, partition: u32) -> bool {
    owners_in(t, partition).len() > 0 && owners_in(t, partition)[0].id == local
}

/// Where a request for the partition has to go, where that is not the local
/// node.
pub open spec fn route(table: Option<TableView>, local: MemberId, partition: u32) -> Option<
    SocketAddr,
> {
    match table {
        Some(t) => if owners_in(t, partition).len() > 0 && !is_primary(t, local, partition) {
            Some(owners_in(t, partition)[0].addr)
        } else {
            None
        },
        None => None,
    }
}

/// Addresses of members.
pub open spec fn addrs(members: Seq<MemberView>) -> Seq<SocketAddr> {
    Seq::new(members.len(), |i: int| members[i].addr)
}

/// Where the local node, as the primary, sends copies of a write.
pub open spec fn copies_to(table: Option<TableView>, local: MemberId, partition: u32) -> Seq<
    SocketAddr,
> {
    match table {
        Some(t) => if is_primary(t, local, partition) {
            addrs(backups_in(t, partition))
        } else {
            Seq::empty()
        },
        None => Seq::empty(),
    }
}

/// Where the local node, as the primary, looks for data that has not moved yet.
pub open spec fn earlier_owners(table: Option<TableView>, local: MemberId, partition: u32) -> Seq<
    SocketAddr,
> {
    match table {
        Some(t) => if is_primary(t, local, partition) {
            addrs(owners_in(t, partition).skip(1))
        } else {
            Seq::empty()
        },
        None => Seq::empty(),
    }
}

/// The local node may hold data of the partition.
pub open spec fn may_hold(table: Option<TableView>, local: MemberId, partition: u32) -> bool {
    match table {
        Some(t) => exists|i: int|
            0 <= i < owners_in(t, partition).len() && (#[trigger] owners_in(t, partition)[i]).id
                == local,
        None => true,
    }
}

fn collect_addrs(members: &[Member], from: usize) -> (r: Vec<SocketAddr>)
    requires
        from <= members@.len(),
    ensures
        r@ == addrs(members_view(members@).skip(from as int)),
{
    let mut out: Vec<SocketAddr> = Vec::new();
    let mut i: usize = from;
    while i < members.len()
        invariant
            from <= i <= members@.len(),
            out@.len() == i - from,
            forall|k: int| 0 <= k < out@.len() ==> #[trigger] out@[k] == members@[k + from].addr,
        decreases members@.len() - i,
    {
        out.push(members[i].addr);
        i = i + 1;
    }
    assert(out@ =~= addrs(members_view(members@).skip(from as int)));
    out
}

// ---------------------------------------------------------------------------
// The node
// ---------------------------------------------------------------------------

/// A node of the cluster.
#[allow(missing_debug_implementations)]
pub struct Cluster<H: Hasher> {
    driver: SwimDriver,
    pubsub: PubSubService,
    hasher: H,
    store: RoutingTableStore,
    clock: SignatureClock,
    coordinator: Coordinator,
    local: Member,
    core: CoreConfig,
    orphans: Vec<(u32, String)>,
    events_enabled: bool,
}

/// Mathematical value of a [`Cluster`].
#[verifier::ext_equal]
pub ghost struct NodeView {
    /// The failure detector.
    pub swim: SwimState,
    /// The subscriptions.
    pub subs: Registry,
    /// The routing table in force.
    pub table: Option<TableView>,
    /// The signature that was given out or seen last.
    pub signature: u64,
    /// The last table that was built here.
    pub built: CoordinatorView,
    /// The local member.
    pub local: MemberView,
    /// Settings.
    pub core: CoreConfig,
    /// Partitions that wait to be moved.
    pub orphans: Seq<(u32, Seq<char>)>,
    /// Whether events are published.
    pub events_enabled: bool,
}

/// Values of a list of orphans.
pub open spec fn orphans_view(s: Seq<(u32, String)>) -> Seq<(u32, Seq<char>)> {
    Seq::new(s.len(), |i: int| (s[i].0, s[i].1@))
}

/// Enough members are alive.
pub open spec fn has_quorum(n: NodeView) -> bool {
    live_ids(n.swim.view).len() >= n.core.member_count_quorum
}

/// The node can serve: it has a routing table that a coordinator signed, and
/// enough members are alive.
pub open spec fn ready(n: NodeView) -> bool {
    n.table is Some && signature_of(n.table) != 0 && has_quorum(n)
}

/// The news by which a node leaves.
pub open spec fn leave_event(n: NodeView) -> EventView {
    EventView::Leave { id: n.local.id, incarnation: n.swim.view.local_incarnation }
}

/// The message by which a node tells a peer that it leaves.
pub open spec fn farewell(n: NodeView, peer: MemberView) -> EnvelopeView {
    EnvelopeView {
        cluster_secret: n.swim.secret,
        from: n.local.id,
        msg: SwimMessage::Ping { seq: 0, target: peer.id },
        gossip: seq![leave_event(n)],
    }
}

/// `out` are the messages by which a node leaves, to all peers of `snapshot`.
pub open spec fn are_farewells(n: NodeView, snapshot: Seq<MemberView>, out: Seq<Outgoing>) -> bool
    decreases snapshot.len(),
{
    if snapshot.len() == 0 {
        out.len() == 0
    } else if snapshot.last().id == n.local.id {
        are_farewells(n, snapshot.drop_last(), out)
    } else {
        &&& out.len() > 0
        &&& out.last().to == snapshot.last().discovery_addr
        &&& out.last().envelope@ == farewell(n, snapshot.last())
        &&& are_farewells(n, snapshot.drop_last(), out.drop_last())
    }
}

impl<H: Hasher> View for Cluster<H> {
    type V = NodeView;

    closed spec fn view(&self) -> NodeView {
        NodeView {
            swim: self.driver@,
            subs: self.pubsub@,
            table: self.store@,
            signature: self.clock@,
            built: self.coordinator@,
            local: self.local@,
            core: self.core,
            orphans: orphans_view(self.orphans@),
            events_enabled: self.events_enabled,
        }
    }
}

/// The view of a node that knows itself alone.
pub open spec fn alone(local: MemberView) -> Membership {
    Membership {
        entries: Map::<u64, EntryView>::empty().insert(
            local.id.0,
            EntryView {
                member: local,
                state: MemberState::Alive,
                incarnation: 1,
                deadline: 0,
            },
        ),
        local: Some(local.id),
        local_incarnation: 1,
    }
}

impl<H: Hasher> Cluster<H> {
    /// The parts are sound.
    pub closed spec fn wf(&self) -> bool {
        &&& self.driver.wf()
        &&& self.coordinator.wf()
        &&& self.pubsub.wf()
    }

    /// The hash that places keys.
    pub closed spec fn hash(&self) -> H {
        self.hasher
    }

    /// A node that knows itself alone, and has its own presence to spread.
    pub fn assemble(config: &Config, local: Member, hasher: H) -> (r: Self)
        ensures
            r.wf(),
            r.hash() == hasher,
            r@.swim.view == alone(local@),
            r@.swim.queue == (QueueView {
                pending: pushed(
                    QueueView { pending: Seq::empty(), capacity: 256 },
                    EventView::Alive {
                        member: MemberView { is_coordinator: false, ..local@ },
                        incarnation: 1,
                    },
                    send_budget(1) as u32,
                ),
                capacity: 256,
            }),
            r@.swim.secret == config.auth.cluster_secret@,
            r@.swim.in_flight == Set::<u64>::empty(),
            r@.swim.next_seq == 1,
            r@.swim.ask == config.swim.indirect_probes,
            r@.swim.timeout_ns == config.swim.probe_timeout,
            r@.swim.suspicion_ns == crate::cluster::swim::capped_product(
                config.swim.probe_interval,
                config.swim.suspicion_multiplier as u64,
            ),
            r@.subs == (Registry { subs: Set::empty(), conns: Set::empty(), next_id: 1 }),
            r@.table is None,
            r@.signature == 0,
            r@.built == (CoordinatorView { last_topology: None, current: None }),
            r@.local == local@,
            r@.core == config.core,
            r@.orphans == Seq::<(u32, Seq<char>)>::empty(),
            r@.events_enabled == config.events.enable_cluster_events_channel,
    {
        let view: MembershipView = MembershipView::bootstrap(local.clone());
        assert(view@ =~= alone(local@));
        let mut queue: GossipQueue = GossipQueue::with_capacity(256);
        queue.push(alive_for(&local, view.local_incarnation()), 1);
        let driver: SwimDriver = SwimDriver::new(
            config.swim.clone(),
            view,
            queue,
            config.auth.cluster_secret.clone(),
        );
        let orphans: Vec<(u32, String)> = Vec::new();
        assert(orphans_view(orphans@) =~= Seq::<(u32, Seq<char>)>::empty());
        Cluster {
            driver,
            pubsub: PubSubService::new(),
            hasher,
            store: RoutingTableStore::new(),
            clock: SignatureClock::new(),
            coordinator: Coordinator::new(),
            local,
            core: config.core.clone(),
            orphans,
            events_enabled: config.events.enable_cluster_events_channel,
        }
    }

    /// The failure detector.
    pub fn driver(&self) -> (r: &SwimDriver)
        requires
            self.wf(),
        ensures
            r.wf(),
            r@ == self@.swim,
    {
        &self.driver
    }

    /// The failure detector, to be driven.
    pub fn driver_mut(&mut self) -> (r: &mut SwimDriver)
        requires
            old(self).wf(),
        ensures
            r.wf(),
            r@ == old(self)@.swim,
            final(r).wf() ==> final(self).wf(),
            final(self).hash() == old(self).hash(),
            final(self)@ == (NodeView { swim: final(r)@, ..old(self)@ }),
    {
        &mut self.driver
    }

    /// The subscriptions of local clients.
    pub fn pubsub(&self) -> (r: &PubSubService)
        requires
            self.wf(),
        ensures
            r.wf(),
            r@ == self@.subs,
    {
        &self.pubsub
    }

    /// The subscriptions of local clients, to be changed.
    pub fn pubsub_mut(&mut self) -> (r: &mut PubSubService)
        requires
            old(self).wf(),
        ensures
            r.wf(),
            r@ == old(self)@.subs,
            final(r).wf() ==> final(self).wf(),
            final(self).hash() == old(self).hash(),
            final(self)@ == (NodeView { subs: final(r)@, ..old(self)@ }),
    {
        &mut self.pubsub
    }

    /// Whether events are published.
    pub fn events_channel_enabled(&self) -> (r: bool)
        ensures
            r == self@.events_enabled,
    {
        self.events_enabled
    }

    /// The local id.
    pub fn local_id(&self) -> (r: MemberId)
        ensures
            r == self@.local.id,
    {
        self.local.id
    }

    /// The local member.
    pub fn local_member(&self) -> (r: Member)
        ensures
            r@ == self@.local,
    {
        self.local.clone()
    }

    /// The store of the routing table.
    pub fn routing_store(&self) -> (r: &RoutingTableStore)
        ensures
            r@ == self@.table,
    {
        &self.store
    }

    /// The signature that was given out or seen last.
    pub fn last_signature(&self) -> (r: u64)
        ensures
            r == self@.signature,
    {
        self.clock.current()
    }

    /// The signature of the routing table in force, 0 where there is none.
    pub fn routing_signature(&self) -> (r: u64)
        ensures
            r == signature_of(self@.table),
    {
        self.store.signature()
    }

    /// The live members in order, the coordinator first.
    pub fn snapshot_members(&self) -> (r: Vec<Member>)
        requires
            self.wf(),
        ensures
            is_snapshot(self@.swim.view, members_view(r@)),
    {
        self.driver.membership().snapshot()
    }

    /// The live members, as they are listed to clients.
    pub fn members(&self) -> (r: Vec<MemberSummary>)
        requires
            self.wf(),
        ensures
            is_snapshot(self@.swim.view, Seq::new(r@.len(), |i: int| r@[i]@)),
    {
        let snapshot: Vec<Member> = self.driver.membership().snapshot();
        let mut out: Vec<MemberSummary> = Vec::new();
        let mut i: usize = 0;
        while i < snapshot.len()
            invariant
                i <= snapshot@.len(),
                out@.len() == i,
                forall|k: int| 0 <= k < i ==> (#[trigger] out@[k])@ == snapshot@[k]@,
            decreases snapshot@.len() - i,
        {
            out.push(MemberSummary::from(&snapshot[i]));
            i = i + 1;
        }
        assert(Seq::new(out@.len(), |i: int| out@[i]@) =~= members_view(snapshot@));
        out
    }

    /// Notes which partitions wait to be moved.
    pub fn record_orphans(&mut self, orphans: Vec<(u32, String)>)
        requires
            old(self).wf(),
        ensures
            final(self).wf(),
            final(self).hash() == old(self).hash(),
            final(self)@ == (NodeView { orphans: orphans_view(orphans@), ..old(self)@ }),
    {
        self.orphans = orphans;
    }

    /// Partitions that wait to be moved.
    pub fn local_orphans(&self) -> (r: &Vec<(u32, String)>)
        ensures
            orphans_view(r@) == self@.orphans,
    {
        &self.orphans
    }

    /// Applies a routing table that a peer has pushed. If it is taken, the next
    /// signature that is given out here is above its own.
    pub fn apply_routing_update(&mut self, table: RoutingTable) -> (r: ApplyRoutingOutcome)
        requires
            old(self).wf(),
        ensures
            final(self).wf(),
            final(self).hash() == old(self).hash(),
            ({
                let s = old(self)@;
                let taken = takes(s.table, table@);
                &&& r == (if taken {
                    ApplyRoutingOutcome::Accepted
                } else {
                    ApplyRoutingOutcome::Stale
                })
                &&& final(self)@ == (NodeView {
                    table: after(s.table, table@),
                    signature: if taken && s.signature < table@.signature {
                        table@.signature
                    } else {
                        s.signature
                    },
                    ..s
                })
            }),
    {
        let incoming: u64 = table.signature;
        let outcome: ApplyRoutingOutcome = self.store.apply(table);
        if outcome == ApplyRoutingOutcome::Accepted {
            self.clock.advance_to(incoming);
        }
        outcome
    }

    /// One tick of the coordinator.
    pub fn coordinate(&mut self, snapshot: &Vec<Member>, capacity: u32) -> (r: CoordinatorAction)
        requires
            old(self).wf(),
            old(self)@.core.partition_count > 0 ==> old(self)@.core.virtual_nodes_per_member > 0,
            old(self)@.signature < u64::MAX,
        ensures
            final(self).wf(),
            final(self).hash() == old(self).hash(),
            ({
                let s = old(self)@;
                let t = final(self)@;
                let all = members_view(snapshot@);
                let topology = topology_of(all);
                let targets = peer_addrs(all, s.local.id);
                if !leads(all, s.local.id) {
                    r is Idle && t == s
                } else if s.built.last_topology == Some(topology) {
                    (r matches CoordinatorAction::Push(a) && a@ == targets) && t == s
                } else if s.core.partition_count == 0 {
                    r is Idle && t == (NodeView { signature: (s.signature + 1) as u64, ..s })
                } else {
                    let table = table_for(
                        &old(self).hash(),
                        all,
                        s.core.partition_count,
                        s.core.virtual_nodes_per_member,
                        capacity,
                        s.core.replica_count,
                        (s.signature + 1) as u64,
                    );
                    &&& (r matches CoordinatorAction::Push(a) && a@ == targets)
                    &&& t == (NodeView {
                        signature: (s.signature + 1) as u64,
                        built: CoordinatorView {
                            last_topology: Some(topology),
                            current: Some(table),
                        },
                        table: after(s.table, table),
                        ..s
                    })
                }
            }),
    {
        let params: CoordinatorParams = CoordinatorParams {
            local_id: self.local.id,
            partition_count: self.core.partition_count,
            virtual_nodes_per_member: self.core.virtual_nodes_per_member,
            replica_count: self.core.replica_count,
        };
        self.coordinator.tick(
            &params,
            &self.hasher,
            snapshot,
            capacity,
            &mut self.clock,
            &mut self.store,
        )
    }

    /// The last table that was built here.
    pub fn built_table(&self) -> (r: Option<&RoutingTable>)
        ensures
            self@.built.current == (match r {
                Some(t) => Some(t@),
                None => None,
            }),
    {
        self.coordinator.current_table()
    }

    /// Whether enough members are alive to serve requests.
    pub fn member_quorum_satisfied(&self) -> (r: bool)
        requires
            self.wf(),
        ensures
            r == has_quorum(self@),
    {
        self.driver.membership().live_count() >= self.core.member_count_quorum as usize
    }

    /// How many members the cluster needs to serve requests.
    pub fn member_count_quorum(&self) -> (r: u32)
        ensures
            r == self@.core.member_count_quorum,
    {
        self.core.member_count_quorum
    }

    /// The secret that the nodes of the cluster share.
    pub fn cluster_secret(&self) -> (r: &str)
        ensures
            r@ == self@.swim.secret,
    {
        self.driver.secret()
    }

    /// Whether the node can serve.
    pub fn is_ready(&self) -> (r: bool)
        requires
            self.wf(),
        ensures
            r == ready(self@),
    {
        self.store.is_populated() && self.store.signature() != 0 && self.member_quorum_satisfied()
    }

    /// Partition of a key.
    pub fn partition_for_key(&self, dmap_name: &[u8], key: &[u8]) -> (r: u32)
        requires
            self@.core.partition_count > 0,
        ensures
            r == partition_of(&self.hash(), self@.core.partition_count, dmap_name@, key@),
            r < self@.core.partition_count,
    {
        partition_for(&self.hasher, dmap_name, key, self.core.partition_count)
    }

    /// Where a request for a key has to go; `None` where the local node serves
    /// it.
    pub fn route_key(&self, dmap_name: &[u8], key: &[u8]) -> (r: Option<SocketAddr>)
        requires
            self@.table is Some ==> self@.core.partition_count > 0,
        ensures
            r == route(
                self@.table,
                self@.local.id,
                partition_of(&self.hash(), self@.core.partition_count, dmap_name@, key@),
            ),
    {
        match self.store.snapshot() {
            None => None,
            Some(table) => {
                let part: u32 = self.partition_for_key(dmap_name, key);
                match table.primary_for(part) {
                    None => None,
                    Some(primary) => {
                        if primary.id == self.local.id {
                            None
                        } else {
                            Some(primary.addr)
                        }
                    },
                }
            },
        }
    }

    /// Where copies of a write go; nowhere, where the local node is not the
    /// primary.
    pub fn backup_addrs_for_key(&self, dmap_name: &[u8], key: &[u8]) -> (r: Vec<SocketAddr>)
        requires
            self@.table is Some ==> self@.core.partition_count > 0,
        ensures
            r@ == copies_to(
                self@.table,
                self@.local.id,
                partition_of(&self.hash(), self@.core.partition_count, dmap_name@, key@),
            ),
    {
        if let Some(table) = self.store.snapshot() {
            let part: u32 = self.partition_for_key(dmap_name, key);
            if let Some(primary) = table.primary_for(part) {
                if primary.id == self.local.id {
                    let backups: &[Member] = table.backups_for(part);
                    assert(members_view(backups@).skip(0) =~= members_view(backups@));
                    return collect_addrs(backups, 0);
                }
            }
        }
        Vec::new()
    }

    /// Earlier owners of a key's partition, which may still hold a part of its
    /// data; none, where the local node is not the primary.
    pub fn previous_owners_for_key(&self, dmap_name: &[u8], key: &[u8]) -> (r: Vec<SocketAddr>)
        requires
            self@.table is Some ==> self@.core.partition_count > 0,
        ensures
            r@ == earlier_owners(
                self@.table,
                self@.local.id,
                partition_of(&self.hash(), self@.core.partition_count, dmap_name@, key@),
            ),
    {
        if let Some(table) = self.store.snapshot() {
            let part: u32 = self.partition_for_key(dmap_name, key);
            let owners: &[Member] = table.owners_for(part);
            assert(members_view(owners@).len() == owners@.len());
            if owners.len() > 0 {
                assert(members_view(owners@)[0] == owners@[0]@);
                if owners[0].id == self.local.id {
                    return collect_addrs(owners, 1);
                }
            }
        }
        Vec::new()
    }

    /// Whether the local node may hold data of a partition: as its owner, or as
    /// an earlier one. Without a routing table it may hold anything.
    pub fn owns_partition(&self, partition_id: u32) -> (r: bool)
        ensures
            r == may_hold(self@.table, self@.local.id, partition_id),
    {
        match self.store.snapshot() {
            None => true,
            Some(table) => {
                let owners: &[Member] = table.owners_for(partition_id);
                let ghost all = owners_in(table@, partition_id);
                assert(members_view(owners@).len() == owners@.len());
                let mut i: usize = 0;
                while i < owners.len()
                    invariant
                        i <= owners@.len(),
                        all == members_view(owners@),
                        all == owners_in(table@, partition_id),
                        self@.table == Some(table@),
                        forall|k: int| 0 <= k < i ==> (#[trigger] all[k]).id != self.local.id,
                    decreases owners@.len() - i,
                {
                    assert(all[i as int] == owners@[i as int]@);
                    if owners[i].id == self.local.id {
                        assert(owners_in(table@, partition_id)[i as int].id == self@.local.id);
                        return true;
                    }
                    i = i + 1;
                }
                false
            },
        }
    }

    /// How replication is set up.
    pub fn replication_settings(&self) -> (r: ReplicationSettings)
        ensures
            r == (ReplicationSettings {
                replica_count: self@.core.replica_count,
                write_quorum: self@.core.write_quorum,
                read_quorum: self@.core.read_quorum,
                read_repair: self@.core.read_repair,
                mode: self@.core.replication_mode,
            }),
    {
        ReplicationSettings {
            replica_count: self.core.replica_count,
            write_quorum: self.core.write_quorum,
            read_quorum: self.core.read_quorum,
            read_repair: self.core.read_repair,
            mode: self.core.replication_mode,
        }
    }

    /// Leaves the cluster: the news waits to ride along on messages, and goes to
    /// every live peer directly.
    pub fn leave(&mut self) -> (r: Vec<Outgoing>)
        requires
            old(self).wf(),
        ensures
            final(self).wf(),
            final(self).hash() == old(self).hash(),
            final(self)@ == (NodeView {
                swim: SwimState {
                    queue: queued(
                        old(self)@.swim.queue,
                        leave_event(old(self)@),
                        old(self)@.swim.view,
                    ),
                    ..old(self)@.swim
                },
                ..old(self)@
            }),
            exists|snapshot: Seq<MemberView>| #[trigger]
                is_snapshot(old(self)@.swim.view, snapshot) && are_farewells(
                    old(self)@,
                    snapshot,
                    r@,
                ),
    {
        let ghost n = self@;
        let incarnation: Incarnation = self.driver.membership().local_incarnation();
        let event: GossipEvent = GossipEvent::Leave { id: self.local.id, incarnation };
        self.driver.announce(event.clone());
        assert(self@ =~= (NodeView {
            swim: SwimState {
                queue: queued(n.swim.queue, leave_event(n), n.swim.view),
                ..n.swim
            },
            ..n
        }));
        let snapshot: Vec<Member> = self.driver.membership().snapshot();
        let ghost all = members_view(snapshot@);
        let mut out: Vec<Outgoing> = Vec::new();
        let mut i: usize = 0;
        while i < snapshot.len()
            invariant
                i <= snapshot@.len(),
                all == members_view(snapshot@),
                event@ == leave_event(n),
                self@.swim.secret == n.swim.secret,
                self@.local == n.local,
                are_farewells(n, all.take(i as int), out@),
            decreases snapshot@.len() - i,
        {
            let ghost sent = out@;
            assert(all.take(i + 1).drop_last() =~= all.take(i as int));
            assert(all.take(i + 1).last() == all[i as int]);
            if snapshot[i].id != self.local.id {
                let mut gossip: Vec<GossipEvent> = Vec::new();
                gossip.push(event.clone());
                assert(crate::cluster::message::events_view(gossip@) =~= seq![leave_event(n)]);
                let envelope: Envelope = Envelope {
                    cluster_secret: self.driver.secret().to_owned(),
                    from: self.local.id,
                    msg: SwimMessage::Ping { seq: 0, target: snapshot[i].id },
                    gossip,
                };
                out.push(Outgoing { envelope, to: snapshot[i].discovery_addr });
                assert(out@.drop_last() =~= sent);
            }
            i = i + 1;
        }
        assert(all.take(i as int) =~= all);
        assert(is_snapshot(n.swim.view, all));
        out
    }
}

/// A request for a key is served by exactly one node, where all nodes hold the
/// same table: the primary keeps it, every other node sends it to the primary.
pub proof fn law_one_node_serves_a_key(t: TableView, a: MemberId, partition: u32)
    requires
        owners_in(t, partition).len() > 0,
    ensures
        route(Some(t), a, partition) is None <==> owners_in(t, partition)[0].id == a,
        route(Some(t), a, partition) matches Some(addr) ==> addr == owners_in(
            t,
            partition,
        )[0].addr,
{
}

/// A request for a partition stays where the first owner that the table names is
/// the local node, and otherwise goes to the address of that owner. Without a
/// table, or where the table names no owner, it stays.
pub proof fn law_requests_go_to_the_first_owner(
    table: Option<TableView>,
    local: MemberId,
    partition: u32,
)
    ensures
        match table {
            Some(t) => if t.primary.contains_key(partition) && t.primary[partition].len() > 0
                && t.primary[partition][0].id != local {
                route(table, local, partition) == Some(t.primary[partition][0].addr)
            } else {
                route(table, local, partition) is None
            },
            None => route(table, local, partition) is None,
        },
{
}

/// On the first owner of a partition copies of a write go to the addresses of the
/// backups that the table names for the partition, all of them and in that order.
/// Where no backup has the address of the owner, none goes to the owner itself.
pub proof fn law_copies_go_to_the_backups(t: TableView, local: MemberId, partition: u32)
    requires
        t.primary.contains_key(partition),
        t.primary[partition].len() > 0,
        t.primary[partition][0].id == local,
        t.backup.contains_key(partition),
    ensures
        ({
            let to = copies_to(Some(t), local, partition);
            let own = t.primary[partition][0].addr;
            &&& to.len() == t.backup[partition].len()
            &&& forall|i: int| 0 <= i < to.len() ==> #[trigger] to[i] == t.backup[partition][i].addr
            &&& (forall|i: int|
                0 <= i < t.backup[partition].len() ==> (#[trigger] t.backup[partition][i]).addr
                    != own) ==> !to.contains(own)
        }),
{
    let to = copies_to(Some(t), local, partition);
    assert forall|i: int| 0 <= i < to.len() implies #[trigger] to[i]
        == t.backup[partition][i].addr by {}
}

/// On the first owner of a partition in a table that was built for members with
/// distinct ids and addresses, every copy of a write goes to another node, no two
/// of them to the same one, and as many go out as replicas are asked for besides
/// the owner, or as there are other members.
pub proof fn law_copies_reach_other_nodes<H: Hasher>(
    h: &H,
    members: Seq<MemberView>,
    partition_count: u32,
    vnodes: u32,
    capacity: u32,
    replica_count: u32,
    signature: u64,
    local: MemberView,
    partition: u32,
)
    requires
        have_distinct_ids(members),
        forall|i: int, j: int|
            0 <= i < j < members.len() ==> (#[trigger] members[i]).addr != (
            #[trigger] members[j]).addr,
        0 < members.len() <= usize::MAX,
        vnodes > 0,
        partition < partition_count,
        table_for(
            h,
            members,
            partition_count,
            vnodes,
            capacity,
            replica_count,
            signature,
        ).primary[partition][0] == local,
    ensures
        ({
            let t = table_for(
                h,
                members,
                partition_count,
                vnodes,
                capacity,
                replica_count,
                signature,
            );
            let to = copies_to(Some(t), local.id, partition);
            &&& to.len() == if replica_count == 0 {
                0
            } else if replica_count <= members.len() {
                replica_count - 1
            } else {
                members.len() - 1
            }
            &&& !to.contains(local.addr)
            &&& to.no_duplicates()
        }),
{
    let t = table_for(
        h,
        members,
        partition_count,
        vnodes,
        capacity,
        replica_count,
        signature,
    );
    let b = t.backup[partition];
    law_table_knows_every_partition(
        h,
        members,
        partition_count,
        vnodes,
        capacity,
        replica_count,
        signature,
        partition,
    );
    let walk = law_table_follows_the_ring(
        h,
        members,
        partition_count,
        vnodes,
        capacity,
        replica_count,
        signature,
        partition,
    );
    law_copies_go_to_the_backups(t, local.id, partition);
    assert forall|x: MemberView, y: MemberView|
        members.contains(x) && members.contains(y) && x.id != y.id implies x.addr != y.addr by {
        let i = choose|i: int| 0 <= i < members.len() && members[i] == x;
        let j = choose|j: int| 0 <= j < members.len() && members[j] == y;
        if i < j {
            assert(members[i].addr != members[j].addr);
        } else {
            assert(members[j].addr != members[i].addr);
        }
    }
    assert forall|i: int| 0 <= i < b.len() implies (#[trigger] b[i]).addr != local.addr by {
        assert(members.contains(b[i]) && b[i].id != local.id);
    }
    let to = copies_to(Some(t), local.id, partition);
    assert forall|i: int, j: int| 0 <= i < to.len() && 0 <= j < to.len() && i != j implies to[i]
        != to[j] by {
        assert(members.contains(b[i]) && members.contains(b[j]));
        if i < j {
            assert(b[i].id != b[j].id);
        } else {
            assert(b[j].id != b[i].id);
        }
    }
}

/// On the first owner of a partition data that has not moved yet is looked for at
/// the addresses of the other owners that the table names, in their order.
pub proof fn law_earlier_owners_come_behind_the_first(
    t: TableView,
    local: MemberId,
    partition: u32,
)
    requires
        t.primary.contains_key(partition),
        t.primary[partition].len() > 0,
        t.primary[partition][0].id == local,
    ensures
        ({
            let at = earlier_owners(Some(t), local, partition);
            &&& at.len() == t.primary[partition].len() - 1
            &&& forall|i: int|
                0 <= i < at.len() ==> #[trigger] at[i] == t.primary[partition][i + 1].addr
        }),
{
}

/// A node may hold data of a partition exactly where the table names it as an
/// owner, or where there is no table.
pub proof fn law_owners_may_hold_data(
    table: Option<TableView>,
    local: MemberId,
    partition: u32,
)
    ensures
        table is None ==> may_hold(table, local, partition),
        table matches Some(t) ==> (may_hold(table, local, partition)
            <==> t.primary.contains_key(partition) && exists|i: int|
            0 <= i < t.primary[partition].len() && (#[trigger] t.primary[partition][i]).id
                == local),
{
    if let Some(t) = table {
        if may_hold(table, local, partition) {
            let i = choose|i: int|
                0 <= i < owners_in(t, partition).len() && (#[trigger] owners_in(
                    t,
                    partition,
                )[i]).id == local;
            assert(t.primary[partition][i].id == local);
        }
        if t.primary.contains_key(partition) {
            assert(owners_in(t, partition) == t.primary[partition]);
        }
    }
}

/// The partition of a key is the hash of the name of the map and the key, joined,
/// modulo the number of partitions.
pub proof fn law_keys_are_spread_by_their_hash<H: Hasher>(
    h: &H,
    count: u32,
    dmap: Seq<u8>,
    key: Seq<u8>,
)
    requires
        count > 0,
    ensures
        partition_of(h, count, dmap, key) < count,
        (h.hash_of(dmap + key) - partition_of(h, count, dmap, key)) % count as int == 0,
{
    let x = h.hash_of(dmap + key) as int;
    vstd::arithmetic::div_mod::lemma_fundamental_div_mod(x, count as int);
    vstd::arithmetic::div_mod::lemma_mod_multiples_basic(x / count as int, count as int);
    assert(x - x % count as int == (x / count as int) * count as int) by (nonlinear_arith)
        requires
            x == count as int * (x / count as int) + x % count as int,
    ;
}

/// Only the primary of a partition sends copies of writes.
pub proof fn law_only_the_primary_replicates(t: TableView, a: MemberId, partition: u32)
    requires
        route(Some(t), a, partition) is Some,
    ensures
        copies_to(Some(t), a, partition).len() == 0,
        earlier_owners(Some(t), a, partition).len() == 0,
{
}

/// A node is ready if and only if it holds a table with a signature, and at least
/// as many members as the quorum asks for are not known to be dead.
pub proof fn law_ready_nodes_have_a_table_and_a_quorum(n: NodeView)
    ensures
        ready(n) <==> n.table is Some && n.table->0.signature != 0
            && n.swim.view.entries.dom().filter(
            |id: u64| n.swim.view.entries[id].state != MemberState::Dead,
        ).len() >= n.core.member_count_quorum,
{
    assert(live_ids(n.swim.view) =~= n.swim.view.entries.dom().filter(
        |id: u64| n.swim.view.entries[id].state != MemberState::Dead,
    ));
}

/// A node that leaves tells every other member, once each and in their order, that
/// it leaves: the messages go to the members at the places returned.
pub proof fn law_leaving_is_told_to_all(
    n: NodeView,
    snapshot: Seq<MemberView>,
    out: Seq<Outgoing>,
) -> (from: Seq<int>)
    requires
        are_farewells(n, snapshot, out),
    ensures
        from.len() == out.len(),
        forall|k: int|
            0 <= k < out.len() ==> {
                let m = snapshot[#[trigger] from[k]];
                &&& 0 <= from[k] < snapshot.len()
                &&& m.id != n.local.id
                &&& out[k].to == m.discovery_addr
                &&& out[k].envelope@.from == n.local.id
                &&& out[k].envelope@.cluster_secret == n.swim.secret
                &&& out[k].envelope@.msg == (SwimMessage::Ping { seq: 0, target: m.id })
                &&& out[k].envelope@.gossip == seq![
                    EventView::Leave {
                        id: n.local.id,
                        incarnation: n.swim.view.local_incarnation,
                    },
                ]
            },
        forall|a: int, b: int| 0 <= a < b < from.len() ==> #[trigger] from[a] < #[trigger] from[b],
        forall|i: int|
            0 <= i < snapshot.len() && (#[trigger] snapshot[i]).id != n.local.id
                ==> from.contains(i),
    decreases snapshot.len(),
{
    if snapshot.len() == 0 {
        Seq::empty()
    } else {
        let rest = snapshot.drop_last();
        let told = snapshot.last().id != n.local.id;
        let earlier = if told {
            out.drop_last()
        } else {
            out
        };
        let front = law_leaving_is_told_to_all(n, rest, earlier);
        let from = if told {
            front.push(snapshot.len() - 1)
        } else {
            front
        };
        assert forall|k: int| 0 <= k < out.len() implies {
            let m = snapshot[#[trigger] from[k]];
            &&& 0 <= from[k] < snapshot.len()
            &&& m.id != n.local.id
            &&& out[k].to == m.discovery_addr
            &&& out[k].envelope@.from == n.local.id
            &&& out[k].envelope@.cluster_secret == n.swim.secret
            &&& out[k].envelope@.msg == (SwimMessage::Ping { seq: 0, target: m.id })
            &&& out[k].envelope@.gossip == seq![
                EventView::Leave { id: n.local.id, incarnation: n.swim.view.local_incarnation },
            ]
        } by {
            if k < front.len() {
                assert(0 <= front[k] < rest.len());
                assert(rest[front[k]] == snapshot[from[k]]);
                assert(earlier[k] == out[k]);
            } else {
                assert(out[k] == out.last());
            }
        }
        assert forall|i: int|
            0 <= i < snapshot.len() && (#[trigger] snapshot[i]).id
                != n.local.id implies from.contains(i) by {
            if i < rest.len() {
                assert(rest[i] == snapshot[i]);
                assert(front.contains(i));
                let a = choose|a: int| 0 <= a < front.len() && front[a] == i;
                assert(from[a] == i);
            } else {
                assert(from[front.len() as int] == i);
            }
        }
        from
    }
}

} // verus!
