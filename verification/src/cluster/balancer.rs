//! Moving data to its owners.
//!
//! On every tick a node looks for partitions that it holds data of and that the
//! routing table gives to another member, and sends their fragments there. A
//! fragment is cleared only once the peer has confirmed it; what fails is tried
//! again on the next tick.

use vstd::prelude::*;
use vstd::string::*;

use crate::binary::{lemma_little_endian, lemma_room};
use crate::buffer::{bytes_from_slice, bytes_from_vec};
use crate::client::entry::{wire, EntryView};
use crate::client::migration::{all_storable, header_count, payload, wires};
use crate::cluster::error::ClusterError;
use crate::cluster::events::{ClusterEvent, ClusterEventView};
use crate::cluster::routing::store::RoutingTableStore;
use crate::cluster::routing::table::{owners_in, TableView};
use crate::ids::MemberId;
use crate::net::SocketAddr;
use crate::protocol::command::{Command, CommandView, PartitionType};

verus! {

/// Bytes of a fragment without entries: a tag, the partition and the count.
pub const EMPTY_FRAGMENT_LEN: usize = 9;

/// A fragment that is to move.
#[derive(Debug)]
pub struct MigrationPlan {
    pub dmap: String,
    pub partition_id: u32,
    pub peer: SocketAddr,
}

/// Mathematical value of a [`MigrationPlan`].
pub ghost struct PlanView {
    pub dmap: Seq<char>,
    pub partition_id: u32,
    pub peer: SocketAddr,
}

impl View for MigrationPlan {
    type V = PlanView;

    open spec fn view(&self) -> PlanView {
        PlanView { dmap: self.dmap@, partition_id: self.partition_id, peer: self.peer }
    }
}

/// Values of a list of plans.
pub open spec fn plans_view(s: Seq<MigrationPlan>) -> Seq<PlanView> {
    Seq::new(s.len(), |i: int| s[i]@)
}

/// Values of a list of held partitions.
pub open spec fn held_view(s: Seq<(String, u32)>) -> Seq<(Seq<char>, u32)> {
    Seq::new(s.len(), |i: int| (s[i].0@, s[i].1))
}

/// The table gives the partition to another member.
pub open spec fn is_orphan(t: TableView, local: MemberId, partition: u32) -> bool {
    owners_in(t, partition).len() > 0 && owners_in(t, partition)[0].id != local
}

/// The fragments that are to move, in the order in which they are held.
pub open spec fn planned(t: TableView, local: MemberId, held: Seq<(Seq<char>, u32)>) -> Seq<PlanView>
    decreases held.len(),
{
    if held.len() == 0 {
        Seq::empty()
    } else {
        let front = planned(t, local, held.drop_last());
        let h = held.last();
        if is_orphan(t, local, h.1) {
            front.push(
                PlanView { dmap: h.0, partition_id: h.1, peer: owners_in(t, h.1)[0].addr },
            )
        } else {
            front
        }
    }
}

/// What a node plans: nothing as long as it has no table.
pub open spec fn planned_with(
    table: Option<TableView>,
    local: MemberId,
    held: Seq<(Seq<char>, u32)>,
) -> Seq<PlanView> {
    match table {
        Some(t) => planned(t, local, held),
        None => Seq::empty(),
    }
}

/// Works out which fragments are to move.
pub fn plan_tick(store: &RoutingTableStore, local: MemberId, held: &Vec<(String, u32)>) -> (r: Vec<
    MigrationPlan,
>)
    ensures
        plans_view(r@) == planned_with(store@, local, held_view(held@)),
{
    let mut out: Vec<MigrationPlan> = Vec::new();
    match store.snapshot() {
        None => {
            assert(plans_view(out@) =~= Seq::empty());
        },
        Some(table) => {
            let ghost all = held_view(held@);
            let mut i: usize = 0;
            assert(plans_view(out@) =~= planned(table@, local, all.take(0)));
            while i < held.len()
                invariant
                    i <= held@.len(),
                    all == held_view(held@),
                    plans_view(out@) == planned(table@, local, all.take(i as int)),
                decreases held@.len() - i,
            {
                proof {
                    assert(all.take(i + 1).drop_last() =~= all.take(i as int));
                    assert(all.take(i + 1).last() == all[i as int]);
                }
                let partition_id: u32 = held[i].1;
                match table.primary_for(partition_id) {
                    Some(primary) => {
                        if primary.id != local {
                            let ghost before = plans_view(out@);
                            let plan: MigrationPlan = MigrationPlan {
                                dmap: held[i].0.clone(),
                                partition_id,
                                peer: primary.addr,
                            };
                            let ghost added = plan@;
                            out.push(plan);
                            assert(plans_view(out@) =~= before.push(added));
                        }
                    },
                    None => {},
                }
                i = i + 1;
            }
            assert(all.take(i as int) =~= all);
        },
    }
    out
}

/// The partitions and maps of some plans, to report what is left over.
pub fn orphans_of(plans: &Vec<MigrationPlan>) -> (r: Vec<(u32, String)>)
    ensures
        r@.len() == plans@.len(),
        forall|i: int|
            0 <= i < r@.len() ==> (#[trigger] r@[i]).0 == plans@[i].partition_id && r@[i].1@
                == plans@[i].dmap@,
{
    let mut out: Vec<(u32, String)> = Vec::new();
    let mut i: usize = 0;
    while i < plans.len()
        invariant
            i <= plans@.len(),
            out@.len() == i,
            forall|k: int|
                0 <= k < i ==> (#[trigger] out@[k]).0 == plans@[k].partition_id && out@[k].1@
                    == plans@[k].dmap@,
        decreases plans@.len() - i,
    {
        out.push((plans[i].partition_id, plans[i].dmap.clone()));
        i = i + 1;
    }
    out
}

// ---------------------------------------------------------------------------
// One migration
// ---------------------------------------------------------------------------

/// How far a migration has come.
#[derive(Debug, Clone, Copy, PartialEq, Eq, Structural)]
pub enum MigrationStage {
    /// The fragment is to be written out.
    Exporting,
    /// The fragment is on its way.
    Sending,
    /// The peer has it; the local copy is to go.
    Clearing,
    /// It is over.
    Over,
}

/// What a migration asks for next.
#[derive(Debug)]
pub enum MigrationAction {
    /// Send this to the peer.
    Send(Command),
    /// Drop the local copy.
    Clear,
    /// Nothing more; where data has moved, publish the event.
    Finish(Option<ClusterEvent>),
    /// Nothing more; it is tried again on the next tick.
    Fail(ClusterError),
}

/// A migration under way.
#[derive(Debug)]
pub struct Migration {
    plan: MigrationPlan,
    stage: MigrationStage,
}

impl Migration {
    /// What is to move where.
    pub closed spec fn goal(&self) -> PlanView {
        self.plan@
    }

    /// How far it has come.
    pub closed spec fn at(&self) -> MigrationStage {
        self.stage
    }

    /// A migration at its start.
    pub fn new(plan: MigrationPlan) -> (r: Self)
        ensures
            r.goal() == plan@,
            r.at() == MigrationStage::Exporting,
    {
        Migration { plan, stage: MigrationStage::Exporting }
    }

    /// The plan that is carried out.
    pub fn plan(&self) -> (r: &MigrationPlan)
        ensures
            r@ == self.goal(),
    {
        &self.plan
    }

    /// Goes on once the fragment has been written out. A fragment without
    /// entries is not sent.
    pub fn exported(&mut self, outcome: Result<Vec<u8>, ClusterError>) -> (r: MigrationAction)
        requires
            old(self).at() == MigrationStage::Exporting,
        ensures
            final(self).goal() == old(self).goal(),
            match outcome {
                Err(e) => {
                    &&& r == MigrationAction::Fail(e)
                    &&& final(self).at() == MigrationStage::Over
                },
                Ok(payload) => if payload@.len() <= EMPTY_FRAGMENT_LEN {
                    &&& r matches MigrationAction::Finish(e) && e is None
                    &&& final(self).at() == MigrationStage::Over
                } else {
                    &&& r matches MigrationAction::Send(c) && c@
                        == (CommandView::InternalNodeMoveFragment {
                        partition_id: old(self).goal().partition_id,
                        partition_type: PartitionType::Primary,
                        dmap: vstd::utf8::encode_utf8(old(self).goal().dmap),
                        payload: payload@,
                    })
                    &&& final(self).at() == MigrationStage::Sending
                },
            },
    {
        match outcome {
            Err(e) => {
                self.stage = MigrationStage::Over;
                MigrationAction::Fail(e)
            },
            Ok(payload) => {
                if payload.len() <= EMPTY_FRAGMENT_LEN {
                    self.stage = MigrationStage::Over;
                    return MigrationAction::Finish(None);
                }
                self.stage = MigrationStage::Sending;
                MigrationAction::Send(
                    Command::InternalNodeMoveFragment {
                        partition_id: self.plan.partition_id,
                        partition_type: PartitionType::Primary,
                        dmap: bytes_from_slice(self.plan.dmap.as_str().as_bytes()),
                        payload: bytes_from_vec(payload),
                    },
                )
            },
        }
    }

    /// Goes on once the peer has answered. Only a fragment that the peer has
    /// confirmed is cleared.
    pub fn sent(&mut self, outcome: Result<(), ClusterError>) -> (r: MigrationAction)
        requires
            old(self).at() == MigrationStage::Sending,
        ensures
            final(self).goal() == old(self).goal(),
            match outcome {
                Err(e) => {
                    &&& r == MigrationAction::Fail(e)
                    &&& final(self).at() == MigrationStage::Over
                },
                Ok(_) => {
                    &&& r is Clear
                    &&& final(self).at() == MigrationStage::Clearing
                },
            },
    {
        match outcome {
            Err(e) => {
                self.stage = MigrationStage::Over;
                MigrationAction::Fail(e)
            },
            Ok(()) => {
                self.stage = MigrationStage::Clearing;
                MigrationAction::Clear
            },
        }
    }

    /// Goes on once the local copy is gone, and how many entries went with it is
    /// known.
    pub fn cleared(&mut self, outcome: Result<u32, ClusterError>) -> (r: MigrationAction)
        requires
            old(self).at() == MigrationStage::Clearing,
        ensures
            final(self).goal() == old(self).goal(),
            final(self).at() == MigrationStage::Over,
            match outcome {
                Err(e) => r == MigrationAction::Fail(e),
                Ok(n) => r matches MigrationAction::Finish(Some(e)) && e@
                    == (ClusterEventView::FragmentMigration {
                    dmap: old(self).goal().dmap,
                    partition_id: old(self).goal().partition_id,
                    peer: old(self).goal().peer,
                    entries: n,
                }),
            },
    {
        self.stage = MigrationStage::Over;
        match outcome {
            Err(e) => MigrationAction::Fail(e),
            Ok(entries) => MigrationAction::Finish(
                Some(
                    ClusterEvent::FragmentMigration {
                        dmap: self.plan.dmap.clone(),
                        partition_id: self.plan.partition_id,
                        peer: self.plan.peer,
                        entries,
                    },
                ),
            ),
        }
    }
}

// ---------------------------------------------------------------------------
// What holds of every tick
// ---------------------------------------------------------------------------

/// A plan moves the `i`-th held partition to its primary.
pub open spec fn moves(t: TableView, held: Seq<(Seq<char>, u32)>, i: int, p: PlanView) -> bool {
    &&& p.dmap == held[i].0
    &&& p.partition_id == held[i].1
    &&& p.peer == owners_in(t, held[i].1)[0].addr
}

/// Every held partition that belongs to another member is planned to move to
/// that member.
pub proof fn law_every_orphan_is_planned(
    t: TableView,
    local: MemberId,
    held: Seq<(Seq<char>, u32)>,
    i: int,
)
    requires
        0 <= i < held.len(),
        is_orphan(t, local, held[i].1),
    ensures
        exists|k: int|
            0 <= k < planned(t, local, held).len() && moves(
                t,
                held,
                i,
                #[trigger] planned(t, local, held)[k],
            ),
    decreases held.len(),
{
    let front = held.drop_last();
    let all = planned(t, local, held);
    let before = planned(t, local, front);
    if i < held.len() - 1 {
        assert(front[i] == held[i]);
        law_every_orphan_is_planned(t, local, front, i);
        let k = choose|k: int|
            0 <= k < before.len() && moves(t, front, i, #[trigger] before[k]);
        assert(all[k] == before[k]);
        assert(moves(t, held, i, all[k]));
    } else {
        assert(moves(t, held, i, all[before.len() as int]));
    }
}

/// Nothing else is planned: every plan moves a held partition that belongs to
/// another member.
pub proof fn law_only_orphans_are_planned(
    t: TableView,
    local: MemberId,
    held: Seq<(Seq<char>, u32)>,
    k: int,
)
    requires
        0 <= k < planned(t, local, held).len(),
    ensures
        exists|i: int|
            0 <= i < held.len() && is_orphan(t, local, (#[trigger] held[i]).1) && moves(
                t,
                held,
                i,
                planned(t, local, held)[k],
            ),
    decreases held.len(),
{
    if held.len() > 0 {
        let front = held.drop_last();
        let all = planned(t, local, held);
        let before = planned(t, local, front);
        if k < before.len() {
            law_only_orphans_are_planned(t, local, front, k);
            let i = choose|i: int|
                0 <= i < front.len() && is_orphan(t, local, (#[trigger] front[i]).1) && moves(
                    t,
                    front,
                    i,
                    before[k],
                );
            assert(held[i] == front[i]);
            assert(all[k] == before[k]);
        } else {
            let i = held.len() - 1;
            assert(is_orphan(t, local, held[i].1));
        }
    }
}

/// Once what was planned has moved and is cleared, the same table plans nothing
/// more: the node is balanced.
pub proof fn law_moved_partitions_leave_nothing(
    t: TableView,
    local: MemberId,
    rest: Seq<(Seq<char>, u32)>,
)
    requires
        forall|i: int| 0 <= i < rest.len() ==> !is_orphan(t, local, (#[trigger] rest[i]).1),
    ensures
        planned(t, local, rest).len() == 0,
    decreases rest.len(),
{
    if rest.len() > 0 {
        let front = rest.drop_last();
        assert forall|i: int| 0 <= i < front.len() implies !is_orphan(
            t,
            local,
            (#[trigger] front[i]).1,
        ) by {
            assert(front[i] == rest[i]);
        }
        law_moved_partitions_leave_nothing(t, local, front);
        assert(rest.last() == rest[rest.len() - 1]);
    }
}

/// What a node plans to move is what it holds of the partitions whose first owner
/// in the table is another member, each to that owner's address, once for each map
/// that is held and in the order in which they are held: the plans stand for the
/// places returned.
pub proof fn law_fragments_go_to_the_first_owner(
    t: TableView,
    local: MemberId,
    held: Seq<(Seq<char>, u32)>,
) -> (from: Seq<int>)
    ensures
        ({
            let plans = planned_with(Some(t), local, held);
            &&& from.len() == plans.len()
            &&& forall|k: int|
                0 <= k < plans.len() ==> {
                    let p = held[#[trigger] from[k]].1;
                    &&& 0 <= from[k] < held.len()
                    &&& plans[k].dmap == held[from[k]].0
                    &&& plans[k].partition_id == p
                    &&& t.primary.contains_key(p) && t.primary[p].len() > 0
                    &&& t.primary[p][0].id != local
                    &&& plans[k].peer == t.primary[p][0].addr
                }
            &&& forall|a: int, b: int|
                0 <= a < b < from.len() ==> #[trigger] from[a] < #[trigger] from[b]
            &&& forall|i: int|
                0 <= i < held.len() && t.primary.contains_key((#[trigger] held[i]).1)
                    && t.primary[held[i].1].len() > 0 && t.primary[held[i].1][0].id != local
                    ==> from.contains(i)
        }),
    decreases held.len(),
{
    if held.len() == 0 {
        Seq::empty()
    } else {
        let rest = held.drop_last();
        let front = law_fragments_go_to_the_first_owner(t, local, rest);
        assert forall|k: int| 0 <= k < front.len() implies 0 <= #[trigger] front[k] < rest.len()
            && held[front[k]] == rest[front[k]] by {
            assert(0 <= front[k] < rest.len());
        }
        let from = if is_orphan(t, local, held.last().1) {
            front.push(held.len() - 1)
        } else {
            front
        };
        assert forall|i: int|
            0 <= i < held.len() && t.primary.contains_key((#[trigger] held[i]).1)
                && t.primary[held[i].1].len() > 0 && t.primary[held[i].1][0].id
                != local implies from.contains(i) by {
            if i < rest.len() {
                assert(rest[i] == held[i]);
                assert(front.contains(i));
                let a = choose|a: int| 0 <= a < front.len() && front[a] == i;
                assert(from[a] == i);
            } else {
                assert(from[front.len() as int] == i);
            }
        }
        from
    }
}

/// A node that has no table moves nothing.
pub proof fn law_nothing_moves_without_a_table(local: MemberId, held: Seq<(Seq<char>, u32)>)
    ensures
        planned_with(None, local, held).len() == 0,
{
}

/// A fragment is sent if and only if it holds an entry: one that holds none is no
/// longer than the shortest.
pub proof fn law_empty_fragments_stay(partition_id: u32, s: Seq<EntryView>)
    requires
        all_storable(s),
    ensures
        payload(partition_id, s).len() <= EMPTY_FRAGMENT_LEN <==> s.len() == 0,
{
    lemma_room(4);
    lemma_little_endian(partition_id as u64, 4);
    lemma_little_endian(header_count(s.len()), 4);
    if s.len() > 0 {
        assert(wires(s) == wires(s.drop_last()) + wire(s.last()));
        assert(wire(s.last()).len() > 0);
    }
}

} // verus!
