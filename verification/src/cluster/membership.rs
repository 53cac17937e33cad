//! The local node's view of the cluster.
//!
//! Every known member has a state and an incarnation. Members are kept in the
//! order of birthdate, then id; the first live one is the coordinator.

use vstd::prelude::*;
use vstd::string::*;

use crate::cluster::message::{EventView, GossipEvent, Incarnation};
use crate::ids::MemberId;
use crate::member::{before, members_view, Member, MemberView};
use crate::net::SocketAddr;

verus! {

/// Lifecycle state of a member.
#[derive(Debug, Clone, Copy, PartialEq, Eq, Structural)]
pub enum MemberState {
    /// Reachable.
    Alive,
    /// Probes have failed. Becomes `Dead` when the suspicion times out, unless
    /// an `Alive` of at least the same incarnation arrives first.
    Suspect,
    /// Declared dead, or left. Final for its incarnation.
    Dead,
}

/// What the view keeps of a member.
#[derive(Debug)]
pub struct MemberEntry {
    pub member: Member,
    pub state: MemberState,
    pub incarnation: Incarnation,
    /// When a suspicion runs out, in wall-clock nanoseconds. Zero while alive.
    pub suspect_deadline_ns: u64,
}

/// Mathematical value of a [`MemberEntry`].
pub ghost struct EntryView {
    pub member: MemberView,
    pub state: MemberState,
    pub incarnation: Incarnation,
    pub deadline: u64,
}

impl View for MemberEntry {
    type V = EntryView;

    open spec fn view(&self) -> EntryView {
        EntryView {
            member: self.member@,
            state: self.state,
            incarnation: self.incarnation,
            deadline: self.suspect_deadline_ns,
        }
    }
}

impl Clone for MemberEntry {
    fn clone(&self) -> (r: Self)
        ensures
            r@ == self@,
    {
        MemberEntry {
            member: self.member.clone(),
            state: self.state,
            incarnation: self.incarnation,
            suspect_deadline_ns: self.suspect_deadline_ns,
        }
    }
}

/// What applying an event did.
#[derive(Debug, Clone, Copy, PartialEq, Eq, Structural)]
pub enum ApplyOutcome {
    /// Nothing: the event is stale or says nothing new.
    Ignored,
    /// A member was learned of.
    NewMember,
    /// The state or incarnation of a known member advanced.
    Updated,
    /// Another node suspects the local node or takes it for dead. The caller
    /// raises the local incarnation and announces the node as alive.
    SelfRefutationNeeded,
}

/// Mathematical value of a [`MembershipView`].
#[verifier::ext_equal]
pub ghost struct Membership {
    /// The known members, by id.
    pub entries: Map<u64, EntryView>,
    /// The local node.
    pub local: Option<MemberId>,
    /// The local node's incarnation.
    pub local_incarnation: Incarnation,
}

/// The local node's view of the cluster.
#[derive(Debug)]
pub struct MembershipView {
    entries: Vec<MemberEntry>,
    local_id: Option<MemberId>,
    local_incarnation: Incarnation,
}

/// Values of a list of entries.
pub open spec fn entries_view(s: Seq<MemberEntry>) -> Seq<EntryView> {
    Seq::new(s.len(), |i: int| s[i]@)
}

/// The entries of a list, by id.
pub open spec fn by_id(s: Seq<EntryView>) -> Map<u64, EntryView> {
    Map::new(
        |id: u64| exists|i: int| 0 <= i < s.len() && (#[trigger] s[i]).member.id.0 == id,
        |id: u64| s[choose|i: int| 0 <= i < s.len() && (#[trigger] s[i]).member.id.0 == id],
    )
}

/// No two entries share an id.
pub open spec fn distinct_ids(s: Seq<EntryView>) -> bool {
    forall|i: int, j: int|
        0 <= i < j < s.len() ==> (#[trigger] s[i]).member.id != (#[trigger] s[j]).member.id
}

/// Entries stand in the order of their members.
pub open spec fn in_order(s: Seq<EntryView>) -> bool {
    forall|i: int, j: int|
        0 <= i < j < s.len() ==> before((#[trigger] s[i]).member, (#[trigger] s[j]).member)
}

/// The local node, where there is one, is known as alive at its own
/// incarnation.
pub open spec fn local_is_alive(m: Membership) -> bool {
    m.local matches Some(l) ==> {
        &&& m.entries.contains_key(l.0)
        &&& m.entries[l.0].state == MemberState::Alive
        &&& m.entries[l.0].incarnation == m.local_incarnation
    }
}

impl View for MembershipView {
    type V = Membership;

    closed spec fn view(&self) -> Membership {
        Membership {
            entries: by_id(entries_view(self.entries@)),
            local: self.local_id,
            local_incarnation: self.local_incarnation,
        }
    }
}

proof fn lemma_by_id(s: Seq<EntryView>, i: int)
    requires
        distinct_ids(s),
        0 <= i < s.len(),
    ensures
        by_id(s).contains_key(s[i].member.id.0),
        by_id(s)[s[i].member.id.0] == s[i],
{
    let id = s[i].member.id.0;
    let k = choose|k: int| 0 <= k < s.len() && (#[trigger] s[k]).member.id.0 == id;
    assert(s[k].member.id.0 == id);
    if k < i {
        assert(s[k].member.id != s[i].member.id);
    } else if i < k {
        assert(s[i].member.id != s[k].member.id);
    }
}

proof fn lemma_by_id_update(s: Seq<EntryView>, i: int, e: EntryView)
    requires
        distinct_ids(s),
        0 <= i < s.len(),
        e.member.id == s[i].member.id,
    ensures
        distinct_ids(s.update(i, e)),
        by_id(s.update(i, e)) == by_id(s).insert(e.member.id.0, e),
{
    let t = s.update(i, e);
    assert(distinct_ids(t));
    let a = by_id(t);
    let b = by_id(s).insert(e.member.id.0, e);
    assert forall|id: u64| a.contains_key(id) <==> b.contains_key(id) by {
        if a.contains_key(id) {
            let k = choose|k: int| 0 <= k < t.len() && (#[trigger] t[k]).member.id.0 == id;
            assert(s[k].member.id.0 == id);
        }
        if b.contains_key(id) {
            if id == e.member.id.0 {
                assert(t[i].member.id.0 == id);
            } else {
                let k = choose|k: int| 0 <= k < s.len() && (#[trigger] s[k]).member.id.0 == id;
                assert(t[k].member.id.0 == id);
            }
        }
    }
    assert forall|id: u64| a.contains_key(id) implies a[id] == b[id] by {
        let k = choose|k: int| 0 <= k < t.len() && (#[trigger] t[k]).member.id.0 == id;
        lemma_by_id(t, k);
        lemma_by_id(s, k);
    }
    assert(a =~= b);
}

proof fn lemma_by_id_remove(s: Seq<EntryView>, i: int)
    requires
        distinct_ids(s),
        0 <= i < s.len(),
    ensures
        distinct_ids(s.remove(i)),
        by_id(s.remove(i)) == by_id(s).remove(s[i].member.id.0),
{
    let t = s.remove(i);
    assert forall|a: int, b: int| 0 <= a < b < t.len() implies (#[trigger] t[a]).member.id != (
    #[trigger] t[b]).member.id by {
        let sa: int = if a < i {
            a
        } else {
            a + 1
        };
        let sb: int = if b < i {
            b
        } else {
            b + 1
        };
        assert(s[sa].member.id != s[sb].member.id);
    }
    let a = by_id(t);
    let b = by_id(s).remove(s[i].member.id.0);
    assert forall|id: u64| a.contains_key(id) <==> b.contains_key(id) by {
        if a.contains_key(id) {
            let k = choose|k: int| 0 <= k < t.len() && (#[trigger] t[k]).member.id.0 == id;
            let sk: int = if k < i {
                k
            } else {
                k + 1
            };
            assert(s[sk].member.id.0 == id);
            if sk < i {
                assert(s[sk].member.id != s[i].member.id);
            } else {
                assert(s[i].member.id != s[sk].member.id);
            }
        }
        if b.contains_key(id) {
            let k = choose|k: int| 0 <= k < s.len() && (#[trigger] s[k]).member.id.0 == id;
            let tk: int = if k < i {
                k
            } else {
                k - 1
            };
            assert(t[tk].member.id.0 == id);
        }
    }
    assert forall|id: u64| a.contains_key(id) implies a[id] == b[id] by {
        let k = choose|k: int| 0 <= k < t.len() && (#[trigger] t[k]).member.id.0 == id;
        let sk: int = if k < i {
            k
        } else {
            k + 1
        };
        lemma_by_id(t, k);
        lemma_by_id(s, sk);
    }
    assert(a =~= b);
}

proof fn lemma_by_id_insert(s: Seq<EntryView>, i: int, e: EntryView)
    requires
        distinct_ids(s),
        0 <= i <= s.len(),
        !by_id(s).contains_key(e.member.id.0),
    ensures
        distinct_ids(s.insert(i, e)),
        by_id(s.insert(i, e)) == by_id(s).insert(e.member.id.0, e),
{
    let t = s.insert(i, e);
    assert forall|k: int| 0 <= k < s.len() implies (#[trigger] s[k]).member.id != e.member.id by {
        if s[k].member.id == e.member.id {
            assert(by_id(s).contains_key(e.member.id.0));
        }
    }
    assert forall|a: int, b: int| 0 <= a < b < t.len() implies (#[trigger] t[a]).member.id != (
    #[trigger] t[b]).member.id by {
        let sa: int = if a < i {
            a
        } else {
            a - 1
        };
        let sb: int = if b < i {
            b
        } else {
            b - 1
        };
        if a == i {
            assert(t[b] == s[sb]);
        } else if b == i {
            assert(t[a] == s[sa]);
        } else {
            assert(t[a] == s[sa] && t[b] == s[sb]);
            assert(s[sa].member.id != s[sb].member.id);
        }
    }
    let a = by_id(t);
    let b = by_id(s).insert(e.member.id.0, e);
    assert(t[i] == e);
    assert forall|id: u64| a.contains_key(id) <==> b.contains_key(id) by {
        if a.contains_key(id) {
            let k = choose|k: int| 0 <= k < t.len() && (#[trigger] t[k]).member.id.0 == id;
            if k != i {
                let sk: int = if k < i {
                    k
                } else {
                    k - 1
                };
                assert(s[sk].member.id.0 == id);
            }
        }
        if b.contains_key(id) && id != e.member.id.0 {
            let k = choose|k: int| 0 <= k < s.len() && (#[trigger] s[k]).member.id.0 == id;
            let tk: int = if k < i {
                k
            } else {
                k + 1
            };
            assert(t[tk].member.id.0 == id);
        }
    }
    assert forall|id: u64| a.contains_key(id) implies a[id] == b[id] by {
        let k = choose|k: int| 0 <= k < t.len() && (#[trigger] t[k]).member.id.0 == id;
        lemma_by_id(t, k);
        if k != i {
            let sk: int = if k < i {
                k
            } else {
                k - 1
            };
            lemma_by_id(s, sk);
        }
    }
    assert(a =~= b);
}

// ---------------------------------------------------------------------------
// What events do
// ---------------------------------------------------------------------------

/// The member that an event is about.
pub open spec fn event_id(ev: EventView) -> MemberId {
    match ev {
        EventView::Alive { member, .. } => member.id,
        EventView::Suspect { id, .. } => id,
        EventView::Dead { id, .. } => id,
        EventView::Leave { id, .. } => id,
    }
}

/// The incarnation that an event speaks of.
pub open spec fn event_incarnation(ev: EventView) -> Incarnation {
    match ev {
        EventView::Alive { incarnation, .. } => incarnation,
        EventView::Suspect { incarnation, .. } => incarnation,
        EventView::Dead { incarnation, .. } => incarnation,
        EventView::Leave { incarnation, .. } => incarnation,
    }
}

/// Sum that stops at the largest 64-bit number.
pub open spec fn capped_sum(a: u64, b: u64) -> u64 {
    if a + b > u64::MAX {
        u64::MAX
    } else {
        (a + b) as u64
    }
}

/// Whether an event advances a known member. An older incarnation never does,
/// a newer one always does; at the same incarnation `Alive` only lifts a
/// suspicion, `Suspect` only befalls a live member, and death is final.
pub open spec fn advances(e: EntryView, ev: EventView) -> bool {
    ||| event_incarnation(ev) > e.incarnation
    ||| event_incarnation(ev) == e.incarnation && match ev {
        EventView::Alive { .. } => e.state == MemberState::Suspect,
        EventView::Suspect { .. } => e.state == MemberState::Alive,
        EventView::Dead { .. } => e.state != MemberState::Dead,
        EventView::Leave { .. } => e.state != MemberState::Dead,
    }
}

/// The entry of a known member after an event that advances it.
pub open spec fn advanced(e: EntryView, ev: EventView, now_ns: u64, timeout_ns: u64) -> EntryView {
    match ev {
        EventView::Alive { member, incarnation } => EntryView {
            member,
            state: MemberState::Alive,
            incarnation,
            deadline: 0,
        },
        EventView::Suspect { incarnation, .. } => EntryView {
            member: e.member,
            state: MemberState::Suspect,
            incarnation,
            deadline: capped_sum(now_ns, timeout_ns),
        },
        EventView::Dead { incarnation, .. } => EntryView {
            member: e.member,
            state: MemberState::Dead,
            incarnation,
            deadline: 0,
        },
        EventView::Leave { incarnation, .. } => EntryView {
            member: e.member,
            state: MemberState::Dead,
            incarnation,
            deadline: 0,
        },
    }
}

/// The outcome of applying an event.
pub open spec fn outcome_of(m: Membership, ev: EventView) -> ApplyOutcome {
    let id = event_id(ev);
    if m.local == Some(id) {
        if ev is Alive {
            ApplyOutcome::Ignored
        } else {
            ApplyOutcome::SelfRefutationNeeded
        }
    } else if m.entries.contains_key(id.0) {
        if advances(m.entries[id.0], ev) {
            ApplyOutcome::Updated
        } else {
            ApplyOutcome::Ignored
        }
    } else if ev is Alive {
        ApplyOutcome::NewMember
    } else {
        ApplyOutcome::Ignored
    }
}

/// The view after applying an event. Nothing said about the local node changes
/// it.
pub open spec fn applied(m: Membership, ev: EventView, now_ns: u64, timeout_ns: u64) -> Membership {
    let id = event_id(ev);
    match outcome_of(m, ev) {
        ApplyOutcome::NewMember => Membership {
            entries: m.entries.insert(
                id.0,
                EntryView {
                    member: ev->Alive_member,
                    state: MemberState::Alive,
                    incarnation: ev->Alive_incarnation,
                    deadline: 0,
                },
            ),
            ..m
        },
        ApplyOutcome::Updated => Membership {
            entries: m.entries.insert(
                id.0,
                advanced(m.entries[id.0], ev, now_ns, timeout_ns),
            ),
            ..m
        },
        _ => m,
    }
}

/// A suspicion that has run out.
pub open spec fn expired(e: EntryView, now_ns: u64) -> bool {
    e.state == MemberState::Suspect && e.deadline <= now_ns
}

/// The entry once its suspicion, if it has run out, has been acted on.
pub open spec fn reaped_entry(e: EntryView, now_ns: u64) -> EntryView {
    if expired(e, now_ns) {
        EntryView { state: MemberState::Dead, ..e }
    } else {
        e
    }
}

/// The view once every suspicion that has run out has been acted on.
pub open spec fn reaped(m: Membership, now_ns: u64) -> Membership {
    Membership {
        entries: m.entries.map_values(|e: EntryView| reaped_entry(e, now_ns)),
        ..m
    }
}

/// Difference that stops at zero.
pub open spec fn floored_difference(a: u64, b: u64) -> u64 {
    if a > b {
        (a - b) as u64
    } else {
        0
    }
}

/// A dead member whose suspicion ran out at least `older_than_ns` ago.
pub open spec fn forgettable(e: EntryView, older_than_ns: u64, now_ns: u64) -> bool {
    e.state == MemberState::Dead && e.deadline != 0 && floored_difference(now_ns, e.deadline)
        >= older_than_ns
}

/// The view without the dead members that may be forgotten.
pub open spec fn without_tombstones(m: Membership, older_than_ns: u64, now_ns: u64) -> Membership {
    Membership {
        entries: m.entries.restrict(
            Set::new(
                |id: u64|
                    m.entries.contains_key(id) && !forgettable(
                        m.entries[id],
                        older_than_ns,
                        now_ns,
                    ),
            ),
        ),
        ..m
    }
}

/// Whether the member `id` is known and not dead.
pub open spec fn is_live(m: Membership, id: u64) -> bool {
    m.entries.contains_key(id) && m.entries[id].state != MemberState::Dead
}

/// `r` lists the live members in order, and only the first is the coordinator.
pub open spec fn is_snapshot(m: Membership, r: Seq<MemberView>) -> bool {
    &&& forall|i: int, j: int| 0 <= i < j < r.len() ==> before(#[trigger] r[i], #[trigger] r[j])
    &&& forall|i: int|
        0 <= i < r.len() ==> is_live(m, (#[trigger] r[i]).id.0) && r[i] == (MemberView {
            is_coordinator: i == 0,
            ..m.entries[r[i].id.0].member
        })
    &&& forall|id: u64| #[trigger]
        is_live(m, id) ==> exists|i: int| 0 <= i < r.len() && (#[trigger] r[i]).id.0 == id
}

// ---------------------------------------------------------------------------
// The view itself
// ---------------------------------------------------------------------------

impl MembershipView {
    /// An entry is of the member that it stands for.
    pub proof fn lemma_entry_id(&self, id: u64)
        requires
            self@.entries.contains_key(id),
        ensures
            self@.entries[id].member.id.0 == id,
    {
        let s = entries_view(self.entries@);
        let k = choose|k: int| 0 <= k < s.len() && (#[trigger] s[k]).member.id.0 == id;
        assert(s[k].member.id.0 == id);
    }
}

impl MembershipView {
    /// Every entry stands under its own id, in order, and the local node is
    /// known as alive.
    pub closed spec fn wf(&self) -> bool {
        &&& distinct_ids(entries_view(self.entries@))
        &&& in_order(entries_view(self.entries@))
        &&& local_is_alive(self@)
    }

    /// A view that knows the local node alone.
    pub fn bootstrap(local: Member) -> (r: Self)
        ensures
            r.wf(),
            r@.local == Some(local@.id),
            r@.local_incarnation == 1,
            r@.entries == Map::<u64, EntryView>::empty().insert(
                local@.id.0,
                EntryView {
                    member: local@,
                    state: MemberState::Alive,
                    incarnation: 1,
                    deadline: 0,
                },
            ),
    {
        let id: MemberId = local.id;
        let mut entries: Vec<MemberEntry> = Vec::new();
        entries.push(
            MemberEntry {
                member: local,
                state: MemberState::Alive,
                incarnation: 1,
                suspect_deadline_ns: 0,
            },
        );
        let r: MembershipView = MembershipView {
            entries,
            local_id: Some(id),
            local_incarnation: 1,
        };
        proof {
            let s = entries_view(r.entries@);
            let none = Seq::<EntryView>::empty();
            assert(by_id(none) =~= Map::<u64, EntryView>::empty());
            lemma_by_id_insert(none, 0, s[0]);
            assert(none.insert(0, s[0]) =~= s);
        }
        r
    }

    /// Position of the entry of `id`.
    fn find(&self, id: MemberId) -> (r: Option<usize>)
        requires
            distinct_ids(entries_view(self.entries@)),
        ensures
            match r {
                Some(i) => i < self.entries@.len() && self.entries@[i as int].member.id == id
                    && self@.entries.contains_key(id.0) && self@.entries[id.0]
                    == self.entries@[i as int]@,
                None => !self@.entries.contains_key(id.0),
            },
    {
        let ghost s = entries_view(self.entries@);
        let mut i: usize = 0;
        while i < self.entries.len()
            invariant
                i <= self.entries@.len(),
                s == entries_view(self.entries@),
                distinct_ids(s),
                self@.entries == by_id(s),
                forall|j: int| 0 <= j < i ==> (#[trigger] s[j]).member.id != id,
            decreases self.entries@.len() - i,
        {
            assert(s[i as int] == self.entries@[i as int]@);
            if self.entries[i].member.id == id {
                proof {
                    lemma_by_id(s, i as int);
                }
                return Some(i);
            }
            i = i + 1;
        }
        None
    }

    /// Puts an entry in the place that its member's order gives it. No entry
    /// of that id is present.
    fn insert_sorted(&mut self, e: MemberEntry)
        requires
            distinct_ids(entries_view(old(self).entries@)),
            in_order(entries_view(old(self).entries@)),
            !old(self)@.entries.contains_key(e@.member.id.0),
        ensures
            distinct_ids(entries_view(final(self).entries@)),
            in_order(entries_view(final(self).entries@)),
            final(self)@.entries == old(self)@.entries.insert(e@.member.id.0, e@),
            final(self)@.local == old(self)@.local,
            final(self)@.local_incarnation == old(self)@.local_incarnation,
    {
        let ghost s = entries_view(self.entries@);
        let mut pos: usize = 0;
        while pos < self.entries.len() && self.entries[pos].member.is_before(&e.member)
            invariant
                *self == *old(self),
                pos <= self.entries@.len(),
                s == entries_view(self.entries@),
                forall|j: int| 0 <= j < pos ==> before((#[trigger] s[j]).member, e@.member),
            decreases self.entries@.len() - pos,
        {
            assert(s[pos as int] == self.entries@[pos as int]@);
            pos = pos + 1;
        }
        proof {
            if pos < s.len() {
                assert(s[pos as int] == self.entries@[pos as int]@);
                assert(!before(s[pos as int].member, e@.member));
                if s[pos as int].member.id == e@.member.id {
                    lemma_by_id(s, pos as int);
                }
            }
            lemma_by_id_insert(s, pos as int, e@);
        }
        let ghost ev = e@;
        self.entries.insert(pos, e);
        proof {
            let t = entries_view(self.entries@);
            assert(t =~= s.insert(pos as int, ev));
            assert forall|a: int, b: int| 0 <= a < b < t.len() implies before(
                (#[trigger] t[a]).member,
                (#[trigger] t[b]).member,
            ) by {
                let sa: int = if a < pos {
                    a
                } else {
                    a - 1
                };
                let sb: int = if b < pos {
                    b
                } else {
                    b - 1
                };
                if a == pos {
                    assert(t[b] == s[sb]);
                    if sb != pos {
                        assert(before(s[pos as int].member, s[sb].member));
                    }
                } else if b == pos {
                    assert(t[a] == s[sa]);
                } else {
                    assert(t[a] == s[sa] && t[b] == s[sb]);
                }
            }
        }
    }

    /// Removes the entry at `i`.
    fn remove_at(&mut self, i: usize)
        requires
            i < old(self).entries@.len(),
            distinct_ids(entries_view(old(self).entries@)),
            in_order(entries_view(old(self).entries@)),
        ensures
            distinct_ids(entries_view(final(self).entries@)),
            in_order(entries_view(final(self).entries@)),
            final(self).entries@ == old(self).entries@.remove(i as int),
            final(self)@.entries == old(self)@.entries.remove(
                old(self).entries@[i as int]@.member.id.0,
            ),
            final(self)@.local == old(self)@.local,
            final(self)@.local_incarnation == old(self)@.local_incarnation,
    {
        let ghost s = entries_view(self.entries@);
        proof {
            lemma_by_id_remove(s, i as int);
        }
        self.entries.remove(i);
        proof {
            let t = entries_view(self.entries@);
            assert(t =~= s.remove(i as int));
            assert forall|a: int, b: int| 0 <= a < b < t.len() implies before(
                (#[trigger] t[a]).member,
                (#[trigger] t[b]).member,
            ) by {
                let sa: int = if a < i {
                    a
                } else {
                    a + 1
                };
                let sb: int = if b < i {
                    b
                } else {
                    b + 1
                };
                assert(before(s[sa].member, s[sb].member));
            }
        }
    }

    /// Changes state, incarnation and deadline of the entry at `i`.
    fn set_at(&mut self, i: usize, state: MemberState, incarnation: Incarnation, deadline: u64)
        requires
            i < old(self).entries@.len(),
            distinct_ids(entries_view(old(self).entries@)),
            in_order(entries_view(old(self).entries@)),
        ensures
            distinct_ids(entries_view(final(self).entries@)),
            in_order(entries_view(final(self).entries@)),
            entries_view(final(self).entries@) == entries_view(old(self).entries@).update(
                i as int,
                EntryView {
                    member: old(self).entries@[i as int]@.member,
                    state,
                    incarnation,
                    deadline,
                },
            ),
            final(self)@.entries == old(self)@.entries.insert(
                old(self).entries@[i as int]@.member.id.0,
                EntryView {
                    member: old(self).entries@[i as int]@.member,
                    state,
                    incarnation,
                    deadline,
                },
            ),
            final(self)@.local == old(self)@.local,
            final(self)@.local_incarnation == old(self)@.local_incarnation,
    {
        let ghost s = entries_view(self.entries@);
        let member: Member = self.entries[i].member.clone();
        let e: MemberEntry = MemberEntry {
            member,
            state,
            incarnation,
            suspect_deadline_ns: deadline,
        };
        let ghost ev = e@;
        proof {
            lemma_by_id_update(s, i as int, ev);
        }
        self.entries[i] = e;
        proof {
            let t = entries_view(self.entries@);
            assert(t =~= s.update(i as int, ev));
            assert forall|a: int, b: int| 0 <= a < b < t.len() implies before(
                (#[trigger] t[a]).member,
                (#[trigger] t[b]).member,
            ) by {
                assert(before(s[a].member, s[b].member));
            }
        }
    }

    fn apply_alive(&mut self, member: Member, incarnation: Incarnation) -> (r: ApplyOutcome)
        requires
            old(self).wf(),
            !member@.is_coordinator,
        ensures
            final(self).wf(),
            ({
                let ev = EventView::Alive { member: member@, incarnation };
                &&& r == outcome_of(old(self)@, ev)
                &&& final(self)@ == applied(old(self)@, ev, 0, 0)
            }),
    {
        let id: MemberId = member.id;
        if let Some(l) = self.local_id {
            if l == id {
                return ApplyOutcome::Ignored;
            }
        }
        let ghost m = self@;
        match self.find(id) {
            Some(i) => {
                let known: Incarnation = self.entries[i].incarnation;
                if incarnation < known || (incarnation == known && self.entries[i].state
                    != MemberState::Suspect) {
                    return ApplyOutcome::Ignored;
                }
                self.remove_at(i);
                self.insert_sorted(
                    MemberEntry {
                        member,
                        state: MemberState::Alive,
                        incarnation,
                        suspect_deadline_ns: 0,
                    },
                );
                proof {
                    let ev = EventView::Alive { member: member@, incarnation };
                    assert(self@ =~= applied(m, ev, 0, 0));
                }
                ApplyOutcome::Updated
            },
            None => {
                self.insert_sorted(
                    MemberEntry {
                        member,
                        state: MemberState::Alive,
                        incarnation,
                        suspect_deadline_ns: 0,
                    },
                );
                proof {
                    let ev = EventView::Alive { member: member@, incarnation };
                    assert(self@ =~= applied(m, ev, 0, 0));
                }
                ApplyOutcome::NewMember
            },
        }
    }

    fn apply_suspect(
        &mut self,
        id: MemberId,
        incarnation: Incarnation,
        from: MemberId,
        now_ns: u64,
        suspicion_timeout_ns: u64,
    ) -> (r: ApplyOutcome)
        requires
            old(self).wf(),
        ensures
            final(self).wf(),
            ({
                let ev = EventView::Suspect { id, incarnation, from };
                &&& r == outcome_of(old(self)@, ev)
                &&& final(self)@ == applied(old(self)@, ev, now_ns, suspicion_timeout_ns)
            }),
    {
        if let Some(l) = self.local_id {
            if l == id {
                return ApplyOutcome::SelfRefutationNeeded;
            }
        }
        let ghost m = self@;
        match self.find(id) {
            Some(i) => {
                let known: Incarnation = self.entries[i].incarnation;
                if incarnation < known || (incarnation == known && self.entries[i].state
                    != MemberState::Alive) {
                    return ApplyOutcome::Ignored;
                }
                let deadline: u64 = now_ns.saturating_add(suspicion_timeout_ns);
                self.set_at(i, MemberState::Suspect, incarnation, deadline);
                proof {
                    let ev = EventView::Suspect { id, incarnation, from };
                    assert(self@ =~= applied(m, ev, now_ns, suspicion_timeout_ns));
                }
                ApplyOutcome::Updated
            },
            None => ApplyOutcome::Ignored,
        }
    }

    fn apply_dead(&mut self, id: MemberId, incarnation: Incarnation) -> (r: ApplyOutcome)
        requires
            old(self).wf(),
        ensures
            final(self).wf(),
            ({
                let ev = EventView::Leave { id, incarnation };
                &&& r == outcome_of(old(self)@, ev)
                &&& final(self)@ == applied(old(self)@, ev, 0, 0)
            }),
    {
        if let Some(l) = self.local_id {
            if l == id {
                return ApplyOutcome::SelfRefutationNeeded;
            }
        }
        let ghost m = self@;
        match self.find(id) {
            Some(i) => {
                let known: Incarnation = self.entries[i].incarnation;
                if incarnation < known || (incarnation == known && self.entries[i].state
                    == MemberState::Dead) {
                    return ApplyOutcome::Ignored;
                }
                self.set_at(i, MemberState::Dead, incarnation, 0);
                proof {
                    let ev = EventView::Leave { id, incarnation };
                    assert(self@ =~= applied(m, ev, 0, 0));
                }
                ApplyOutcome::Updated
            },
            None => ApplyOutcome::Ignored,
        }
    }

    /// Applies a gossip event and says what it did, so that the caller can
    /// decide whether to spread it further.
    pub fn apply(&mut self, event: &GossipEvent, now_ns: u64, suspicion_timeout_ns: u64) -> (r:
        ApplyOutcome)
        requires
            old(self).wf(),
        ensures
            final(self).wf(),
            r == outcome_of(old(self)@, event@),
            final(self)@ == applied(old(self)@, event@, now_ns, suspicion_timeout_ns),
    {
        match event {
            GossipEvent::Alive { id, name, addr, discovery_addr, birthdate, incarnation } => {
                let member: Member = Member::new(
                    *id,
                    name.as_str(),
                    *addr,
                    *discovery_addr,
                    *birthdate,
                );
                self.apply_alive(member, *incarnation)
            },
            GossipEvent::Suspect { id, incarnation, from } => self.apply_suspect(
                *id,
                *incarnation,
                *from,
                now_ns,
                suspicion_timeout_ns,
            ),
            GossipEvent::Dead { id, incarnation, from } => self.apply_dead(*id, *incarnation),
            GossipEvent::Leave { id, incarnation } => self.apply_dead(*id, *incarnation),
        }
    }
}

/// The live members' ids.
pub open spec fn live_ids(m: Membership) -> Set<u64> {
    Set::new(|id: u64| is_live(m, id))
}

/// `r` lists every known member, in order, with its state and incarnation.
pub open spec fn is_listing(m: Membership, r: Seq<(Member, MemberState, Incarnation)>) -> bool {
    &&& forall|i: int, j: int|
        0 <= i < j < r.len() ==> before((#[trigger] r[i]).0@, (#[trigger] r[j]).0@)
    &&& forall|i: int|
        0 <= i < r.len() ==> {
            let id = (#[trigger] r[i]).0@.id.0;
            &&& m.entries.contains_key(id)
            &&& m.entries[id].member == r[i].0@
            &&& m.entries[id].state == r[i].1
            &&& m.entries[id].incarnation == r[i].2
        }
    &&& forall|id: u64| #[trigger]
        m.entries.contains_key(id) ==> exists|i: int|
            0 <= i < r.len() && (#[trigger] r[i]).0@.id.0 == id
}

/// `r` lists, once each, the members whose suspicion has run out.
pub open spec fn is_promotion(m: Membership, now_ns: u64, r: Seq<(MemberId, Incarnation)>) -> bool {
    &&& forall|i: int, j: int| 0 <= i < j < r.len() ==> (#[trigger] r[i]).0 != (#[trigger] r[j]).0
    &&& forall|i: int|
        0 <= i < r.len() ==> {
            let id = (#[trigger] r[i]).0.0;
            &&& m.entries.contains_key(id)
            &&& expired(m.entries[id], now_ns)
            &&& m.entries[id].incarnation == r[i].1
        }
    &&& forall|id: u64|
        (#[trigger] m.entries.contains_key(id)) && expired(m.entries[id], now_ns) ==> exists|i: int|
            0 <= i < r.len() && (#[trigger] r[i]).0.0 == id
}

impl MembershipView {
    /// The live members in order. The first is the coordinator, and is marked
    /// as such.
    pub fn snapshot(&self) -> (r: Vec<Member>)
        requires
            self.wf(),
        ensures
            is_snapshot(self@, members_view(r@)),
    {
        let ghost s = entries_view(self.entries@);
        let mut out: Vec<Member> = Vec::new();
        let ghost mut from: Seq<int> = Seq::empty();
        let mut i: usize = 0;
        while i < self.entries.len()
            invariant
                self.wf(),
                i <= self.entries@.len(),
                s == entries_view(self.entries@),
                self@.entries == by_id(s),
                from.len() == out@.len(),
                forall|a: int| 0 <= a < from.len() ==> 0 <= #[trigger] from[a] < i,
                forall|a: int, b: int|
                    0 <= a < b < from.len() ==> #[trigger] from[a] < #[trigger] from[b],
                forall|a: int|
                    0 <= a < from.len() ==> s[#[trigger] from[a]].state != MemberState::Dead
                        && out@[a]@ == (MemberView {
                        is_coordinator: a == 0,
                        ..s[from[a]].member
                    }),
                forall|j: int|
                    0 <= j < i && (#[trigger] s[j]).state != MemberState::Dead ==> exists|a: int|
                        0 <= a < from.len() && #[trigger] from[a] == j,
            decreases self.entries@.len() - i,
        {
            assert(s[i as int] == self.entries@[i as int]@);
            if self.entries[i].state != MemberState::Dead {
                let ghost before_from = from;
                let mut m: Member = self.entries[i].member.clone();
                m.is_coordinator = out.len() == 0;
                out.push(m);
                proof {
                    from = from.push(i as int);
                    assert(from[before_from.len() as int] == i);
                    assert forall|j: int|
                        0 <= j < i + 1 && (#[trigger] s[j]).state
                            != MemberState::Dead implies exists|a: int|
                        0 <= a < from.len() && #[trigger] from[a] == j by {
                        if j < i {
                            let a = choose|a: int|
                                0 <= a < before_from.len() && #[trigger] before_from[a] == j;
                            assert(from[a] == j);
                        }
                    }
                }
            }
            i = i + 1;
        }
        proof {
            let r = members_view(out@);
            assert forall|a: int, b: int| 0 <= a < b < r.len() implies before(
                #[trigger] r[a],
                #[trigger] r[b],
            ) by {
                assert(from[a] < from[b]);
                assert(before(s[from[a]].member, s[from[b]].member));
            }
            assert forall|a: int| 0 <= a < r.len() implies is_live(
                self@,
                (#[trigger] r[a]).id.0,
            ) && r[a] == (MemberView {
                is_coordinator: a == 0,
                ..self@.entries[r[a].id.0].member
            }) by {
                lemma_by_id(s, from[a]);
            }
            assert forall|id: u64| #[trigger] is_live(self@, id) implies exists|a: int|
                0 <= a < r.len() && (#[trigger] r[a]).id.0 == id by {
                let k = choose|k: int| 0 <= k < s.len() && (#[trigger] s[k]).member.id.0 == id;
                lemma_by_id(s, k);
                let a = choose|a: int| 0 <= a < from.len() && #[trigger] from[a] == k;
                assert(r[a].id.0 == id);
            }
        }
        out
    }

    /// Every known member, dead ones too, with state and incarnation.
    pub fn snapshot_all(&self) -> (r: Vec<(Member, MemberState, Incarnation)>)
        requires
            self.wf(),
        ensures
            is_listing(self@, r@),
    {
        let ghost s = entries_view(self.entries@);
        let mut out: Vec<(Member, MemberState, Incarnation)> = Vec::new();
        let mut i: usize = 0;
        while i < self.entries.len()
            invariant
                i <= self.entries@.len(),
                s == entries_view(self.entries@),
                out@.len() == i,
                forall|a: int|
                    0 <= a < i ==> (#[trigger] out@[a]).0@ == s[a].member && out@[a].1 == s[a].state
                        && out@[a].2 == s[a].incarnation,
            decreases self.entries@.len() - i,
        {
            assert(s[i as int] == self.entries@[i as int]@);
            out.push(
                (self.entries[i].member.clone(), self.entries[i].state, self.entries[i].incarnation),
            );
            i = i + 1;
        }
        proof {
            assert forall|a: int, b: int| 0 <= a < b < out@.len() implies before(
                (#[trigger] out@[a]).0@,
                (#[trigger] out@[b]).0@,
            ) by {
                assert(before(s[a].member, s[b].member));
            }
            assert forall|a: int| 0 <= a < out@.len() implies {
                let id = (#[trigger] out@[a]).0@.id.0;
                &&& self@.entries.contains_key(id)
                &&& self@.entries[id].member == out@[a].0@
                &&& self@.entries[id].state == out@[a].1
                &&& self@.entries[id].incarnation == out@[a].2
            } by {
                lemma_by_id(s, a);
            }
            assert forall|id: u64| #[trigger] self@.entries.contains_key(id) implies exists|a: int|
                0 <= a < out@.len() && (#[trigger] out@[a]).0@.id.0 == id by {
                let k = choose|k: int| 0 <= k < s.len() && (#[trigger] s[k]).member.id.0 == id;
                assert(out@[k].0@.id.0 == id);
            }
        }
        out
    }

    /// How many members are not dead.
    pub fn live_count(&self) -> (r: usize)
        requires
            self.wf(),
        ensures
            live_ids(self@).finite(),
            r == live_ids(self@).len(),
    {
        let ghost s = entries_view(self.entries@);
        let ghost mut seen: Set<u64> = Set::empty();
        let mut count: usize = 0;
        let mut i: usize = 0;
        while i < self.entries.len()
            invariant
                i <= self.entries@.len(),
                s == entries_view(self.entries@),
                distinct_ids(s),
                count <= i,
                seen.finite(),
                seen.len() == count,
                forall|id: u64| #[trigger]
                    seen.contains(id) <==> exists|j: int|
                        0 <= j < i && (#[trigger] s[j]).member.id.0 == id && s[j].state
                            != MemberState::Dead,
            decreases self.entries@.len() - i,
        {
            assert(s[i as int] == self.entries@[i as int]@);
            let ghost was = seen;
            if self.entries[i].state != MemberState::Dead {
                count = count + 1;
                proof {
                    let id = s[i as int].member.id.0;
                    assert(!seen.contains(id)) by {
                        if seen.contains(id) {
                            let j = choose|j: int|
                                0 <= j < i && (#[trigger] s[j]).member.id.0 == id && s[j].state
                                    != MemberState::Dead;
                            assert(s[j].member.id != s[i as int].member.id);
                        }
                    }
                    seen = seen.insert(id);
                }
            }
            proof {
                assert forall|id: u64| #[trigger] seen.contains(id) <==> exists|j: int|
                    0 <= j < i + 1 && (#[trigger] s[j]).member.id.0 == id && s[j].state
                        != MemberState::Dead by {
                    if was.contains(id) {
                        let j = choose|j: int|
                            0 <= j < i && (#[trigger] s[j]).member.id.0 == id && s[j].state
                                != MemberState::Dead;
                        assert(0 <= j < i + 1 && s[j].member.id.0 == id);
                    }
                }
            }
            i = i + 1;
        }
        proof {
            assert forall|id: u64| #[trigger] seen.contains(id) <==> live_ids(self@).contains(id) by {
                if seen.contains(id) {
                    let j = choose|j: int|
                        0 <= j < i && (#[trigger] s[j]).member.id.0 == id && s[j].state
                            != MemberState::Dead;
                    lemma_by_id(s, j);
                }
                if live_ids(self@).contains(id) {
                    let k = choose|k: int| 0 <= k < s.len() && (#[trigger] s[k]).member.id.0 == id;
                    lemma_by_id(s, k);
                    assert(s[k].state != MemberState::Dead);
                }
            }
            assert(seen =~= live_ids(self@));
        }
        count
    }

    /// The local node's id.
    pub fn local_id(&self) -> (r: Option<MemberId>)
        ensures
            r == self@.local,
    {
        self.local_id
    }

    /// The local node's incarnation.
    pub fn local_incarnation(&self) -> (r: Incarnation)
        ensures
            r == self@.local_incarnation,
    {
        self.local_incarnation
    }

    /// Raises the local incarnation, to refute a suspicion, and returns the new
    /// one.
    pub fn bump_local_incarnation(&mut self) -> (r: Incarnation)
        requires
            old(self).wf(),
            old(self)@.local_incarnation < u64::MAX,
        ensures
            final(self).wf(),
            r == old(self)@.local_incarnation + 1,
            final(self)@.local_incarnation == r,
            final(self)@.local == old(self)@.local,
            final(self)@.entries == (match old(self)@.local {
                Some(l) => old(self)@.entries.insert(
                    l.0,
                    EntryView {
                        member: old(self)@.entries[l.0].member,
                        state: MemberState::Alive,
                        incarnation: r,
                        deadline: 0,
                    },
                ),
                None => old(self)@.entries,
            }),
    {
        let new_inc: Incarnation = self.local_incarnation + 1;
        if let Some(l) = self.local_id {
            if let Some(i) = self.find(l) {
                self.set_at(i, MemberState::Alive, new_inc, 0);
            }
        }
        self.local_incarnation = new_inc;
        new_inc
    }

    /// The entry of a member.
    pub fn get(&self, id: MemberId) -> (r: Option<MemberEntry>)
        requires
            self.wf(),
        ensures
            match r {
                Some(e) => self@.entries.contains_key(id.0) && e@ == self@.entries[id.0],
                None => !self@.entries.contains_key(id.0),
            },
    {
        match self.find(id) {
            Some(i) => Some(self.entries[i].clone()),
            None => None,
        }
    }

    /// The entry of a member that is bound to `addr`.
    pub fn find_by_discovery_addr(&self, addr: SocketAddr) -> (r: Option<MemberEntry>)
        requires
            self.wf(),
        ensures
            match r {
                Some(e) => {
                    &&& e@.member.discovery_addr == addr
                    &&& self@.entries.contains_key(e@.member.id.0)
                    &&& e@ == self@.entries[e@.member.id.0]
                },
                None => forall|id: u64| #[trigger]
                    self@.entries.contains_key(id) ==> self@.entries[id].member.discovery_addr
                        != addr,
            },
    {
        let ghost s = entries_view(self.entries@);
        let mut i: usize = 0;
        while i < self.entries.len()
            invariant
                i <= self.entries@.len(),
                s == entries_view(self.entries@),
                distinct_ids(s),
                self@.entries == by_id(s),
                forall|j: int| 0 <= j < i ==> (#[trigger] s[j]).member.discovery_addr != addr,
            decreases self.entries@.len() - i,
        {
            assert(s[i as int] == self.entries@[i as int]@);
            if self.entries[i].member.discovery_addr == addr {
                proof {
                    lemma_by_id(s, i as int);
                }
                return Some(self.entries[i].clone());
            }
            i = i + 1;
        }
        proof {
            assert forall|id: u64| #[trigger]
                self@.entries.contains_key(id) implies self@.entries[id].member.discovery_addr
                != addr by {
                let k = choose|k: int| 0 <= k < s.len() && (#[trigger] s[k]).member.id.0 == id;
                lemma_by_id(s, k);
            }
        }
        None
    }

    /// Declares dead every member whose suspicion has run out, and returns
    /// those, so that the caller can spread the news.
    pub fn reap_suspects(&mut self, now_ns: u64) -> (r: Vec<(MemberId, Incarnation)>)
        requires
            old(self).wf(),
        ensures
            final(self).wf(),
            final(self)@ == reaped(old(self)@, now_ns),
            is_promotion(old(self)@, now_ns, r@),
    {
        let ghost s = entries_view(self.entries@);
        let ghost n = s.len();
        let mut promoted: Vec<(MemberId, Incarnation)> = Vec::new();
        let ghost mut from: Seq<int> = Seq::empty();
        let mut i: usize = 0;
        while i < self.entries.len()
            invariant
                n == s.len(),
                s == entries_view(old(self).entries@),
                self.entries@.len() == n,
                i <= n,
                distinct_ids(s),
                distinct_ids(entries_view(self.entries@)),
                in_order(entries_view(self.entries@)),
                self@.local == old(self)@.local,
                self@.local_incarnation == old(self)@.local_incarnation,
                forall|j: int|
                    0 <= j < n ==> (#[trigger] entries_view(self.entries@)[j]) == (if j < i {
                        reaped_entry(s[j], now_ns)
                    } else {
                        s[j]
                    }),
                from.len() == promoted@.len(),
                forall|a: int| 0 <= a < from.len() ==> 0 <= #[trigger] from[a] < i,
                forall|a: int, b: int|
                    0 <= a < b < from.len() ==> #[trigger] from[a] < #[trigger] from[b],
                forall|a: int|
                    0 <= a < from.len() ==> expired(s[#[trigger] from[a]], now_ns) && promoted@[a]
                        == (s[from[a]].member.id, s[from[a]].incarnation),
                forall|j: int|
                    0 <= j < i && expired(#[trigger] s[j], now_ns) ==> exists|a: int|
                        0 <= a < from.len() && #[trigger] from[a] == j,
            decreases n - i,
        {
            let ghost before_from = from;
            assert(entries_view(self.entries@)[i as int] == self.entries@[i as int]@);
            if self.entries[i].state == MemberState::Suspect && self.entries[i].suspect_deadline_ns
                <= now_ns {
                let id: MemberId = self.entries[i].member.id;
                let inc: Incarnation = self.entries[i].incarnation;
                let deadline: u64 = self.entries[i].suspect_deadline_ns;
                self.set_at(i, MemberState::Dead, inc, deadline);
                promoted.push((id, inc));
                proof {
                    from = from.push(i as int);
                    assert(from[before_from.len() as int] == i);
                }
            }
            proof {
                assert forall|j: int|
                    0 <= j < i + 1 && expired(#[trigger] s[j], now_ns) implies exists|a: int|
                    0 <= a < from.len() && #[trigger] from[a] == j by {
                    if j < i {
                        let a = choose|a: int|
                            0 <= a < before_from.len() && #[trigger] before_from[a] == j;
                        assert(from[a] == j);
                    }
                }
            }
            i = i + 1;
        }
        proof {
            let t = entries_view(self.entries@);
            let m = old(self)@;
            assert forall|id: u64| #[trigger] self@.entries.contains_key(id)
                <==> reaped(m, now_ns).entries.contains_key(id) by {
                if self@.entries.contains_key(id) {
                    let k = choose|k: int| 0 <= k < t.len() && (#[trigger] t[k]).member.id.0 == id;
                    lemma_by_id(s, k);
                }
                if m.entries.contains_key(id) {
                    let k = choose|k: int| 0 <= k < s.len() && (#[trigger] s[k]).member.id.0 == id;
                    lemma_by_id(t, k);
                }
            }
            assert forall|id: u64| #[trigger] self@.entries.contains_key(id) implies self@.entries[id]
                == reaped(m, now_ns).entries[id] by {
                let k = choose|k: int| 0 <= k < t.len() && (#[trigger] t[k]).member.id.0 == id;
                lemma_by_id(t, k);
                lemma_by_id(s, k);
            }
            assert(self@ =~= reaped(m, now_ns));
            assert forall|a: int, b: int| 0 <= a < b < promoted@.len() implies (
            #[trigger] promoted@[a]).0 != (#[trigger] promoted@[b]).0 by {
                assert(from[a] < from[b]);
                assert(s[from[a]].member.id != s[from[b]].member.id);
            }
            assert forall|a: int| 0 <= a < promoted@.len() implies {
                let id = (#[trigger] promoted@[a]).0.0;
                &&& m.entries.contains_key(id)
                &&& expired(m.entries[id], now_ns)
                &&& m.entries[id].incarnation == promoted@[a].1
            } by {
                lemma_by_id(s, from[a]);
            }
            assert forall|id: u64|
                (#[trigger] m.entries.contains_key(id)) && expired(
                    m.entries[id],
                    now_ns,
                ) implies exists|a: int| 0 <= a < promoted@.len() && (#[trigger] promoted@[a]).0.0
                == id by {
                let k = choose|k: int| 0 <= k < s.len() && (#[trigger] s[k]).member.id.0 == id;
                lemma_by_id(s, k);
                let a = choose|a: int| 0 <= a < from.len() && #[trigger] from[a] == k;
                assert(promoted@[a].0.0 == id);
            }
        }
        promoted
    }

    /// Forgets the dead members whose suspicion ran out at least
    /// `older_than_ns` ago.
    pub fn evict_tombstones(&mut self, older_than_ns: u64, now_ns: u64)
        requires
            old(self).wf(),
        ensures
            final(self).wf(),
            final(self)@ == without_tombstones(old(self)@, older_than_ns, now_ns),
    {
        let ghost m = self@;
        let mut i: usize = 0;
        while i < self.entries.len()
            invariant
                i <= self.entries@.len(),
                m == old(self)@,
                old(self).wf(),
                distinct_ids(entries_view(self.entries@)),
                in_order(entries_view(self.entries@)),
                self@.local == m.local,
                self@.local_incarnation == m.local_incarnation,
                self@.entries == by_id(entries_view(self.entries@)),
                forall|j: int|
                    0 <= j < i ==> !forgettable(
                        #[trigger] entries_view(self.entries@)[j],
                        older_than_ns,
                        now_ns,
                    ),
                forall|id: u64| #[trigger]
                    self@.entries.contains_key(id) ==> m.entries.contains_key(id)
                        && self@.entries[id] == m.entries[id],
                forall|id: u64| #[trigger]
                    m.entries.contains_key(id) && !forgettable(
                        m.entries[id],
                        older_than_ns,
                        now_ns,
                    ) ==> self@.entries.contains_key(id),
            decreases self.entries@.len() - i,
        {
            let ghost s = entries_view(self.entries@);
            assert(s[i as int] == self.entries@[i as int]@);
            let deadline: u64 = self.entries[i].suspect_deadline_ns;
            if self.entries[i].state == MemberState::Dead && deadline != 0
                && now_ns.saturating_sub(deadline) >= older_than_ns {
                proof {
                    lemma_by_id(s, i as int);
                }
                self.remove_at(i);
                proof {
                    let t = entries_view(self.entries@);
                    assert forall|j: int| 0 <= j < i implies !forgettable(
                        #[trigger] t[j],
                        older_than_ns,
                        now_ns,
                    ) by {
                        assert(t[j] == s[j]);
                    }
                }
            } else {
                i = i + 1;
            }
        }
        proof {
            let s = entries_view(self.entries@);
            let w = without_tombstones(m, older_than_ns, now_ns);
            assert forall|id: u64| #[trigger] self@.entries.contains_key(id)
                <==> w.entries.contains_key(id) by {
                if self@.entries.contains_key(id) {
                    let k = choose|k: int| 0 <= k < s.len() && (#[trigger] s[k]).member.id.0 == id;
                    lemma_by_id(s, k);
                }
            }
            assert(self@ =~= w);
        }
    }
}

impl Default for MembershipView {
    /// A view that knows nobody, not even a local node.
    fn default() -> (r: Self)
        ensures
            r.wf(),
            r@ == (Membership {
                entries: Map::empty(),
                local: None,
                local_incarnation: 0,
            }),
    {
        let r: MembershipView = MembershipView {
            entries: Vec::new(),
            local_id: None,
            local_incarnation: 0,
        };
        assert(r@.entries =~= Map::<u64, EntryView>::empty());
        r
    }
}

} // verus!
