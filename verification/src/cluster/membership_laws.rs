//! What holds of the membership view whatever gossip arrives: incarnations
//! only grow, death is final, there is one coordinator, and nodes that heard
//! the same news agree.

use vstd::prelude::*;

use crate::cluster::membership::{
    applied, event_id, event_incarnation, is_listing, is_live, is_promotion, is_snapshot,
    outcome_of, reaped, without_tombstones, ApplyOutcome, MemberState, Membership,
};
use crate::cluster::message::EventView;
use crate::ids::MemberId;
use crate::member::{before, Member, MemberView};

verus! {

/// Applying an event forgets nobody, and lowers nobody's incarnation.
pub proof fn law_incarnation_never_decreases(
    m: Membership,
    ev: EventView,
    now_ns: u64,
    timeout_ns: u64,
    id: u64,
)
    requires
        m.entries.contains_key(id),
    ensures
        applied(m, ev, now_ns, timeout_ns).entries.contains_key(id),
        applied(m, ev, now_ns, timeout_ns).entries[id].incarnation >= m.entries[id].incarnation,
{
}

/// A member that is dead stays dead until a higher incarnation is heard of.
pub proof fn law_death_is_final(
    m: Membership,
    ev: EventView,
    now_ns: u64,
    timeout_ns: u64,
    id: u64,
)
    requires
        m.entries.contains_key(id),
        m.entries[id].state == MemberState::Dead,
    ensures
        ({
            let e = applied(m, ev, now_ns, timeout_ns).entries[id];
            e.state == MemberState::Dead || e.incarnation > m.entries[id].incarnation
        }),
{
}

/// Gossip never changes what a node knows of itself.
pub proof fn law_local_node_is_untouched(
    m: Membership,
    ev: EventView,
    now_ns: u64,
    timeout_ns: u64,
)
    requires
        m.local is Some,
    ensures
        ({
            let n = applied(m, ev, now_ns, timeout_ns);
            let l = (m.local->0).0;
            &&& n.local == m.local
            &&& n.local_incarnation == m.local_incarnation
            &&& n.entries.contains_key(l) == m.entries.contains_key(l)
            &&& n.entries[l] == m.entries[l]
        }),
{
}

/// Hearing the same news twice is hearing it once.
pub proof fn law_apply_is_idempotent(m: Membership, ev: EventView, now_ns: u64, timeout_ns: u64)
    ensures
        ({
            let n = applied(m, ev, now_ns, timeout_ns);
            &&& applied(n, ev, now_ns, timeout_ns) == n
            &&& outcome_of(n, ev) != ApplyOutcome::NewMember
            &&& outcome_of(n, ev) != ApplyOutcome::Updated
        }),
{
}

/// A snapshot marks one coordinator, its first member; only an empty snapshot
/// has none.
pub proof fn law_one_coordinator(m: Membership, r: Seq<MemberView>)
    requires
        is_snapshot(m, r),
    ensures
        forall|i: int| 0 <= i < r.len() ==> ((#[trigger] r[i]).is_coordinator <==> i == 0),
{
}

/// Two views know the same live members.
pub open spec fn same_live_members(m: Membership, n: Membership) -> bool {
    forall|id: u64| #[trigger]
        is_live(m, id) == is_live(n, id) && (is_live(m, id) ==> m.entries[id].member
            == n.entries[id].member)
}

/// The first `n` members of two lists are the same.
spec fn agree_upto(r: Seq<MemberView>, t: Seq<MemberView>, n: int) -> bool {
    n <= t.len() && forall|j: int| 0 <= j < n ==> (#[trigger] r[j]) == t[j]
}

proof fn lemma_rank(m: Membership, n: Membership, r: Seq<MemberView>, t: Seq<MemberView>, i: int)
    requires
        is_snapshot(m, r),
        is_snapshot(n, t),
        same_live_members(m, n),
        forall|id: u64| is_live(m, id) ==> (#[trigger] m.entries[id]).member.id.0 == id,
        0 <= i < r.len(),
        agree_upto(r, t, i),
    ensures
        i < t.len(),
        r[i] == t[i],
{
    let x = r[i];
    assert(is_live(m, x.id.0));
    assert(is_live(n, x.id.0));
    let k = choose|k: int| 0 <= k < t.len() && (#[trigger] t[k]).id.0 == x.id.0;
    if k < i {
        assert(r[k] == t[k]);
        assert(before(r[k], r[i]));
    }
    assert(i <= k);
    let y = t[i];
    assert(is_live(n, y.id.0));
    assert(is_live(m, y.id.0));
    let j = choose|j: int| 0 <= j < r.len() && (#[trigger] r[j]).id.0 == y.id.0;
    if j < i {
        assert(r[j] == t[j]);
        assert(before(t[j], t[i]));
    }
    assert(i <= j);
    if i < k && i < j {
        assert(before(t[i], t[k]));
        assert(before(r[i], r[j]));
    }
}

proof fn lemma_ranks(m: Membership, n: Membership, r: Seq<MemberView>, t: Seq<MemberView>, i: int)
    requires
        is_snapshot(m, r),
        is_snapshot(n, t),
        same_live_members(m, n),
        forall|id: u64| is_live(m, id) ==> (#[trigger] m.entries[id]).member.id.0 == id,
        0 <= i <= r.len(),
    ensures
        agree_upto(r, t, i),
    decreases i,
{
    if i > 0 {
        lemma_ranks(m, n, r, t, i - 1);
        lemma_rank(m, n, r, t, i - 1);
    }
}

/// Nodes that know the same live members list them alike, and so agree on the
/// coordinator.
pub proof fn law_same_members_same_snapshot(
    m: Membership,
    n: Membership,
    r: Seq<MemberView>,
    t: Seq<MemberView>,
)
    requires
        is_snapshot(m, r),
        is_snapshot(n, t),
        same_live_members(m, n),
        forall|id: u64| is_live(m, id) ==> (#[trigger] m.entries[id]).member.id.0 == id,
    ensures
        r == t,
{
    lemma_ranks(m, n, r, t, r.len() as int);
    assert forall|id: u64| is_live(n, id) implies (#[trigger] n.entries[id]).member.id.0 == id by {
        assert(is_live(m, id));
        assert(m.entries[id].member.id.0 == id);
    }
    assert forall|id: u64| #[trigger] is_live(n, id) == is_live(m, id) && (is_live(n, id)
        ==> n.entries[id].member == m.entries[id].member) by {
        assert(is_live(m, id) == is_live(n, id));
    }
    lemma_ranks(n, m, t, r, t.len() as int);
    if r.len() > t.len() {
        assert(r[t.len() as int] == t[t.len() as int]);
        assert(false);
    }
    if t.len() > r.len() {
        assert(t[r.len() as int] == r[r.len() as int]);
        assert(false);
    }
    assert(r =~= t);
}

// ---------------------------------------------------------------------------
// Convergence
// ---------------------------------------------------------------------------

/// The view after a list of events.
pub open spec fn apply_all(m: Membership, evs: Seq<EventView>, now_ns: u64, timeout_ns: u64) -> Membership
    decreases evs.len(),
{
    if evs.len() == 0 {
        m
    } else {
        applied(apply_all(m, evs.drop_last(), now_ns, timeout_ns), evs.last(), now_ns, timeout_ns)
    }
}

/// An event about a member that the view knows, whose `Alive` form describes
/// that member as the view does.
pub open spec fn about_known(m: Membership, ev: EventView) -> bool {
    &&& m.entries.contains_key(event_id(ev).0)
    &&& ev matches EventView::Alive { member, .. } ==> m.entries[member.id.0].member == member
}

/// Two events do not call one member alive and suspect at one incarnation.
pub open spec fn compatible(a: EventView, b: EventView) -> bool {
    event_id(a) == event_id(b) && event_incarnation(a) == event_incarnation(b) ==> !(a is Alive
        && b is Suspect) && !(a is Suspect && b is Alive)
}

/// No two events of a list contradict each other.
pub open spec fn all_compatible(evs: Seq<EventView>) -> bool {
    forall|i: int, j: int|
        0 <= i < evs.len() && 0 <= j < evs.len() ==> compatible(
            #[trigger] evs[i],
            #[trigger] evs[j],
        )
}

/// Every event of a list is about a known member.
pub open spec fn all_known(m: Membership, evs: Seq<EventView>) -> bool {
    forall|i: int| 0 <= i < evs.len() ==> about_known(m, #[trigger] evs[i])
}

proof fn lemma_commute(m: Membership, a: EventView, b: EventView, now_ns: u64, timeout_ns: u64)
    requires
        about_known(m, a),
        about_known(m, b),
        compatible(a, b),
    ensures
        applied(applied(m, a, now_ns, timeout_ns), b, now_ns, timeout_ns) == applied(
            applied(m, b, now_ns, timeout_ns),
            a,
            now_ns,
            timeout_ns,
        ),
{
    let ab = applied(applied(m, a, now_ns, timeout_ns), b, now_ns, timeout_ns);
    let ba = applied(applied(m, b, now_ns, timeout_ns), a, now_ns, timeout_ns);
    if event_id(a) != event_id(b) {
        assert(ab.entries =~= ba.entries);
    } else {
        let id = event_id(a).0;
        assert(ab.entries[id] == ba.entries[id]);
        assert(ab.entries =~= ba.entries);
    }
}

proof fn lemma_stays_known(
    m: Membership,
    evs: Seq<EventView>,
    ev: EventView,
    now_ns: u64,
    timeout_ns: u64,
)
    requires
        all_known(m, evs),
        about_known(m, ev),
    ensures
        about_known(apply_all(m, evs, now_ns, timeout_ns), ev),
    decreases evs.len(),
{
    if evs.len() > 0 {
        let front = evs.drop_last();
        assert(all_known(m, front));
        lemma_stays_known(m, front, ev, now_ns, timeout_ns);
        lemma_stays_known(m, front, evs.last(), now_ns, timeout_ns);
    }
}

proof fn lemma_move_to_last(
    m: Membership,
    evs: Seq<EventView>,
    k: int,
    now_ns: u64,
    timeout_ns: u64,
)
    requires
        0 <= k < evs.len(),
        all_known(m, evs),
        all_compatible(evs),
    ensures
        apply_all(m, evs, now_ns, timeout_ns) == apply_all(
            m,
            evs.remove(k).push(evs[k]),
            now_ns,
            timeout_ns,
        ),
    decreases evs.len(),
{
    let x = evs[k];
    if k == evs.len() - 1 {
        assert(evs.remove(k).push(x) =~= evs);
    } else {
        let front = evs.drop_last();
        let y = evs.last();
        let rest = front.remove(k);
        assert(all_known(m, front));
        assert(all_compatible(front));
        lemma_move_to_last(m, front, k, now_ns, timeout_ns);
        assert(rest.push(x).drop_last() =~= rest);
        let base = apply_all(m, rest, now_ns, timeout_ns);
        assert(all_known(m, rest)) by {
            assert forall|i: int| 0 <= i < rest.len() implies about_known(m, #[trigger] rest[i]) by {
                let j: int = if i < k {
                    i
                } else {
                    i + 1
                };
                assert(rest[i] == evs[j]);
            }
        }
        assert(about_known(m, evs[k]) && about_known(m, evs[evs.len() - 1]));
        lemma_stays_known(m, rest, x, now_ns, timeout_ns);
        lemma_stays_known(m, rest, y, now_ns, timeout_ns);
        assert(compatible(evs[k], evs[evs.len() - 1]));
        lemma_commute(base, x, y, now_ns, timeout_ns);
        assert(evs.remove(k) =~= rest.push(y));
        assert(rest.push(y).drop_last() =~= rest);
        assert(rest.push(y).push(x).drop_last() =~= rest.push(y));
        assert(apply_all(m, rest.push(x), now_ns, timeout_ns) == applied(
            base,
            x,
            now_ns,
            timeout_ns,
        ));
        assert(apply_all(m, rest.push(y), now_ns, timeout_ns) == applied(
            base,
            y,
            now_ns,
            timeout_ns,
        ));
        assert(apply_all(m, rest.push(y).push(x), now_ns, timeout_ns) == applied(
            applied(base, y, now_ns, timeout_ns),
            x,
            now_ns,
            timeout_ns,
        ));
        assert(front[k] == x);
        assert(apply_all(m, evs, now_ns, timeout_ns) == applied(
            applied(base, x, now_ns, timeout_ns),
            y,
            now_ns,
            timeout_ns,
        ));
    }
}

/// Nodes that hear the same news converge, in whatever order it arrives: lists
/// of the same events about known members, none of which calls a member both
/// alive and suspect at one incarnation, lead to the same view.
pub proof fn law_convergence(
    m: Membership,
    a: Seq<EventView>,
    b: Seq<EventView>,
    now_ns: u64,
    timeout_ns: u64,
)
    requires
        a.to_multiset() == b.to_multiset(),
        all_known(m, a),
        all_compatible(a),
    ensures
        apply_all(m, a, now_ns, timeout_ns) == apply_all(m, b, now_ns, timeout_ns),
    decreases a.len(),
{
    broadcast use vstd::seq_lib::group_to_multiset_ensures;

    assert(a.len() == b.len()) by {
        assert(a.to_multiset().len() == a.len());
        assert(b.to_multiset().len() == b.len());
    }
    if a.len() > 0 {
        let x = a.last();
        assert(b.contains(x)) by {
            assert(a.contains(x)) by {
                assert(a[a.len() - 1] == x);
            }
            assert(a.to_multiset().count(x) > 0);
            assert(b.to_multiset().count(x) > 0);
        }
        let k = choose|k: int| 0 <= k < b.len() && b[k] == x;
        assert(all_known(m, b) && all_compatible(b)) by {
            assert forall|i: int| 0 <= i < b.len() implies a.contains(#[trigger] b[i]) by {
                assert(b.contains(b[i]));
                assert(b.to_multiset().count(b[i]) > 0);
                assert(a.to_multiset().count(b[i]) > 0);
            }
            assert forall|i: int| 0 <= i < b.len() implies about_known(m, #[trigger] b[i]) by {
                assert(a.contains(b[i]));
            }
            assert forall|i: int, j: int|
                0 <= i < b.len() && 0 <= j < b.len() implies compatible(
                #[trigger] b[i],
                #[trigger] b[j],
            ) by {
                assert(a.contains(b[i]));
                assert(a.contains(b[j]));
            }
        }
        lemma_move_to_last(m, b, k, now_ns, timeout_ns);
        let rest = b.remove(k);
        let front = a.drop_last();
        assert(rest.push(x).drop_last() =~= rest);
        assert(front.to_multiset() =~= rest.to_multiset()) by {
            assert(front =~= a.remove(a.len() - 1));
            vstd::seq_lib::to_multiset_remove(a, a.len() - 1);
            vstd::seq_lib::to_multiset_remove(b, k);
        }
        law_convergence(m, front, rest, now_ns, timeout_ns);
    }
}

// ---------------------------------------------------------------------------
// What each kind of news does
// ---------------------------------------------------------------------------

/// Two views know the same of everybody but `id`, and of themselves.
pub open spec fn same_but_for(m: Membership, n: Membership, id: u64) -> bool {
    &&& n.local == m.local
    &&& n.local_incarnation == m.local_incarnation
    &&& forall|o: u64|
        o != id ==> (#[trigger] n.entries.contains_key(o) <==> m.entries.contains_key(o))
    &&& forall|o: u64| o != id ==> #[trigger] n.entries[o] == m.entries[o]
}

/// Who is said to be alive is alive from then on, as the news describes it,
/// where it was not known, where the news is newer than what was known, or where
/// it was suspected at the same incarnation. Any other such news changes
/// nothing, and none changes what is known of others.
pub proof fn law_alive_news(
    m: Membership,
    member: MemberView,
    incarnation: u64,
    now_ns: u64,
    timeout_ns: u64,
)
    requires
        m.local != Some(member.id),
    ensures
        ({
            let id = member.id.0;
            let n = applied(m, EventView::Alive { member, incarnation }, now_ns, timeout_ns);
            let e = m.entries[id];
            &&& n.entries.contains_key(id)
            &&& !m.entries.contains_key(id) || incarnation > e.incarnation || (incarnation
                == e.incarnation && e.state == MemberState::Suspect) ==> {
                &&& n.entries[id].member == member
                &&& n.entries[id].state == MemberState::Alive
                &&& n.entries[id].incarnation == incarnation
                &&& n.entries[id].deadline == 0
            }
            &&& m.entries.contains_key(id) && (incarnation < e.incarnation || (incarnation
                == e.incarnation && e.state != MemberState::Suspect)) ==> n.entries[id] == e
            &&& same_but_for(m, n, id)
        }),
{
}

/// A member that is said to be suspect is suspected from then on, for as long as
/// the timeout asks, where the news is newer than what was known or where the
/// member was alive at the same incarnation. Any other such news changes nothing;
/// a stranger stays a stranger.
pub proof fn law_suspect_news(
    m: Membership,
    id: MemberId,
    incarnation: u64,
    from: MemberId,
    now_ns: u64,
    timeout_ns: u64,
)
    requires
        m.local != Some(id),
    ensures
        ({
            let n = applied(m, EventView::Suspect { id, incarnation, from }, now_ns, timeout_ns);
            let e = m.entries[id.0];
            &&& n.entries.contains_key(id.0) <==> m.entries.contains_key(id.0)
            &&& m.entries.contains_key(id.0) && (incarnation > e.incarnation || (incarnation
                == e.incarnation && e.state == MemberState::Alive)) ==> {
                &&& n.entries[id.0].member == e.member
                &&& n.entries[id.0].state == MemberState::Suspect
                &&& n.entries[id.0].incarnation == incarnation
                &&& now_ns + timeout_ns <= u64::MAX ==> n.entries[id.0].deadline == now_ns
                    + timeout_ns
                &&& now_ns + timeout_ns > u64::MAX ==> n.entries[id.0].deadline == u64::MAX
            }
            &&& m.entries.contains_key(id.0) && (incarnation < e.incarnation || (incarnation
                == e.incarnation && e.state != MemberState::Alive)) ==> n.entries[id.0] == e
            &&& same_but_for(m, n, id.0)
        }),
{
}

/// A member that is said to have died or left is dead from then on, where the
/// news is not older than what was known. Older news changes nothing, and a
/// stranger stays a stranger.
pub proof fn law_dead_news(
    m: Membership,
    id: MemberId,
    incarnation: u64,
    from: MemberId,
    left: bool,
    now_ns: u64,
    timeout_ns: u64,
)
    requires
        m.local != Some(id),
    ensures
        ({
            let ev = if left {
                EventView::Leave { id, incarnation }
            } else {
                EventView::Dead { id, incarnation, from }
            };
            let n = applied(m, ev, now_ns, timeout_ns);
            let e = m.entries[id.0];
            &&& n.entries.contains_key(id.0) <==> m.entries.contains_key(id.0)
            &&& m.entries.contains_key(id.0) && incarnation >= e.incarnation ==> {
                &&& n.entries[id.0].member == e.member
                &&& n.entries[id.0].state == MemberState::Dead
                &&& n.entries[id.0].incarnation == incarnation
            }
            &&& m.entries.contains_key(id.0) && (incarnation < e.incarnation || (incarnation
                == e.incarnation && e.state == MemberState::Dead)) ==> n.entries[id.0] == e
            &&& same_but_for(m, n, id.0)
        }),
{
}

/// A node is told to refute what is said against it, and only then.
pub proof fn law_accusations_are_refuted(m: Membership, ev: EventView)
    ensures
        outcome_of(m, ev) == ApplyOutcome::SelfRefutationNeeded <==> match ev {
            EventView::Alive { .. } => false,
            EventView::Suspect { id, .. } => m.local == Some(id),
            EventView::Dead { id, .. } => m.local == Some(id),
            EventView::Leave { id, .. } => m.local == Some(id),
        },
        outcome_of(m, ev) == ApplyOutcome::NewMember <==> match ev {
            EventView::Alive { member, .. } => m.local != Some(member.id)
                && !m.entries.contains_key(member.id.0),
            _ => false,
        },
{
}

/// A live member that comes under suspicion dies when the timeout has passed, not
/// earlier, unless something else is heard of it; everybody who is not suspected
/// stays as they are.
pub proof fn law_suspicion_lasts_for_the_timeout(
    m: Membership,
    id: MemberId,
    incarnation: u64,
    from: MemberId,
    now_ns: u64,
    timeout_ns: u64,
    later_ns: u64,
)
    requires
        m.local != Some(id),
        m.entries.contains_key(id.0),
        m.entries[id.0].state == MemberState::Alive,
        m.entries[id.0].incarnation <= incarnation,
        now_ns + timeout_ns <= u64::MAX,
    ensures
        ({
            let n = applied(m, EventView::Suspect { id, incarnation, from }, now_ns, timeout_ns);
            let r = reaped(n, later_ns);
            &&& r.entries.contains_key(id.0)
            &&& r.entries[id.0].state == MemberState::Dead <==> later_ns >= now_ns + timeout_ns
            &&& r.entries[id.0].state == MemberState::Suspect <==> later_ns < now_ns + timeout_ns
            &&& r.entries[id.0].incarnation == incarnation
            &&& r.entries[id.0].member == m.entries[id.0].member
            &&& forall|o: u64| #[trigger]
                r.entries.contains_key(o) <==> m.entries.contains_key(o)
            &&& forall|o: u64|
                o != id.0 && m.entries.contains_key(o) && m.entries[o].state
                    != MemberState::Suspect ==> #[trigger] r.entries[o] == m.entries[o]
        }),
{
}

/// A member that died of a suspicion which ran out at its deadline is forgotten
/// once it has been dead for as long as asked; nobody else is forgotten, and
/// nobody who stays is changed.
pub proof fn law_tombstones_are_kept_for_a_while(
    m: Membership,
    older_than_ns: u64,
    now_ns: u64,
    id: u64,
)
    requires
        m.entries.contains_key(id),
    ensures
        ({
            let e = m.entries[id];
            let n = without_tombstones(m, older_than_ns, now_ns);
            &&& e.state != MemberState::Dead || e.deadline == 0 ==> n.entries.contains_key(id)
            &&& e.state == MemberState::Dead && e.deadline != 0 && e.deadline <= now_ns ==> (
            n.entries.contains_key(id) <==> now_ns - e.deadline < older_than_ns)
            &&& n.entries.contains_key(id) ==> n.entries[id] == e
            &&& n.local == m.local
            &&& n.local_incarnation == m.local_incarnation
        }),
{
}

/// The coordinator is the live member that was born first; among those born at
/// the same time, the one with the least id. The others follow in that order, and
/// a member is listed if and only if it is not dead.
pub proof fn law_oldest_member_leads(m: Membership, r: Seq<MemberView>, id: u64)
    requires
        is_snapshot(m, r),
        m.entries.contains_key(id),
        m.entries[id].state != MemberState::Dead,
        m.entries[id].member.id.0 == id,
    ensures
        r.len() > 0,
        r[0].is_coordinator,
        r[0].id.0 == id || r[0].birthdate < m.entries[id].member.birthdate || (r[0].birthdate
            == m.entries[id].member.birthdate && r[0].id.0 < id),
        forall|i: int| 0 < i < r.len() ==> !(#[trigger] r[i]).is_coordinator,
        forall|i: int, j: int|
            0 <= i < j < r.len() ==> (#[trigger] r[i]).birthdate < (#[trigger] r[j]).birthdate || (
            r[i].birthdate == r[j].birthdate && r[i].id.0 < r[j].id.0),
        forall|i: int|
            0 <= i < r.len() ==> m.entries.contains_key((#[trigger] r[i]).id.0)
                && m.entries[r[i].id.0].state != MemberState::Dead,
        exists|i: int| 0 <= i < r.len() && (#[trigger] r[i]).id.0 == id,
{
    assert(is_live(m, id));
    let k = choose|k: int| 0 <= k < r.len() && (#[trigger] r[k]).id.0 == id;
    assert(r[k].id.0 == id);
    if k > 0 {
        assert(before(r[0], r[k]));
    }
    assert forall|i: int, j: int| 0 <= i < j < r.len() implies (#[trigger] r[i]).birthdate < (
    #[trigger] r[j]).birthdate || (r[i].birthdate == r[j].birthdate && r[i].id.0 < r[j].id.0) by {
        assert(before(r[i], r[j]));
    }
    assert forall|i: int| 0 <= i < r.len() implies m.entries.contains_key((#[trigger] r[i]).id.0)
        && m.entries[r[i].id.0].state != MemberState::Dead by {
        assert(is_live(m, r[i].id.0));
    }
}

/// A listing names every known member once, in the order of birth, with what is
/// known of it.
pub proof fn law_listings_are_complete(
    m: Membership,
    r: Seq<(Member, MemberState, u64)>,
    id: u64,
)
    requires
        is_listing(m, r),
    ensures
        m.entries.contains_key(id) <==> exists|i: int|
            0 <= i < r.len() && (#[trigger] r[i]).0@.id.0 == id,
        forall|i: int|
            0 <= i < r.len() ==> {
                let e = m.entries[(#[trigger] r[i]).0@.id.0];
                r[i].0@ == e.member && r[i].1 == e.state && r[i].2 == e.incarnation
            },
        forall|i: int, j: int|
            0 <= i < j < r.len() ==> (#[trigger] r[i]).0@.birthdate < (#[trigger] r[j]).0@.birthdate
                || (r[i].0@.birthdate == r[j].0@.birthdate && r[i].0@.id.0 < r[j].0@.id.0),
{
    assert forall|i: int, j: int| 0 <= i < j < r.len() implies (#[trigger] r[i]).0@.birthdate < (
    #[trigger] r[j]).0@.birthdate || (r[i].0@.birthdate == r[j].0@.birthdate && r[i].0@.id.0
        < r[j].0@.id.0) by {
        assert(before(r[i].0@, r[j].0@));
    }
}

/// The members that are declared dead are the suspects whose deadline has come,
/// each once, with the incarnation that was suspected.
pub proof fn law_overdue_suspects_are_reported(
    m: Membership,
    now_ns: u64,
    r: Seq<(MemberId, u64)>,
    id: u64,
)
    requires
        is_promotion(m, now_ns, r),
    ensures
        m.entries.contains_key(id) && m.entries[id].state == MemberState::Suspect
            && m.entries[id].deadline <= now_ns <==> exists|i: int|
            0 <= i < r.len() && (#[trigger] r[i]).0.0 == id,
        forall|i: int|
            0 <= i < r.len() ==> (#[trigger] r[i]).1 == m.entries[r[i].0.0].incarnation,
        forall|i: int, j: int| 0 <= i < j < r.len() ==> (#[trigger] r[i]).0 != (#[trigger] r[j]).0,
{
    if exists|i: int| 0 <= i < r.len() && (#[trigger] r[i]).0.0 == id {
        let i = choose|i: int| 0 <= i < r.len() && (#[trigger] r[i]).0.0 == id;
        assert(m.entries.contains_key(r[i].0.0));
    }
}

} // verus!
