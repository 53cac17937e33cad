//! What the failure detector promises.

use vstd::prelude::*;

use crate::cluster::gossip::{position, pushed, send_budget, QueueView};
use crate::cluster::membership::{
    applied, capped_sum, live_ids, outcome_of, reaped, ApplyOutcome, MemberState, Membership,
};
use crate::cluster::message::{EnvelopeView, EventView, SwimMessage};
use crate::cluster::swim::{
    absorbed, absorbed_all, after_requests, after_sending, announcement, answered, bumped,
    can_probe, capped_product, handled, is_first_step, is_second_step, lists_deaths, may_ask,
    queued, received, sealed, suspected, with_deaths, with_probe, ActionView, ProbeOutcome,
    ProbeStep, SwimState, JOIN_TARGET,
};
use crate::ids::MemberId;
use crate::member::MemberView;
use crate::net::SocketAddr;

verus! {

/// An event waits in a queue.
pub open spec fn waits(q: QueueView, ev: EventView) -> bool {
    exists|i: int| 0 <= i < q.pending.len() && (#[trigger] q.pending[i]).event == ev
}

proof fn lemma_position_range(s: Seq<crate::cluster::gossip::PendingView>, ev: EventView)
    ensures
        0 <= position(s, ev) <= s.len(),
    decreases s.len(),
{
    if s.len() > 0 && s[0].event != ev {
        lemma_position_range(s.skip(1), ev);
    }
}

/// An event that was queued waits, unless the queue is one for no events.
pub proof fn law_queued_event_waits(q: QueueView, ev: EventView, m: Membership)
    requires
        q.capacity > 0,
    ensures
        waits(queued(q, ev, m), ev),
{
    let p = pushed(q, ev, send_budget(live_ids(m).len() as int) as u32);
    let k = position(q.pending, ev);
    lemma_position_range(q.pending, ev);
    if k < q.pending.len() {
        assert(p[k].event == ev);
    } else {
        assert(p[p.len() - 1].event == ev);
    }
    assert(queued(q, ev, m).pending == p);
}

/// A probe of the local node is answered, with the number of the probe.
pub proof fn law_probe_is_answered(s: SwimState, seq: u64, src: SocketAddr)
    requires
        s.view.local is Some,
    ensures
        ({
            let local = s.view.local->0;
            let r = handled(s, SwimMessage::Ping { seq, target: local }, src).1;
            r matches ActionView::Reply(e) && e.msg == (SwimMessage::Ack { seq, from: local })
                && e.from == local && e.cluster_secret == s.secret
        }),
{
}

/// A probe of another node is dropped.
pub proof fn law_probe_of_others_is_dropped(
    s: SwimState,
    seq: u64,
    target: MemberId,
    src: SocketAddr,
)
    requires
        target.0 != JOIN_TARGET,
        s.view.local != Some(target),
    ensures
        handled(s, SwimMessage::Ping { seq, target }, src) == (s, ActionView::Nothing),
{
}

/// An answer wakes the probe that waits for it, once.
pub proof fn law_answer_wakes_once(s: SwimState, seq: u64)
    requires
        s.in_flight.contains(seq),
    ensures
        answered(s, seq).1 == ActionView::Complete(seq),
        answered(answered(s, seq).0, seq).1 == ActionView::Nothing,
{
}

/// A node that is said to be suspect or dead refutes it: it raises its
/// incarnation and spreads the news that it is alive.
pub proof fn law_claims_are_refuted(s: SwimState, ev: EventView, now_ns: u64)
    requires
        s.queue.capacity > 0,
        s.view.local is Some,
        !(ev is Alive),
        crate::cluster::membership::event_id(ev) == s.view.local->0,
        s.view.local_incarnation < u64::MAX,
    ensures
        ({
            let t = absorbed(s, ev, now_ns);
            &&& t.view.local_incarnation == s.view.local_incarnation + 1
            &&& t.view.entries[(s.view.local->0).0].state == MemberState::Alive
            &&& waits(t.queue, announcement(t.view, s.view.local->0))
            &&& announcement(t.view, s.view.local->0)->Alive_incarnation
                == s.view.local_incarnation + 1
        }),
{
    let b = bumped(s.view);
    law_queued_event_waits(s.queue, announcement(b, s.view.local->0), b);
}

/// News about others goes on to others.
pub proof fn law_news_spreads(s: SwimState, ev: EventView, now_ns: u64)
    requires
        outcome_of(s.view, ev) == ApplyOutcome::NewMember || outcome_of(s.view, ev)
            == ApplyOutcome::Updated,
        s.queue.capacity > 0,
    ensures
        waits(absorbed(s, ev, now_ns).queue, ev),
{
    law_queued_event_waits(s.queue, ev, applied(s.view, ev, now_ns, s.suspicion_ns));
}

/// A live peer that answers no probe becomes suspect, and the news spreads;
/// unless it is heard of before the suspicion runs out, it is then taken for
/// dead.
pub proof fn law_silent_peer_dies(s: SwimState, id: MemberId, now_ns: u64, later_ns: u64)
    requires
        s.queue.capacity > 0,
        s.view.local is Some,
        s.view.local != Some(id),
        s.view.entries.contains_key(id.0),
        s.view.entries[id.0].state == MemberState::Alive,
        later_ns >= capped_sum(now_ns, s.suspicion_ns),
    ensures
        ({
            let t = suspected(s, id, now_ns);
            &&& t.view.entries[id.0].state == MemberState::Suspect
            &&& t.view.entries[id.0].deadline == capped_sum(now_ns, s.suspicion_ns)
            &&& waits(
                t.queue,
                EventView::Suspect {
                    id,
                    incarnation: s.view.entries[id.0].incarnation,
                    from: s.view.local->0,
                },
            )
            &&& reaped(t.view, later_ns).entries[id.0].state == MemberState::Dead
        }),
{
    let ev = EventView::Suspect {
        id,
        incarnation: s.view.entries[id.0].incarnation,
        from: s.view.local->0,
    };
    law_queued_event_waits(s.queue, ev, applied(s.view, ev, now_ns, s.suspicion_ns));
}

/// Suspicion lasts for the probe interval times the multiplier, and microseconds
/// are a thousand nanoseconds, as far as 64 bits go.
pub proof fn law_times_are_multiplied(a: u64, b: u64)
    ensures
        a * b <= u64::MAX ==> capped_product(a, b) == a * b,
        a * b > u64::MAX ==> capped_product(a, b) == u64::MAX,
{
}

/// Every message carries the cluster's secret, its sender, and the oldest gossip
/// that waits: eight events, or all where fewer wait. Sending it changes nothing
/// but the queue.
pub proof fn law_messages_take_gossip_along(s: SwimState, msg: SwimMessage)
    requires
        s.view.local is Some,
    ensures
        ({
            let e = sealed(s, msg);
            let p = s.queue.pending;
            &&& e.cluster_secret == s.secret
            &&& Some(e.from) == s.view.local
            &&& e.msg == msg
            &&& e.gossip.len() == (if p.len() < 8 {
                p.len() as int
            } else {
                8
            })
            &&& forall|i: int| 0 <= i < e.gossip.len() ==> #[trigger] e.gossip[i] == p[i].event
        }),
        ({
            let t = after_sending(s);
            &&& t.view == s.view
            &&& t.secret == s.secret
            &&& t.in_flight == s.in_flight
            &&& t.next_seq == s.next_seq
            &&& t.suspicion_ns == s.suspicion_ns
            &&& t.ask == s.ask
            &&& t.timeout_ns == s.timeout_ns
            &&& t.queue.capacity == s.queue.capacity
        }),
{
}

/// A probe goes to the address where its target listens, under a number that then
/// waits for its answer and is not used for the next probe.
pub proof fn law_probes_are_numbered(
    s: SwimState,
    target: MemberView,
    t: SwimState,
    step: ProbeStep,
)
    requires
        s.view.local is Some,
        is_first_step(s, target, t, step),
    ensures
        step matches ProbeStep::Wait { probe, envelopes } && {
            &&& envelopes@.len() == 1
            &&& envelopes@[0].to == target.discovery_addr
            &&& envelopes@[0].envelope@.msg == (SwimMessage::Ping {
                seq: probe.seq,
                target: target.id,
            })
            &&& envelopes@[0].envelope@.cluster_secret == s.secret
            &&& Some(envelopes@[0].envelope@.from) == s.view.local
            &&& t.in_flight == s.in_flight.insert(probe.seq)
            &&& probe.seq < u64::MAX ==> t.next_seq == probe.seq + 1
            &&& t.next_seq != probe.seq
            &&& t.view == s.view
        },
{
}

/// A peer that did not answer is probed through others: each of them is asked to
/// probe it at the address where it listens, under one number that then waits for
/// an answer. With nobody to ask, the peer is suspected.
pub proof fn law_silent_peer_is_probed_through_others(
    s: SwimState,
    target: MemberView,
    proxies: Seq<MemberView>,
    now_ns: u64,
    t: SwimState,
    step: ProbeStep,
)
    requires
        s.view.local is Some,
        is_second_step(s, target, proxies, now_ns, t, step),
    ensures
        proxies.len() == 0 ==> step == ProbeStep::Done(ProbeOutcome::Suspected),
        proxies.len() > 0 ==> (step matches ProbeStep::Wait { probe, envelopes } && {
            &&& envelopes@.len() == proxies.len()
            &&& forall|i: int|
                0 <= i < proxies.len() ==> {
                    &&& (#[trigger] envelopes@[i]).to == proxies[i].discovery_addr
                    &&& envelopes@[i].envelope@.msg == (SwimMessage::PingReq {
                        seq: probe.seq,
                        target: target.id,
                        target_addr: target.discovery_addr,
                    })
                    &&& envelopes@[i].envelope@.cluster_secret == s.secret
                }
            &&& t.in_flight == s.in_flight.insert(probe.seq)
            &&& t.view == s.view
            &&& probe.target@ == target
        }),
{
    if proxies.len() > 0 {
        let p = with_probe(s);
        assert forall|i: int| 0 <= i <= proxies.len() implies {
            let u = #[trigger] after_requests(p, i);
            u.secret == s.secret && u.in_flight == p.in_flight && u.view == s.view
        } by {
            lemma_requests_keep(p, i);
        }
    }
}

proof fn lemma_requests_keep(s: SwimState, n: int)
    ensures
        after_requests(s, n).secret == s.secret,
        after_requests(s, n).in_flight == s.in_flight,
        after_requests(s, n).view == s.view,
    decreases n,
{
    if n > 0 {
        lemma_requests_keep(s, n - 1);
    }
}

/// Only members that are alive are asked to probe another: neither the local node
/// nor the silent peer, nobody twice, and no more than the configuration says.
pub proof fn law_proxies_are_live_others(
    m: Membership,
    target: MemberId,
    k: nat,
    proxies: Seq<MemberView>,
    id: u64,
)
    requires
        may_ask(m, target, k, proxies),
    ensures
        proxies.len() <= k,
        forall|i: int|
            0 <= i < proxies.len() ==> {
                let e = m.entries[(#[trigger] proxies[i]).id.0];
                &&& m.entries.contains_key(proxies[i].id.0)
                &&& e.state == MemberState::Alive
                &&& e.member == proxies[i]
                &&& proxies[i].id != target
                &&& m.local != Some(proxies[i].id)
            },
        forall|i: int, j: int|
            0 <= i < j < proxies.len() ==> (#[trigger] proxies[i]).id != (#[trigger] proxies[j]).id,
        proxies.len() < k && m.local is Some && m.entries.contains_key(id) && m.entries[id].state
            == MemberState::Alive && id != target.0 && (m.local->0).0 != id ==> exists|i: int|
            0 <= i < proxies.len() && (#[trigger] proxies[i]).id.0 == id,
{
    assert forall|i: int| 0 <= i < proxies.len() implies {
        let e = m.entries[(#[trigger] proxies[i]).id.0];
        &&& m.entries.contains_key(proxies[i].id.0)
        &&& e.state == MemberState::Alive
        &&& e.member == proxies[i]
        &&& proxies[i].id != target
        &&& m.local != Some(proxies[i].id)
    } by {
        assert(can_probe(m, Some(target), proxies[i].id.0));
    }
    if proxies.len() < k && m.local is Some && m.entries.contains_key(id) && m.entries[id].state
        == MemberState::Alive && id != target.0 && (m.local->0).0 != id {
        assert(can_probe(m, Some(target), id));
    }
}

/// A node that is asked to probe another does so, under a number of its own, and
/// remembers who asked and under which number.
pub proof fn law_requests_are_forwarded(
    s: SwimState,
    seq: u64,
    target: MemberId,
    target_addr: SocketAddr,
    src: SocketAddr,
)
    requires
        s.view.local is Some,
    ensures
        ({
            let (t, action) = handled(s, SwimMessage::PingReq { seq, target, target_addr }, src);
            action matches ActionView::Forward { inner_seq, envelope, to, relay } && {
                &&& to == target_addr
                &&& envelope.msg == (SwimMessage::Ping { seq: inner_seq, target })
                &&& envelope.cluster_secret == s.secret
                &&& relay.seq == seq
                &&& relay.target == target
                &&& relay.requester == src
                &&& t.in_flight == s.in_flight.insert(inner_seq)
                &&& t.next_seq != inner_seq
                &&& t.view == s.view
            }
        }),
{
}

/// An answer, direct or through another node, ends the probe that waits under its
/// number and no other.
pub proof fn law_answers_end_their_probe(
    s: SwimState,
    seq: u64,
    from: MemberId,
    target: MemberId,
    src: SocketAddr,
)
    requires
        s.view.local is Some,
    ensures
        ({
            let (t, action) = handled(s, SwimMessage::Ack { seq, from }, src);
            &&& action == (if s.in_flight.contains(seq) {
                ActionView::Complete(seq)
            } else {
                ActionView::Nothing
            })
            &&& forall|o: u64| #[trigger]
                t.in_flight.contains(o) <==> s.in_flight.contains(o) && o != seq
            &&& t.view == s.view
            &&& t.queue == s.queue
            &&& handled(s, SwimMessage::IndirectAck { seq, target, from }, src) == (t, action)
        }),
{
}

/// A node that joins is told about the node that it reached, if there is room for
/// the news.
pub proof fn law_joining_node_is_told(s: SwimState, seq: u64, src: SocketAddr)
    requires
        s.view.local is Some,
        s.view.entries.contains_key((s.view.local->0).0),
        s.queue.pending.len() < 8,
        s.queue.pending.len() < s.queue.capacity,
    ensures
        ({
            let local = s.view.local->0;
            let e = s.view.entries[local.0];
            let r = handled(s, SwimMessage::Ping { seq, target: MemberId(0) }, src).1;
            r matches ActionView::Reply(env) && {
                &&& env.msg == (SwimMessage::Ack { seq, from: local })
                &&& env.gossip.contains(
                    EventView::Alive {
                        member: MemberView { is_coordinator: false, ..e.member },
                        incarnation: e.incarnation,
                    },
                )
            }
        }),
{
    let local = s.view.local->0;
    let ev = announcement(s.view, local);
    law_queued_event_waits(s.queue, ev, s.view);
    let q = queued(s.queue, ev, s.view);
    lemma_position_range(s.queue.pending, ev);
    let i = choose|i: int| 0 <= i < q.pending.len() && (#[trigger] q.pending[i]).event == ev;
    let env = handled(s, SwimMessage::Ping { seq, target: MemberId(0) }, src).1->Reply_0;
    assert(env.gossip[i] == ev);
}

/// The deaths that are found are those of the suspects whose deadline has come;
/// the news of the last of them waits to be spread, under the local node's name.
pub proof fn law_deaths_are_found_and_told(s: SwimState, now_ns: u64, dead: Seq<MemberId>, id: u64)
    requires
        lists_deaths(s.view, now_ns, dead),
    ensures
        dead.contains(MemberId(id)) <==> s.view.entries.contains_key(id)
            && s.view.entries[id].state == MemberState::Suspect && s.view.entries[id].deadline
            <= now_ns,
        dead.len() > 0 && s.queue.capacity > 0 && s.view.local is Some ==> waits(
            with_deaths(s.queue, reaped(s.view, now_ns), dead, dead.len() as int),
            EventView::Dead {
                id: dead.last(),
                incarnation: s.view.entries[dead.last().0].incarnation,
                from: s.view.local->0,
            },
        ),
{
    if dead.contains(MemberId(id)) {
        let i = choose|i: int| 0 <= i < dead.len() && dead[i] == MemberId(id);
        assert(s.view.entries.contains_key(dead[i].0));
    }
    if dead.len() > 0 && s.queue.capacity > 0 && s.view.local is Some {
        let m = reaped(s.view, now_ns);
        let n = dead.len() as int;
        let front = with_deaths(s.queue, m, dead, n - 1);
        lemma_deaths_capacity(s.queue, m, dead, n - 1);
        assert(s.view.entries.contains_key(dead[n - 1].0));
        law_queued_event_waits(
            front,
            EventView::Dead {
                id: dead.last(),
                incarnation: s.view.entries[dead.last().0].incarnation,
                from: s.view.local->0,
            },
            m,
        );
    }
}

proof fn lemma_deaths_capacity(q: QueueView, m: Membership, dead: Seq<MemberId>, n: int)
    ensures
        with_deaths(q, m, dead, n).capacity == q.capacity,
    decreases n,
{
    if n > 0 {
        lemma_deaths_capacity(q, m, dead, n - 1);
    }
}

/// The gossip that rides along is taken in first, event by event in its order;
/// then the message is answered.
pub proof fn law_gossip_comes_before_the_message(
    s: SwimState,
    env: EnvelopeView,
    ev: EventView,
    src: SocketAddr,
    now_ns: u64,
)
    ensures
        ({
            let none = EnvelopeView { gossip: Seq::empty(), ..env };
            received(s, none, src, now_ns) == handled(s, env.msg, src)
        }),
        ({
            let more = EnvelopeView { gossip: seq![ev] + env.gossip, ..env };
            received(s, more, src, now_ns) == received(absorbed(s, ev, now_ns), env, src, now_ns)
        }),
{
    let all = seq![ev] + env.gossip;
    lemma_absorbed_front(s, ev, env.gossip, env.gossip.len() as int, now_ns);
    assert(all.len() == env.gossip.len() + 1);
}

proof fn lemma_absorbed_front(
    s: SwimState,
    ev: EventView,
    evs: Seq<EventView>,
    n: int,
    now_ns: u64,
)
    requires
        0 <= n <= evs.len(),
    ensures
        absorbed_all(s, seq![ev] + evs, n + 1, now_ns) == absorbed_all(
            absorbed(s, ev, now_ns),
            evs,
            n,
            now_ns,
        ),
    decreases n,
{
    let all = seq![ev] + evs;
    if n == 0 {
        assert(absorbed_all(s, all, 0, now_ns) == s);
        assert(all[0] == ev);
    } else {
        lemma_absorbed_front(s, ev, evs, n - 1, now_ns);
        assert(all[n] == evs[n - 1]);
    }
}

} // verus!
