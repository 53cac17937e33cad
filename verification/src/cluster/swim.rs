//! The failure detector.
//!
//! A node probes one random live peer per interval. A peer that does not answer
//! is probed once more through other members; a peer that answers neither way
//! is suspected. Every message carries gossip, and what it says is taken into
//! the local view. The functions here decide what to send and how the state
//! changes; sending, waiting and the clock are the caller's.

use std::collections::HashSet;

use rand::rngs::SmallRng;
use vstd::prelude::*;

use crate::chance::{choose_id, lemma_shuffled, new_rng, shuffle_ids};
use crate::cluster::error::{ClusterError, ClusterErrorView};
use crate::cluster::gossip::{
    batch, pending_events, pushed, send_budget, spent, GossipQueue, QueueView,
};
use crate::cluster::membership::{
    applied, expired, live_ids, outcome_of, reaped, ApplyOutcome, EntryView,
    MemberState, Membership, MembershipView,
};
use crate::cluster::message::{
    alive_for, events_view, Envelope, EnvelopeView, EventView, GossipEvent, Incarnation,
    SwimMessage,
};
use crate::config::sections::SwimConfig;
use crate::ids::MemberId;
use crate::member::{members_view, Member, MemberView};
use crate::net::SocketAddr;

verus! {

broadcast use vstd::std_specs::hash::group_hash_axioms;

/// Most events that ride along on one message.
pub const PIGGYBACK_BATCH: usize = 8;

/// Id that a probe is addressed to by a node that wants to join and knows no id
/// yet.
pub const JOIN_TARGET: u64 = 0;

// ---------------------------------------------------------------------------
// State
// ---------------------------------------------------------------------------

/// What the failure detector of a node knows.
#[allow(missing_debug_implementations)]
pub struct SwimDriver {
    config: SwimConfig,
    view: MembershipView,
    queue: GossipQueue,
    cluster_secret: String,
    rng: SmallRng,
    in_flight: HashSet<u64>,
    probe_seq: u64,
}

/// Mathematical value of a [`SwimDriver`].
#[verifier::ext_equal]
pub ghost struct SwimState {
    pub view: Membership,
    pub queue: QueueView,
    pub secret: Seq<char>,
    /// Probes that wait for an answer.
    pub in_flight: Set<u64>,
    /// Number of the next probe.
    pub next_seq: u64,
    /// How long a suspicion lasts, in nanoseconds.
    pub suspicion_ns: u64,
    /// How many members are asked to probe a peer that does not answer.
    pub ask: nat,
    /// How long a probe waits for an answer, in nanoseconds.
    pub timeout_ns: u64,
}

impl View for SwimDriver {
    type V = SwimState;

    closed spec fn view(&self) -> SwimState {
        SwimState {
            view: self.view@,
            queue: self.queue@,
            secret: self.cluster_secret@,
            in_flight: self.in_flight@,
            next_seq: self.probe_seq,
            suspicion_ns: capped_product(
                self.config.probe_interval,
                self.config.suspicion_multiplier as u64,
            ),
            ask: self.config.indirect_probes as nat,
            timeout_ns: self.config.probe_timeout,
        }
    }
}

/// Product that stops at the largest 64-bit number.
pub open spec fn capped_product(a: u64, b: u64) -> u64 {
    if a * b > u64::MAX {
        u64::MAX
    } else {
        (a * b) as u64
    }
}

/// The number after `seq`, which starts over at 0.
pub open spec fn following(seq: u64) -> u64 {
    if seq == u64::MAX {
        0
    } else {
        (seq + 1) as u64
    }
}

fn multiply(a: u64, b: u64) -> (r: u64)
    ensures
        r == capped_product(a, b),
{
    match a.checked_mul(b) {
        Some(p) => p,
        None => u64::MAX,
    }
}

/// Microseconds in nanoseconds, up to the largest 64-bit number.
pub fn micros_to_nanos(micros: u64) -> (r: u64)
    ensures
        r == capped_product(micros, 1000),
{
    multiply(micros, 1000)
}

// ---------------------------------------------------------------------------
// What is done to the state
// ---------------------------------------------------------------------------

/// The queue after an event came in, in a cluster as `m` sees it.
pub open spec fn queued(q: QueueView, ev: EventView, m: Membership) -> QueueView {
    QueueView {
        pending: pushed(q, ev, send_budget(live_ids(m).len() as int) as u32),
        capacity: q.capacity,
    }
}

/// The view once the local node has raised its incarnation.
pub open spec fn bumped(m: Membership) -> Membership {
    let inc = (m.local_incarnation + 1) as u64;
    Membership {
        entries: match m.local {
            Some(l) => m.entries.insert(
                l.0,
                EntryView {
                    member: m.entries[l.0].member,
                    state: MemberState::Alive,
                    incarnation: inc,
                    deadline: 0,
                },
            ),
            None => m.entries,
        },
        local: m.local,
        local_incarnation: inc,
    }
}

/// The event by which a node announces itself.
pub open spec fn announcement(m: Membership, id: MemberId) -> EventView {
    EventView::Alive {
        member: MemberView { is_coordinator: false, ..m.entries[id.0].member },
        incarnation: m.entries[id.0].incarnation,
    }
}

/// The state once an event that came along has been taken in. News goes on to
/// others; a claim that the local node is suspect or dead is answered with a
/// higher incarnation.
pub open spec fn absorbed(s: SwimState, ev: EventView, now_ns: u64) -> SwimState {
    let m = applied(s.view, ev, now_ns, s.suspicion_ns);
    match outcome_of(s.view, ev) {
        ApplyOutcome::NewMember | ApplyOutcome::Updated => SwimState {
            view: m,
            queue: queued(s.queue, ev, m),
            ..s
        },
        ApplyOutcome::SelfRefutationNeeded => {
            let b = bumped(m);
            SwimState {
                view: b,
                queue: match b.local {
                    Some(l) => queued(s.queue, announcement(b, l), b),
                    None => s.queue,
                },
                ..s
            }
        },
        ApplyOutcome::Ignored => SwimState { view: m, ..s },
    }
}

/// The state once the first `n` events have been taken in.
pub open spec fn absorbed_all(s: SwimState, evs: Seq<EventView>, n: int, now_ns: u64) -> SwimState
    decreases n,
{
    if n <= 0 {
        s
    } else {
        absorbed(absorbed_all(s, evs, n - 1, now_ns), evs[n - 1], now_ns)
    }
}

/// The state once a message was made up, which takes gossip along.
pub open spec fn after_sending(s: SwimState) -> SwimState {
    let p = s.queue.pending;
    let n = batch(p, PIGGYBACK_BATCH as int);
    SwimState { queue: QueueView { pending: spent(p, n) + p.skip(n), ..s.queue }, ..s }
}

/// The message as it is sent.
pub open spec fn sealed(s: SwimState, msg: SwimMessage) -> EnvelopeView {
    let p = s.queue.pending;
    EnvelopeView {
        cluster_secret: s.secret,
        from: s.view.local->0,
        msg,
        gossip: pending_events(p.take(batch(p, PIGGYBACK_BATCH as int))),
    }
}

/// The state with a new probe in flight.
pub open spec fn with_probe(s: SwimState) -> SwimState {
    SwimState {
        in_flight: s.in_flight.insert(s.next_seq),
        next_seq: following(s.next_seq),
        ..s
    }
}

/// The state without a probe.
pub open spec fn without_probe(s: SwimState, seq: u64) -> SwimState {
    SwimState { in_flight: s.in_flight.remove(seq), ..s }
}

/// The state once a member has been suspected.
pub open spec fn suspected(s: SwimState, id: MemberId, now_ns: u64) -> SwimState {
    if s.view.local is None || !s.view.entries.contains_key(id.0) {
        s
    } else {
        let ev = EventView::Suspect {
            id,
            incarnation: s.view.entries[id.0].incarnation,
            from: s.view.local->0,
        };
        let m = applied(s.view, ev, now_ns, s.suspicion_ns);
        match outcome_of(s.view, ev) {
            ApplyOutcome::NewMember | ApplyOutcome::Updated => SwimState {
                view: m,
                queue: queued(s.queue, ev, m),
                ..s
            },
            _ => SwimState { view: m, ..s },
        }
    }
}

/// The queue with the news of the deaths `dead[..n]`.
pub open spec fn with_deaths(q: QueueView, m: Membership, dead: Seq<MemberId>, n: int) -> QueueView
    decreases n,
{
    if n <= 0 {
        q
    } else {
        let front = with_deaths(q, m, dead, n - 1);
        match m.local {
            Some(from) => queued(
                front,
                EventView::Dead {
                    id: dead[n - 1],
                    incarnation: m.entries[dead[n - 1].0].incarnation,
                    from,
                },
                m,
            ),
            None => front,
        }
    }
}

/// `dead` lists, once each, the members whose suspicion has run out.
pub open spec fn lists_deaths(m: Membership, now_ns: u64, dead: Seq<MemberId>) -> bool {
    &&& dead.no_duplicates()
    &&& forall|i: int|
        0 <= i < dead.len() ==> m.entries.contains_key((#[trigger] dead[i]).0) && expired(
            m.entries[dead[i].0],
            now_ns,
        )
    &&& forall|id: u64|
        (#[trigger] m.entries.contains_key(id)) && expired(m.entries[id], now_ns)
            ==> dead.contains(MemberId(id))
}

/// A peer that a node can probe: alive, not the local node, and not `skip`. A
/// node that does not know itself probes nobody.
pub open spec fn can_probe(m: Membership, skip: Option<MemberId>, id: u64) -> bool {
    &&& m.local is Some
    &&& m.entries.contains_key(id)
    &&& m.entries[id].state == MemberState::Alive
    &&& m.local != Some(MemberId(id))
    &&& skip != Some(MemberId(id))
}

// ---------------------------------------------------------------------------
// What is received
// ---------------------------------------------------------------------------

/// A probe that is made on behalf of another node.
#[derive(Debug, Clone, Copy, PartialEq, Eq, Structural)]
pub struct Relay {
    /// Number under which the other node waits.
    pub seq: u64,
    /// The member that is probed.
    pub target: MemberId,
    /// Who waits.
    pub requester: SocketAddr,
}

/// What to do about a message.
#[derive(Debug)]
pub enum ReceiveAction {
    /// Nothing.
    Nothing,
    /// Send the envelope to where the message came from.
    Reply(Envelope),
    /// Wake the probe with this number.
    Complete(u64),
    /// Send the envelope to `to`; once probe `inner_seq` is answered, answer the
    /// relay.
    Forward { inner_seq: u64, envelope: Envelope, to: SocketAddr, relay: Relay },
}

/// Mathematical value of a [`ReceiveAction`].
pub ghost enum ActionView {
    Nothing,
    Reply(EnvelopeView),
    Complete(u64),
    Forward { inner_seq: u64, envelope: EnvelopeView, to: SocketAddr, relay: Relay },
}

impl View for ReceiveAction {
    type V = ActionView;

    open spec fn view(&self) -> ActionView {
        match self {
            ReceiveAction::Nothing => ActionView::Nothing,
            ReceiveAction::Reply(e) => ActionView::Reply(e@),
            ReceiveAction::Complete(s) => ActionView::Complete(*s),
            ReceiveAction::Forward { inner_seq, envelope, to, relay } => ActionView::Forward {
                inner_seq: *inner_seq,
                envelope: envelope@,
                to: *to,
                relay: *relay,
            },
        }
    }
}

/// What a node does about a message, once the gossip has been taken in: it
/// answers a probe of itself, or of a node that joins and is told about the
/// local node; it wakes a probe that is answered; it probes on behalf of
/// others. A probe of another node is dropped.
pub open spec fn handled(s: SwimState, msg: SwimMessage, src: SocketAddr) -> (
    SwimState,
    ActionView,
) {
    match s.view.local {
        None => (s, ActionView::Nothing),
        Some(local) => match msg {
            SwimMessage::Ping { seq, target } => {
                let joining = target.0 == JOIN_TARGET;
                if !joining && target != local {
                    (s, ActionView::Nothing)
                } else {
                    let t = if joining && s.view.entries.contains_key(local.0) {
                        SwimState {
                            queue: queued(s.queue, announcement(s.view, local), s.view),
                            ..s
                        }
                    } else {
                        s
                    };
                    (
                        after_sending(t),
                        ActionView::Reply(sealed(t, SwimMessage::Ack { seq, from: local })),
                    )
                }
            },
            SwimMessage::Ack { seq, .. } => answered(s, seq),
            SwimMessage::IndirectAck { seq, .. } => answered(s, seq),
            SwimMessage::PingReq { seq, target, target_addr } => {
                let t = with_probe(s);
                (
                    after_sending(t),
                    ActionView::Forward {
                        inner_seq: s.next_seq,
                        envelope: sealed(t, SwimMessage::Ping { seq: s.next_seq, target }),
                        to: target_addr,
                        relay: Relay { seq, target, requester: src },
                    },
                )
            },
        },
    }
}

/// What a node does about an answer: it wakes the probe, if that still waits.
pub open spec fn answered(s: SwimState, seq: u64) -> (SwimState, ActionView) {
    if s.in_flight.contains(seq) {
        (without_probe(s, seq), ActionView::Complete(seq))
    } else {
        (s, ActionView::Nothing)
    }
}

/// What a node does about an envelope that it does not refuse.
pub open spec fn received(s: SwimState, env: EnvelopeView, src: SocketAddr, now_ns: u64) -> (
    SwimState,
    ActionView,
) {
    handled(absorbed_all(s, env.gossip, env.gossip.len() as int, now_ns), env.msg, src)
}

// ---------------------------------------------------------------------------
// Probing
// ---------------------------------------------------------------------------

/// Outcome of a probe.
#[derive(Debug, Clone, Copy, PartialEq, Eq, Structural)]
pub enum ProbeOutcome {
    /// The peer answered.
    DirectAck,
    /// The peer answered another member.
    IndirectAck,
    /// The peer answered nobody, and is suspected.
    Suspected,
    /// There was no peer to probe.
    Idle,
}

/// A probe under way.
#[derive(Debug)]
pub struct Probe {
    /// The peer that is probed.
    pub target: Member,
    /// Number of the probe that waits for an answer.
    pub seq: u64,
    /// Whether the peer is probed through others.
    pub indirect: bool,
}

/// An envelope and where it goes.
#[derive(Debug)]
pub struct Outgoing {
    pub envelope: Envelope,
    pub to: SocketAddr,
}

/// What to do next about a probe.
#[derive(Debug)]
pub enum ProbeStep {
    /// Send the envelopes and wait for an answer to the probe.
    Wait { probe: Probe, envelopes: Vec<Outgoing> },
    /// The probe is over.
    Done(ProbeOutcome),
}

/// The state once requests have gone to the first `n` proxies.
pub open spec fn after_requests(s: SwimState, n: int) -> SwimState
    decreases n,
{
    if n <= 0 {
        s
    } else {
        after_sending(after_requests(s, n - 1))
    }
}

/// `out` are the requests to the proxies to probe `target`.
pub open spec fn are_requests(
    s: SwimState,
    seq: u64,
    target: MemberView,
    proxies: Seq<MemberView>,
    out: Seq<Outgoing>,
) -> bool {
    &&& out.len() == proxies.len()
    &&& forall|i: int|
        0 <= i < out.len() ==> (#[trigger] out[i]).to == proxies[i].discovery_addr
            && out[i].envelope@ == sealed(
            after_requests(s, i),
            SwimMessage::PingReq { seq, target: target.id, target_addr: target.discovery_addr },
        )
}

/// The first step of probing `target`.
pub open spec fn is_first_step(
    s: SwimState,
    target: MemberView,
    t: SwimState,
    step: ProbeStep,
) -> bool {
    let p = with_probe(s);
    &&& t == after_sending(p)
    &&& step matches ProbeStep::Wait { probe, envelopes }
    &&& probe.target@ == target
    &&& probe.seq == s.next_seq
    &&& !probe.indirect
    &&& envelopes@.len() == 1
    &&& envelopes@[0].to == target.discovery_addr
    &&& envelopes@[0].envelope@ == sealed(p, SwimMessage::Ping { seq: s.next_seq, target: target.id })
}

/// The step after a direct probe that was not answered, with these proxies.
pub open spec fn is_second_step(
    s: SwimState,
    target: MemberView,
    proxies: Seq<MemberView>,
    now_ns: u64,
    t: SwimState,
    step: ProbeStep,
) -> bool {
    if proxies.len() == 0 {
        &&& t == suspected(s, target.id, now_ns)
        &&& step == ProbeStep::Done(ProbeOutcome::Suspected)
    } else {
        let p = with_probe(s);
        &&& t == after_requests(p, proxies.len() as int)
        &&& step matches ProbeStep::Wait { probe, envelopes }
        &&& probe.target@ == target
        &&& probe.seq == s.next_seq
        &&& probe.indirect
        &&& are_requests(p, s.next_seq, target, proxies, envelopes@)
    }
}

/// The proxies that may be asked: at most `k` different peers that can be
/// probed, and as many as there are.
pub open spec fn may_ask(
    m: Membership,
    target: MemberId,
    k: nat,
    proxies: Seq<MemberView>,
) -> bool {
    &&& proxies.len() <= k
    &&& forall|i: int|
        0 <= i < proxies.len() ==> can_probe(m, Some(target), (#[trigger] proxies[i]).id.0)
            && proxies[i] == m.entries[proxies[i].id.0].member
    &&& forall|i: int, j: int|
        0 <= i < j < proxies.len() ==> (#[trigger] proxies[i]).id != (#[trigger] proxies[j]).id
    &&& proxies.len() < k ==> forall|id: u64| #[trigger]
        can_probe(m, Some(target), id) ==> exists|i: int|
            0 <= i < proxies.len() && (#[trigger] proxies[i]).id.0 == id
}

impl SwimDriver {
    /// The view is sound, and the local node is part of it.
    pub closed spec fn wf(&self) -> bool {
        &&& self.view.wf()
        &&& self@.view.local matches Some(l) ==> self@.view.entries.contains_key(l.0)
    }

    /// A failure detector with nothing in flight.
    pub fn new(
        config: SwimConfig,
        view: MembershipView,
        queue: GossipQueue,
        cluster_secret: String,
    ) -> (r: Self)
        requires
            view.wf(),
            view@.local matches Some(l) ==> view@.entries.contains_key(l.0),
        ensures
            r.wf(),
            r@ == (SwimState {
                view: view@,
                queue: queue@,
                secret: cluster_secret@,
                in_flight: Set::empty(),
                next_seq: 1,
                suspicion_ns: capped_product(
                    config.probe_interval,
                    config.suspicion_multiplier as u64,
                ),
                ask: config.indirect_probes as nat,
                timeout_ns: config.probe_timeout,
            }),
    {
        SwimDriver {
            config,
            view,
            queue,
            cluster_secret,
            rng: new_rng(),
            in_flight: HashSet::new(),
            probe_seq: 1,
        }
    }

    /// The local view of the cluster.
    pub fn membership(&self) -> (r: &MembershipView)
        requires
            self.wf(),
        ensures
            r.wf(),
            r@ == self@.view,
    {
        &self.view
    }

    /// The secret of the cluster.
    pub fn secret(&self) -> (r: &str)
        ensures
            r@ == self@.secret,
    {
        self.cluster_secret.as_str()
    }

    /// How long a probe waits for an answer, in nanoseconds.
    pub fn probe_timeout(&self) -> (r: u64)
        ensures
            r == self@.timeout_ns,
    {
        self.config.probe_timeout
    }

    /// Takes up to `max` events that wait.
    pub fn drain_gossip(&mut self, max: usize) -> (r: Vec<GossipEvent>)
        requires
            old(self).wf(),
        ensures
            final(self).wf(),
            ({
                let s = old(self)@;
                let n = batch(s.queue.pending, max as int);
                &&& events_view(r@) == pending_events(s.queue.pending.take(n))
                &&& final(self)@ == (SwimState {
                    queue: QueueView {
                        pending: spent(s.queue.pending, n) + s.queue.pending.skip(n),
                        ..s.queue
                    },
                    ..s
                })
            }),
    {
        self.queue.drain_for_send(max)
    }

    /// How long a member stays suspect before it is taken for dead, in
    /// nanoseconds.
    pub fn suspicion_timeout(&self) -> (r: u64)
        ensures
            r == self@.suspicion_ns,
    {
        multiply(self.config.probe_interval, self.config.suspicion_multiplier as u64)
    }

    /// Gives out the number of the next probe and takes it for in flight.
    fn register_probe(&mut self) -> (r: u64)
        requires
            old(self).wf(),
        ensures
            final(self).wf(),
            r == old(self)@.next_seq,
            final(self)@ == with_probe(old(self)@),
    {
        let seq: u64 = self.probe_seq;
        self.probe_seq = if seq == u64::MAX {
            0
        } else {
            seq + 1
        };
        self.in_flight.insert(seq);
        seq
    }

    /// Forgets a probe that was not answered.
    pub fn forget_probe(&mut self, seq: u64)
        requires
            old(self).wf(),
        ensures
            final(self).wf(),
            final(self)@ == without_probe(old(self)@, seq),
    {
        self.in_flight.remove(&seq);
        assert(self@.in_flight =~= old(self)@.in_flight.remove(seq));
    }

    /// Takes a probe that is answered out of flight; whether it still was.
    fn complete_probe(&mut self, seq: u64) -> (r: bool)
        requires
            old(self).wf(),
        ensures
            final(self).wf(),
            r == old(self)@.in_flight.contains(seq),
            final(self)@ == without_probe(old(self)@, seq),
    {
        let r: bool = self.in_flight.remove(&seq);
        assert(self@.in_flight =~= old(self)@.in_flight.remove(seq));
        r
    }

    /// Makes up a message, with gossip along.
    fn seal(&mut self, from: MemberId, msg: SwimMessage) -> (r: Envelope)
        requires
            old(self).wf(),
            old(self)@.view.local == Some(from),
        ensures
            final(self).wf(),
            r@ == sealed(old(self)@, msg),
            final(self)@ == after_sending(old(self)@),
    {
        let gossip: Vec<GossipEvent> = self.queue.drain_for_send(PIGGYBACK_BATCH);
        Envelope { cluster_secret: self.cluster_secret.clone(), from, msg, gossip }
    }

    /// Takes one event in.
    fn absorb(&mut self, event: GossipEvent, now_ns: u64)
        requires
            old(self).wf(),
            old(self)@.view.local_incarnation < u64::MAX,
        ensures
            final(self).wf(),
            final(self)@ == absorbed(old(self)@, event@, now_ns),
            final(self)@.view.local_incarnation <= old(self)@.view.local_incarnation + 1,
    {
        let timeout: u64 = self.suspicion_timeout();
        let outcome: ApplyOutcome = self.view.apply(&event, now_ns, timeout);
        match outcome {
            ApplyOutcome::NewMember | ApplyOutcome::Updated => {
                let live: usize = self.view.live_count();
                self.queue.push(event, live);
            },
            ApplyOutcome::SelfRefutationNeeded => {
                let inc: Incarnation = self.view.bump_local_incarnation();
                if let Some(l) = self.view.local_id() {
                    if let Some(entry) = self.view.get(l) {
                        let live: usize = self.view.live_count();
                        self.queue.push(alive_for(&entry.member, inc), live);
                    }
                }
            },
            ApplyOutcome::Ignored => {},
        }
        assert(self@ =~= absorbed(old(self)@, event@, now_ns));
    }

    /// Takes the events in that came along with a message.
    pub fn apply_piggyback(&mut self, events: &Vec<GossipEvent>, now_ns: u64)
        requires
            old(self).wf(),
            old(self)@.view.local_incarnation + events@.len() <= u64::MAX,
        ensures
            final(self).wf(),
            final(self)@ == absorbed_all(
                old(self)@,
                events_view(events@),
                events@.len() as int,
                now_ns,
            ),
    {
        let ghost evs = events_view(events@);
        let mut i: usize = 0;
        while i < events.len()
            invariant
                self.wf(),
                i <= events@.len(),
                evs == events_view(events@),
                old(self)@.view.local_incarnation + events@.len() <= u64::MAX,
                self@.view.local_incarnation <= old(self)@.view.local_incarnation + i,
                self@ == absorbed_all(old(self)@, evs, i as int, now_ns),
            decreases events@.len() - i,
        {
            self.absorb(events[i].clone(), now_ns);
            i = i + 1;
        }
    }

    /// Handles an envelope. Where the cluster has a secret, an envelope without it
    /// is refused and changes nothing.
    pub fn handle_envelope(&mut self, env: &Envelope, src: SocketAddr, now_ns: u64) -> (r: Result<
        ReceiveAction,
        ClusterError,
    >)
        requires
            old(self).wf(),
            old(self)@.view.local_incarnation + env@.gossip.len() <= u64::MAX,
        ensures
            final(self).wf(),
            if old(self)@.secret.len() > 0 && env@.cluster_secret != old(self)@.secret {
                &&& r is Err
                &&& r->Err_0@ == ClusterErrorView::Handshake("cluster_secret mismatch"@)
                &&& final(self)@ == old(self)@
            } else {
                let want = received(old(self)@, env@, src, now_ns);
                &&& final(self)@ == want.0
                &&& r is Ok
                &&& r->Ok_0@ == want.1
            },
    {
        if let Err(e) = env.check_secret(self.cluster_secret.as_str()) {
            return Err(e);
        }
        self.apply_piggyback(&env.gossip, now_ns);
        let ghost s = self@;
        let local: MemberId = match self.view.local_id() {
            Some(l) => l,
            None => {
                return Ok(ReceiveAction::Nothing);
            },
        };
        match env.msg {
            SwimMessage::Ping { seq, target } => {
                let joining: bool = target.0 == JOIN_TARGET;
                if !joining && target != local {
                    return Ok(ReceiveAction::Nothing);
                }
                if joining {
                    if let Some(entry) = self.view.get(local) {
                        let live: usize = self.view.live_count();
                        self.queue.push(alive_for(&entry.member, entry.incarnation), live);
                        assert(self@ =~= (SwimState {
                            queue: queued(s.queue, announcement(s.view, local), s.view),
                            ..s
                        }));
                    }
                }
                Ok(ReceiveAction::Reply(self.seal(local, SwimMessage::Ack { seq, from: local })))
            },
            SwimMessage::Ack { seq, from: _ } => {
                if self.complete_probe(seq) {
                    Ok(ReceiveAction::Complete(seq))
                } else {
                    assert(self@ =~= s);
                    Ok(ReceiveAction::Nothing)
                }
            },
            SwimMessage::IndirectAck { seq, target: _, from: _ } => {
                if self.complete_probe(seq) {
                    Ok(ReceiveAction::Complete(seq))
                } else {
                    assert(self@ =~= s);
                    Ok(ReceiveAction::Nothing)
                }
            },
            SwimMessage::PingReq { seq, target, target_addr } => {
                let inner_seq: u64 = self.register_probe();
                let envelope: Envelope = self.seal(
                    local,
                    SwimMessage::Ping { seq: inner_seq, target },
                );
                Ok(
                    ReceiveAction::Forward {
                        inner_seq,
                        envelope,
                        to: target_addr,
                        relay: Relay { seq, target, requester: src },
                    },
                )
            },
        }
    }

    /// Queues news of the local node's own.
    pub fn announce(&mut self, event: GossipEvent)
        requires
            old(self).wf(),
        ensures
            final(self).wf(),
            final(self)@ == (SwimState {
                queue: queued(old(self)@.queue, event@, old(self)@.view),
                ..old(self)@
            }),
    {
        let live: usize = self.view.live_count();
        self.queue.push(event, live);
    }

    /// A probe that a node which wants to join sends to a peer whose id it does
    /// not know. It carries the news of the local node.
    pub fn join_probe(&mut self) -> (r: Option<(u64, Envelope)>)
        requires
            old(self).wf(),
        ensures
            final(self).wf(),
            match old(self)@.view.local {
                None => r is None && final(self)@ == old(self)@,
                Some(local) => {
                    let s = old(self)@;
                    let t = with_probe(
                        SwimState {
                            queue: queued(s.queue, announcement(s.view, local), s.view),
                            ..s
                        },
                    );
                    &&& r is Some
                    &&& (r->0).0 == s.next_seq
                    &&& (r->0).1@ == sealed(
                        t,
                        SwimMessage::Ping { seq: s.next_seq, target: MemberId(JOIN_TARGET) },
                    )
                    &&& final(self)@ == after_sending(t)
                },
            },
    {
        let ghost s = self@;
        match self.view.local_id() {
            None => None,
            Some(local) => {
                if let Some(entry) = self.view.get(local) {
                    let live: usize = self.view.live_count();
                    self.queue.push(alive_for(&entry.member, entry.incarnation), live);
                }
                assert(self@ =~= (SwimState {
                    queue: queued(s.queue, announcement(s.view, local), s.view),
                    ..s
                }));
                let seq: u64 = self.register_probe();
                let envelope: Envelope = self.seal(
                    local,
                    SwimMessage::Ping { seq, target: MemberId(JOIN_TARGET) },
                );
                Some((seq, envelope))
            },
        }
    }

    /// The answer to a relay whose target has answered.
    pub fn relay_answered(&mut self, relay: Relay) -> (r: Option<Outgoing>)
        requires
            old(self).wf(),
        ensures
            final(self).wf(),
            match old(self)@.view.local {
                None => r is None && final(self)@ == old(self)@,
                Some(local) => {
                    &&& r is Some
                    &&& r->0.to == relay.requester
                    &&& r->0.envelope@ == sealed(
                        old(self)@,
                        SwimMessage::IndirectAck {
                            seq: relay.seq,
                            target: relay.target,
                            from: local,
                        },
                    )
                    &&& final(self)@ == after_sending(old(self)@)
                },
            },
    {
        match self.view.local_id() {
            None => None,
            Some(local) => {
                let msg: SwimMessage = SwimMessage::IndirectAck {
                    seq: relay.seq,
                    target: relay.target,
                    from: local,
                };
                Some(Outgoing { envelope: self.seal(local, msg), to: relay.requester })
            },
        }
    }

    /// Ids of the peers that can be probed.
    fn candidates(&self, skip: Option<MemberId>) -> (r: Vec<u64>)
        requires
            self.wf(),
        ensures
            r@.no_duplicates(),
            forall|id: u64| r@.contains(id) <==> #[trigger] can_probe(self@.view, skip, id),
    {
        let ghost m = self.view@;
        let mut out: Vec<u64> = Vec::new();
        let local: MemberId = match self.view.local_id() {
            Some(l) => l,
            None => {
                return out;
            },
        };
        let all: Vec<(Member, MemberState, Incarnation)> = self.view.snapshot_all();
        let mut i: usize = 0;
        while i < all.len()
            invariant
                i <= all@.len(),
                m == self.view@,
                m.local == Some(local),
                crate::cluster::membership::is_listing(m, all@),
                out@.no_duplicates(),
                forall|k: int|
                    0 <= k < out@.len() ==> can_probe(m, skip, #[trigger] out@[k]) && exists|j: int|
                        0 <= j < i && (#[trigger] all@[j]).0@.id.0 == out@[k],
                forall|j: int|
                    0 <= j < i && can_probe(m, skip, (#[trigger] all@[j]).0@.id.0)
                        ==> out@.contains(all@[j].0@.id.0),
            decreases all@.len() - i,
        {
            let ghost before = out@;
            let id: MemberId = all[i].0.id;
            let skipped: bool = match skip {
                Some(x) => x == id,
                None => false,
            };
            assert(m.entries.contains_key(all@[i as int].0@.id.0));
            if id != local && !skipped && all[i].1 == MemberState::Alive {
                proof {
                    assert forall|k: int| 0 <= k < out@.len() implies out@[k] != id.0 by {
                        let j = choose|j: int| 0 <= j < i && (#[trigger] all@[j]).0@.id.0 == out@[k];
                        assert(crate::member::before(all@[j].0@, all@[i as int].0@));
                        assert(m.entries[all@[j].0@.id.0].member == all@[j].0@);
                        assert(m.entries[id.0].member == all@[i as int].0@);
                    }
                }
                out.push(id.0);
            }
            proof {
                assert forall|k: int| 0 <= k < out@.len() implies can_probe(
                    m,
                    skip,
                    #[trigger] out@[k],
                ) && exists|j: int| 0 <= j < i + 1 && (#[trigger] all@[j]).0@.id.0 == out@[k] by {
                    if k < before.len() {
                        assert(out@[k] == before[k]);
                        let j = choose|j: int|
                            0 <= j < i && (#[trigger] all@[j]).0@.id.0 == before[k];
                        assert(all@[j].0@.id.0 == out@[k]);
                    } else {
                        assert(all@[i as int].0@.id.0 == out@[k]);
                    }
                }
                assert forall|j: int|
                    0 <= j < i + 1 && can_probe(
                        m,
                        skip,
                        (#[trigger] all@[j]).0@.id.0,
                    ) implies out@.contains(all@[j].0@.id.0) by {
                    if j < i {
                        let k = choose|k: int|
                            0 <= k < before.len() && before[k] == all@[j].0@.id.0;
                        assert(out@[k] == all@[j].0@.id.0);
                    } else {
                        assert(out@[before.len() as int] == id.0);
                    }
                }
            }
            i = i + 1;
        }
        proof {
            assert forall|id: u64| out@.contains(id) <==> #[trigger] can_probe(m, skip, id) by {
                if can_probe(m, skip, id) {
                    let j = choose|j: int| 0 <= j < all@.len() && (#[trigger] all@[j]).0@.id.0 == id;
                    assert(out@.contains(all@[j].0@.id.0));
                }
            }
        }
        out
    }

    /// A random live peer. `None` comes back exactly where there is none.
    pub fn pick_target(&mut self) -> (r: Option<Member>)
        requires
            old(self).wf(),
        ensures
            final(self).wf(),
            final(self)@ == old(self)@,
            match r {
                Some(m) => {
                    &&& can_probe(old(self)@.view, None, m@.id.0)
                    &&& m@ == old(self)@.view.entries[m@.id.0].member
                },
                None => forall|id: u64| !#[trigger] can_probe(old(self)@.view, None, id),
            },
    {
        let ids: Vec<u64> = self.candidates(None);
        match choose_id(&ids, &mut self.rng) {
            Some(id) => {
                assert(can_probe(old(self)@.view, None, id));
                match self.view.get(MemberId(id)) {
                    Some(entry) => {
                        proof {
                            self.lemma_member_id(id);
                        }
                        Some(entry.member)
                    },
                    None => None,
                }
            },
            None => {
                assert forall|id: u64| !#[trigger] can_probe(old(self)@.view, None, id) by {
                    if can_probe(old(self)@.view, None, id) {
                        assert(ids@.contains(id));
                    }
                }
                None
            },
        }
    }

    proof fn lemma_member_id(&self, id: u64)
        requires
            self.wf(),
            self.view@.entries.contains_key(id),
        ensures
            self.view@.entries[id].member.id.0 == id,
    {
        self.view.lemma_entry_id(id);
    }

    /// Up to `k` different random peers to probe `target` through.
    pub fn pick_proxies(&mut self, target: MemberId, k: usize) -> (r: Vec<Member>)
        requires
            old(self).wf(),
        ensures
            final(self).wf(),
            final(self)@ == old(self)@,
            may_ask(old(self)@.view, target, k as nat, members_view(r@)),
    {
        let mut ids: Vec<u64> = self.candidates(Some(target));
        let ghost listed = ids@;
        let ghost m = self@.view;
        shuffle_ids(&mut ids, &mut self.rng);
        proof {
            lemma_shuffled(listed, ids@);
        }
        let mut out: Vec<Member> = Vec::new();
        let mut i: usize = 0;
        while i < ids.len() && i < k
            invariant
                self.wf(),
                self@ == old(self)@,
                m == self@.view,
                i <= ids@.len(),
                i <= k,
                ids@.no_duplicates(),
                forall|id: u64| ids@.contains(id) <==> #[trigger] can_probe(m, Some(target), id),
                out@.len() == i,
                forall|j: int|
                    0 <= j < i ==> (#[trigger] out@[j])@ == m.entries[ids@[j]].member
                        && out@[j]@.id.0 == ids@[j],
            decreases ids@.len() - i,
        {
            let id: u64 = ids[i];
            assert(ids@.contains(id));
            assert(can_probe(m, Some(target), id));
            match self.view.get(MemberId(id)) {
                Some(entry) => {
                    proof {
                        self.lemma_member_id(id);
                    }
                    out.push(entry.member);
                },
                None => {},
            }
            i = i + 1;
        }
        proof {
            let r = members_view(out@);
            assert forall|j: int| 0 <= j < r.len() implies can_probe(
                m,
                Some(target),
                (#[trigger] r[j]).id.0,
            ) && r[j] == m.entries[r[j].id.0].member by {
                assert(r[j] == out@[j]@);
                assert(ids@.contains(ids@[j]));
            }
            assert forall|a: int, b: int| 0 <= a < b < r.len() implies (#[trigger] r[a]).id != (
            #[trigger] r[b]).id by {
                assert(r[a] == out@[a]@ && r[b] == out@[b]@);
                assert(ids@[a] != ids@[b]);
            }
            if r.len() < k {
                assert forall|id: u64| #[trigger]
                    can_probe(m, Some(target), id) implies exists|j: int|
                    0 <= j < r.len() && (#[trigger] r[j]).id.0 == id by {
                    assert(ids@.contains(id));
                    let j = choose|j: int| 0 <= j < ids@.len() && ids@[j] == id;
                    assert(r[j] == out@[j]@);
                    assert(r[j].id.0 == id);
                }
            }
        }
        out
    }

    /// Suspects a peer, and spreads the news.
    pub fn suspect_target(&mut self, target: MemberId, now_ns: u64)
        requires
            old(self).wf(),
        ensures
            final(self).wf(),
            final(self)@ == suspected(old(self)@, target, now_ns),
    {
        let ghost s = self@;
        let from: MemberId = match self.view.local_id() {
            Some(l) => l,
            None => {
                return;
            },
        };
        let incarnation: Incarnation = match self.view.get(target) {
            Some(entry) => entry.incarnation,
            None => {
                return;
            },
        };
        let event: GossipEvent = GossipEvent::Suspect { id: target, incarnation, from };
        let timeout: u64 = self.suspicion_timeout();
        let outcome: ApplyOutcome = self.view.apply(&event, now_ns, timeout);
        match outcome {
            ApplyOutcome::NewMember | ApplyOutcome::Updated => {
                let live: usize = self.view.live_count();
                self.queue.push(event, live);
            },
            _ => {},
        }
        assert(self@ =~= suspected(s, target, now_ns));
    }

    /// Probes `target` directly.
    pub fn probe_target(&mut self, target: Member) -> (r: ProbeStep)
        requires
            old(self).wf(),
        ensures
            final(self).wf(),
            if old(self)@.view.local is None {
                r == ProbeStep::Done(ProbeOutcome::Idle) && final(self)@ == old(self)@
            } else {
                is_first_step(old(self)@, target@, final(self)@, r)
            },
    {
        let local: MemberId = match self.view.local_id() {
            Some(l) => l,
            None => {
                return ProbeStep::Done(ProbeOutcome::Idle);
            },
        };
        let seq: u64 = self.register_probe();
        let envelope: Envelope = self.seal(local, SwimMessage::Ping { seq, target: target.id });
        let to: SocketAddr = target.discovery_addr;
        let mut envelopes: Vec<Outgoing> = Vec::new();
        envelopes.push(Outgoing { envelope, to });
        ProbeStep::Wait { probe: Probe { target, seq, indirect: false }, envelopes }
    }

    /// Begins a probe of a random live peer. There is nothing to do exactly where
    /// there is none.
    pub fn probe_once(&mut self) -> (r: ProbeStep)
        requires
            old(self).wf(),
        ensures
            final(self).wf(),
            ({
                let m = old(self)@.view;
                ||| (forall|id: u64| !#[trigger] can_probe(m, None, id)) && r == ProbeStep::Done(
                    ProbeOutcome::Idle,
                ) && final(self)@ == old(self)@
                ||| exists|id: u64| #[trigger]
                    can_probe(m, None, id) && is_first_step(
                        old(self)@,
                        m.entries[id].member,
                        final(self)@,
                        r,
                    )
            }),
    {
        match self.pick_target() {
            None => ProbeStep::Done(ProbeOutcome::Idle),
            Some(target) => {
                let ghost id = target@.id.0;
                let r: ProbeStep = self.probe_target(target);
                assert(can_probe(old(self)@.view, None, id));
                r
            },
        }
    }

    /// Goes on with a direct probe that was not answered: asks the proxies to
    /// probe the peer, or suspects it where there are none. A node that does not
    /// know itself asks nobody.
    pub fn probe_through(&mut self, target: Member, proxies: &Vec<Member>, now_ns: u64) -> (r:
        ProbeStep)
        requires
            old(self).wf(),
        ensures
            final(self).wf(),
            if old(self)@.view.local is None && proxies@.len() > 0 {
                r == ProbeStep::Done(ProbeOutcome::Idle) && final(self)@ == old(self)@
            } else {
                is_second_step(
                    old(self)@,
                    target@,
                    members_view(proxies@),
                    now_ns,
                    final(self)@,
                    r,
                )
            },
    {
        let ghost s = self@;
        if proxies.len() == 0 {
            self.suspect_target(target.id, now_ns);
            return ProbeStep::Done(ProbeOutcome::Suspected);
        }
        let local: MemberId = match self.view.local_id() {
            Some(l) => l,
            None => {
                return ProbeStep::Done(ProbeOutcome::Idle);
            },
        };
        let seq: u64 = self.register_probe();
        let ghost p = self@;
        let mut envelopes: Vec<Outgoing> = Vec::new();
        let mut i: usize = 0;
        while i < proxies.len()
            invariant
                self.wf(),
                i <= proxies@.len(),
                p == with_probe(s),
                p.view.local == Some(local),
                self@ == after_requests(p, i as int),
                self@.view == p.view,
                self@.secret == p.secret,
                envelopes@.len() == i,
                forall|j: int|
                    0 <= j < i ==> (#[trigger] envelopes@[j]).to == proxies@[j]@.discovery_addr
                        && envelopes@[j].envelope@ == sealed(
                        after_requests(p, j),
                        SwimMessage::PingReq {
                            seq,
                            target: target@.id,
                            target_addr: target@.discovery_addr,
                        },
                    ),
            decreases proxies@.len() - i,
        {
            let envelope: Envelope = self.seal(
                local,
                SwimMessage::PingReq {
                    seq,
                    target: target.id,
                    target_addr: target.discovery_addr,
                },
            );
            envelopes.push(Outgoing { envelope, to: proxies[i].discovery_addr });
            i = i + 1;
        }
        ProbeStep::Wait { probe: Probe { target, seq, indirect: true }, envelopes }
    }

    /// Goes on with a probe once its answer has come, or the time is up. An
    /// answer ends it. A direct probe without one goes on through other members;
    /// an indirect one without one makes the peer suspect.
    pub fn probe_waited(&mut self, probe: Probe, answered: bool, now_ns: u64) -> (r: ProbeStep)
        requires
            old(self).wf(),
        ensures
            final(self).wf(),
            if answered {
                &&& final(self)@ == old(self)@
                &&& r == ProbeStep::Done(
                    if probe.indirect {
                        ProbeOutcome::IndirectAck
                    } else {
                        ProbeOutcome::DirectAck
                    },
                )
            } else {
                let s = without_probe(old(self)@, probe.seq);
                if probe.indirect {
                    &&& final(self)@ == suspected(s, probe.target@.id, now_ns)
                    &&& r == ProbeStep::Done(ProbeOutcome::Suspected)
                } else {
                    exists|proxies: Seq<MemberView>| #[trigger]
                        may_ask(
                            s.view,
                            probe.target@.id,
                            s.ask,
                            proxies,
                        ) && is_second_step(
                            s,
                            probe.target@,
                            proxies,
                            now_ns,
                            final(self)@,
                            r,
                        )
                }
            },
    {
        if answered {
            if probe.indirect {
                return ProbeStep::Done(ProbeOutcome::IndirectAck);
            }
            return ProbeStep::Done(ProbeOutcome::DirectAck);
        }
        self.forget_probe(probe.seq);
        if probe.indirect {
            self.suspect_target(probe.target.id, now_ns);
            return ProbeStep::Done(ProbeOutcome::Suspected);
        }
        let k: usize = self.config.indirect_probes as usize;
        let proxies: Vec<Member> = self.pick_proxies(probe.target.id, k);
        assert(may_ask(
            self@.view,
            probe.target@.id,
            self@.ask,
            members_view(proxies@),
        ));
        proof {
            if proxies@.len() > 0 {
                let first = members_view(proxies@)[0];
                assert(can_probe(self@.view, Some(probe.target@.id), first.id.0));
            }
        }
        self.probe_through(probe.target, &proxies, now_ns)
    }

    /// Declares dead every member whose suspicion has run out, and spreads the
    /// news. Returns those members.
    pub fn tick_reaper(&mut self, now_micros: u64) -> (r: Vec<MemberId>)
        requires
            old(self).wf(),
        ensures
            final(self).wf(),
            ({
                let now_ns = capped_product(now_micros, 1000);
                let s = old(self)@;
                let m = reaped(s.view, now_ns);
                &&& lists_deaths(s.view, now_ns, r@)
                &&& final(self)@ == (SwimState {
                    view: m,
                    queue: with_deaths(s.queue, m, r@, r@.len() as int),
                    ..s
                })
            }),
    {
        let ghost s = self@;
        let now_ns: u64 = micros_to_nanos(now_micros);
        let promoted: Vec<(MemberId, Incarnation)> = self.view.reap_suspects(now_ns);
        let ghost m = self.view@;
        let mut out: Vec<MemberId> = Vec::new();
        let mut i: usize = 0;
        while i < promoted.len()
            invariant
                self.wf(),
                i <= promoted@.len(),
                m == reaped(s.view, now_ns),
                crate::cluster::membership::is_promotion(s.view, now_ns, promoted@),
                out@.len() == i,
                forall|j: int| 0 <= j < i ==> #[trigger] out@[j] == promoted@[j].0,
                self@ == (SwimState { view: m, queue: with_deaths(s.queue, m, out@, i as int), ..s }),
            decreases promoted@.len() - i,
        {
            let id: MemberId = promoted[i].0;
            let incarnation: Incarnation = promoted[i].1;
            let ghost before = out@;
            out.push(id);
            proof {
                lemma_with_deaths(s.queue, m, before, out@, i as int);
                assert(s.view.entries.contains_key(promoted@[i as int].0.0));
                assert(m.entries[id.0].incarnation == incarnation);
            }
            if let Some(from) = self.view.local_id() {
                let live: usize = self.view.live_count();
                self.queue.push(GossipEvent::Dead { id, incarnation, from }, live);
            }
            i = i + 1;
        }
        proof {
            assert(lists_deaths(s.view, now_ns, out@)) by {
                assert forall|a: int, b: int|
                    0 <= a < out@.len() && 0 <= b < out@.len() && a != b implies out@[a]
                    != out@[b] by {
                    if a < b {
                        assert(promoted@[a].0 != promoted@[b].0);
                    } else {
                        assert(promoted@[b].0 != promoted@[a].0);
                    }
                }
                assert forall|k: int| 0 <= k < out@.len() implies s.view.entries.contains_key(
                    (#[trigger] out@[k]).0,
                ) && expired(s.view.entries[out@[k].0], now_ns) by {
                    assert(promoted@[k].0 == out@[k]);
                }
                assert forall|id: u64|
                    (#[trigger] s.view.entries.contains_key(id)) && expired(
                        s.view.entries[id],
                        now_ns,
                    ) implies out@.contains(MemberId(id)) by {
                    let k = choose|k: int|
                        0 <= k < promoted@.len() && (#[trigger] promoted@[k]).0.0 == id;
                    assert(out@[k] == MemberId(id));
                }
            }
        }
        out
    }
}

proof fn lemma_with_deaths(q: QueueView, m: Membership, a: Seq<MemberId>, b: Seq<MemberId>, n: int)
    requires
        n <= a.len(),
        n <= b.len(),
        forall|j: int| 0 <= j < n ==> #[trigger] a[j] == b[j],
    ensures
        with_deaths(q, m, a, n) == with_deaths(q, m, b, n),
    decreases n,
{
    if n > 0 {
        lemma_with_deaths(q, m, a, b, n - 1);
        assert(a[n - 1] == b[n - 1]);
    }
}

} // verus!
