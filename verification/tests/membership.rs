//! Gossip, membership and the failure detector.

use kamino::cluster::error::ClusterError;
use kamino::cluster::gossip::{budget_for, GossipQueue};
use kamino::cluster::membership::{ApplyOutcome, MemberState, MembershipView};
use kamino::cluster::message::{
    alive_for, open_datagram, seal_datagram, Envelope, GossipEvent, SwimMessage, MAX_DATAGRAM,
};
use kamino::cluster::swim::{
    Outgoing, ProbeOutcome, ProbeStep, ReceiveAction, Relay, SwimDriver,
};
use kamino::config::sections::SwimConfig;
use kamino::ids::MemberId;
use kamino::member::Member;
use kamino::net::{IpAddr, SocketAddr};
use std::collections::{BTreeMap, BTreeSet};

const MILLI: u64 = 1_000_000;

fn mk_member(id: u64, birthdate: u64, port: u16) -> Member {
    Member::new(
        MemberId::from_raw(id),
        &format!("n{id}"),
        SocketAddr::new(IpAddr::localhost(), port),
        SocketAddr::new(IpAddr::localhost(), port + 100),
        birthdate,
    )
}

fn alive(id: u64, incarnation: u64) -> GossipEvent {
    GossipEvent::Alive {
        id: MemberId::from_raw(id),
        name: format!("n{id}"),
        addr: SocketAddr::new(IpAddr::localhost(), 3320),
        discovery_addr: SocketAddr::new(IpAddr::localhost(), 3322),
        birthdate: 100,
        incarnation,
    }
}

#[test]
fn dedupes_identical_events() {
    let mut q = GossipQueue::with_capacity(8);
    q.push(alive(1, 1), 5);
    q.push(alive(1, 1), 5);
    assert_eq!(q.len(), 1);
}

#[test]
fn budget_decrements_per_drain() {
    let mut q = GossipQueue::with_capacity(8);
    q.push(alive(1, 1), 1);
    let b = budget_for(1);
    for _ in 0..b {
        assert_eq!(q.drain_for_send(4).len(), 1);
    }
    assert!(q.is_empty());
}

#[test]
fn queue_for_no_events_keeps_none() {
    let mut q = GossipQueue::with_capacity(0);
    q.push(alive(1, 1), 5);
    assert!(q.is_empty());
    let mut q = GossipQueue::default();
    q.push(alive(1, 1), 5);
    assert_eq!(q.len(), 0);
}

#[test]
fn capacity_evicts_oldest() {
    let mut q = GossipQueue::with_capacity(2);
    q.push(alive(1, 1), 5);
    q.push(alive(2, 1), 5);
    q.push(alive(3, 1), 5);
    let drained = q.drain_for_send(8);
    assert_eq!(drained.len(), 2);
    let ids: Vec<u64> = drained
        .iter()
        .filter_map(|e| match e {
            GossipEvent::Alive { id, .. } => Some(id.as_u64()),
            _ => None,
        })
        .collect();
    assert_eq!(ids, vec![2, 3]);
}

#[test]
fn budget_grows_with_cluster_size() {
    assert!(budget_for(1) < budget_for(100));
}

#[test]
fn bootstrap_self_is_coordinator() {
    let view = MembershipView::bootstrap(mk_member(1, 100, 3320));
    let snap = view.snapshot();
    assert_eq!(snap.len(), 1);
    assert!(snap[0].is_coordinator);
}

#[test]
fn alive_event_adds_member() {
    let mut view = MembershipView::bootstrap(mk_member(1, 100, 3320));
    let other = mk_member(2, 50, 3324);
    let outcome = view.apply(&alive_for(&other, 1), 0, 1_000_000_000);
    assert_eq!(outcome, ApplyOutcome::NewMember);
    let snap = view.snapshot();
    assert_eq!(snap.len(), 2);
    assert_eq!(snap[0].id.as_u64(), 2);
    assert!(snap[0].is_coordinator);
    assert!(!snap[1].is_coordinator);
}

fn suspect(id: u64, incarnation: u64, from: u64) -> GossipEvent {
    GossipEvent::Suspect {
        id: MemberId::from_raw(id),
        incarnation,
        from: MemberId::from_raw(from),
    }
}

fn dead(id: u64, incarnation: u64, from: u64) -> GossipEvent {
    GossipEvent::Dead { id: MemberId::from_raw(id), incarnation, from: MemberId::from_raw(from) }
}

#[test]
fn suspect_then_dead_reaps() {
    let mut view = MembershipView::bootstrap(mk_member(1, 100, 3320));
    let other = mk_member(2, 50, 3324);
    view.apply(&alive_for(&other, 3), 0, 1000);
    view.apply(&suspect(2, 3, 1), 0, 1000);
    let promoted = view.reap_suspects(5000);
    assert_eq!(promoted.len(), 1);
    assert_eq!(promoted[0].0.as_u64(), 2);
    assert_eq!(view.snapshot().len(), 1);
}

#[test]
fn alive_refutes_suspect_with_higher_incarnation() {
    let mut view = MembershipView::bootstrap(mk_member(1, 100, 3320));
    let other = mk_member(2, 50, 3324);
    view.apply(&alive_for(&other, 3), 0, 1000);
    view.apply(&suspect(2, 3, 1), 0, 1000);
    view.apply(&alive_for(&other, 4), 0, 1000);
    let entry = view.get(other.id).unwrap();
    assert_eq!(entry.state, MemberState::Alive);
    assert_eq!(entry.incarnation, 4);
}

#[test]
fn self_suspect_triggers_refutation_signal() {
    let mut view = MembershipView::bootstrap(mk_member(1, 100, 3320));
    let outcome = view.apply(&suspect(1, 1, 2), 0, 1000);
    assert_eq!(outcome, ApplyOutcome::SelfRefutationNeeded);
}

#[test]
fn coordinator_tiebreaker_uses_id() {
    let mut view = MembershipView::bootstrap(mk_member(5, 100, 3320));
    for id in [3_u64, 7, 1, 9] {
        let m = mk_member(id, 100, 3320 + id as u16 * 2);
        view.apply(&alive_for(&m, 1), 0, 1000);
    }
    let snap = view.snapshot();
    assert_eq!(snap[0].id.as_u64(), 1);
    assert!(snap[0].is_coordinator);
}

fn mk_envelope() -> Envelope {
    Envelope {
        cluster_secret: "s3cret".to_string(),
        from: MemberId::from_raw(0xdead_beef),
        msg: SwimMessage::Ping { seq: 42, target: MemberId::from_raw(0xc0de) },
        gossip: vec![alive(0xc0de, 7)],
    }
}

#[test]
fn bad_magic_rejected() {
    let mut bytes = seal_datagram(b"body").unwrap();
    assert_eq!(open_datagram(&bytes).unwrap(), b"body");
    bytes[0] = b'X';
    assert!(matches!(open_datagram(&bytes), Err(ClusterError::Codec(_))));
}

#[test]
fn unknown_version_rejected() {
    let mut bytes = seal_datagram(b"body").unwrap();
    bytes[2] = 0xFF;
    assert!(matches!(open_datagram(&bytes), Err(ClusterError::Codec(_))));
}

#[test]
fn long_datagrams_are_refused() {
    assert!(seal_datagram(&vec![0; MAX_DATAGRAM - 4]).is_ok());
    assert!(matches!(
        seal_datagram(&vec![0; MAX_DATAGRAM - 3]),
        Err(ClusterError::Codec(_))
    ));
    assert!(open_datagram(&[1, 2]).is_err());
}

#[test]
fn empty_secret_checks_nothing() {
    let env = mk_envelope();
    assert!(env.check_secret("").is_ok());
    let src = SocketAddr::new(IpAddr::localhost(), 4101);
    let mut node = mk_node(mk_member(1, 100, 4000), &[]);
    assert_eq!(node.secret(), "");
    assert!(node.handle_envelope(&env, src, 0).is_ok());
}

#[test]
fn secret_mismatch() {
    let env = mk_envelope();
    assert!(env.check_secret("nope").is_err());
    assert!(env.check_secret("s3cret").is_ok());
}

// ---------------------------------------------------------------------------
// What every order of events keeps
// ---------------------------------------------------------------------------

/// A small generator of numbers, so that runs repeat.
struct Lcg(u64);

impl Lcg {
    fn below(&mut self, n: u64) -> u64 {
        self.0 = self.0.wrapping_mul(6_364_136_223_846_793_005).wrapping_add(1_442_695_040_888_963_407);
        (self.0 >> 33) % n
    }
}

fn pool_member(id: u64) -> Member {
    mk_member(id, 100 + id, 10_000 + id as u16)
}

fn random_events(g: &mut Lcg) -> Vec<(u64, u64, u64)> {
    let n = 1 + g.below(40);
    (0..n).map(|_| (1 + g.below(8), 1 + g.below(5), g.below(3))).collect()
}

fn event_of(e: &(u64, u64, u64)) -> GossipEvent {
    match e.2 {
        0 => alive_for(&pool_member(e.0), e.1),
        1 => suspect(e.0, e.1, 2),
        _ => dead(e.0, e.1, 2),
    }
}

#[test]
fn convergence_order_independent() {
    for seed in 0..50 {
        let mut g = Lcg(seed);
        let raw = random_events(&mut g);
        // Of each member and incarnation the strongest claim counts.
        let mut strongest: BTreeMap<(u64, u64), u64> = BTreeMap::new();
        for e in &raw {
            let r = strongest.entry((e.0, e.1)).or_insert(e.2);
            *r = (*r).max(e.2);
        }
        let ops: Vec<(u64, u64, u64)> = strongest.into_iter().map(|((a, b), c)| (a, b, c)).collect();
        let mut shuffled = ops.clone();
        for i in (1..shuffled.len()).rev() {
            let j = g.below(i as u64 + 1) as usize;
            shuffled.swap(i, j);
        }
        let ids: BTreeSet<u64> = ops.iter().map(|e| e.0).collect();
        let mut views = Vec::new();
        for list in [&ops, &shuffled] {
            let mut v = MembershipView::bootstrap(mk_member(99, 0, 9000));
            for id in &ids {
                v.apply(&alive_for(&pool_member(*id), 0), 7, 11);
            }
            for e in list {
                v.apply(&event_of(e), 7, 11);
            }
            let sig: BTreeMap<u64, (u64, MemberState, u64)> = v
                .snapshot_all()
                .into_iter()
                .map(|(m, s, i)| (m.id.as_u64(), (m.birthdate, s, i)))
                .collect();
            views.push(sig);
        }
        assert_eq!(views[0], views[1], "seed {seed}");
    }
}

#[test]
fn incarnation_monotonic_and_dead_absorbing() {
    for seed in 0..50 {
        let mut g = Lcg(seed);
        let mut v = MembershipView::bootstrap(mk_member(99, 0, 9000));
        let mut max_inc: BTreeMap<u64, u64> = BTreeMap::new();
        let mut dead_at: BTreeMap<u64, u64> = BTreeMap::new();
        for e in random_events(&mut g) {
            v.apply(&event_of(&e), 7, 11);
            for (m, state, inc) in v.snapshot_all() {
                let id = m.id.as_u64();
                assert!(inc >= max_inc.get(&id).copied().unwrap_or(0));
                max_inc.insert(id, inc);
                if let Some(d) = dead_at.get(&id) {
                    if inc <= *d {
                        assert_eq!(state, MemberState::Dead);
                    }
                }
                if state == MemberState::Dead {
                    dead_at.insert(id, inc);
                }
            }
        }
    }
}

#[test]
fn coordinator_is_unique() {
    for seed in 0..50 {
        let mut g = Lcg(seed);
        let mut v = MembershipView::bootstrap(mk_member(99, 0, 9000));
        for e in random_events(&mut g) {
            v.apply(&event_of(&e), 7, 11);
        }
        let snap = v.snapshot();
        let count = snap.iter().filter(|m| m.is_coordinator).count();
        assert!(count <= 1, "multiple coordinators in {snap:?}");
    }
}

// ---------------------------------------------------------------------------
// The failure detector, over a network in memory
// ---------------------------------------------------------------------------

fn mk_config() -> SwimConfig {
    SwimConfig {
        probe_interval: 200 * MILLI,
        probe_timeout: 50 * MILLI,
        indirect_probes: 2,
        suspicion_multiplier: 3,
    }
}

fn mk_node(member: Member, peers: &[Member]) -> SwimDriver {
    let mut view = MembershipView::bootstrap(member.clone());
    for p in peers {
        view.apply(&alive_for(p, 1), 0, 600 * MILLI);
    }
    let mut queue = GossipQueue::with_capacity(64);
    queue.push(alive_for(&member, view.local_incarnation()), peers.len() + 1);
    SwimDriver::new(mk_config(), view, queue, String::new())
}

struct Net {
    nodes: Vec<(SocketAddr, SwimDriver)>,
    dropped: Vec<(SocketAddr, SocketAddr)>,
    /// Probes that a node makes for others: node, probe, relay.
    relays: Vec<(SocketAddr, u64, Relay)>,
    /// Probes that were answered: node, probe.
    answered: Vec<(SocketAddr, u64)>,
    now_ns: u64,
}

impl Net {
    fn new(nodes: Vec<(Member, SwimDriver)>) -> Net {
        Net {
            nodes: nodes.into_iter().map(|(m, d)| (m.discovery_addr, d)).collect(),
            dropped: Vec::new(),
            relays: Vec::new(),
            answered: Vec::new(),
            now_ns: 1_000,
        }
    }

    fn node(&mut self, at: SocketAddr) -> &mut SwimDriver {
        &mut self.nodes.iter_mut().find(|n| n.0 == at).unwrap().1
    }

    fn send(&mut self, from: SocketAddr, out: Outgoing) {
        let Outgoing { envelope, to } = out;
        if self.dropped.contains(&(from, to)) || !self.nodes.iter().any(|n| n.0 == to) {
            return;
        }
        let now = self.now_ns;
        match self.node(to).handle_envelope(&envelope, from, now).unwrap() {
            ReceiveAction::Nothing => {},
            ReceiveAction::Reply(e) => self.send(to, Outgoing { envelope: e, to: from }),
            ReceiveAction::Complete(seq) => {
                self.answered.push((to, seq));
                let found = self.relays.iter().position(|r| r.0 == to && r.1 == seq);
                if let Some(i) = found {
                    let (_, _, relay) = self.relays.remove(i);
                    if let Some(answer) = self.node(to).relay_answered(relay) {
                        self.send(to, answer);
                    }
                }
            },
            ReceiveAction::Forward { inner_seq, envelope, to: next, relay } => {
                self.relays.push((to, inner_seq, relay));
                self.send(to, Outgoing { envelope, to: next });
            },
        }
    }

    fn probe(&mut self, at: SocketAddr) -> ProbeOutcome {
        let mut step = self.node(at).probe_once();
        loop {
            match step {
                ProbeStep::Done(o) => return o,
                ProbeStep::Wait { probe, envelopes } => {
                    for e in envelopes {
                        self.send(at, e);
                    }
                    let seq = probe.seq;
                    let ok = self.answered.contains(&(at, seq));
                    let now = self.now_ns;
                    step = self.node(at).probe_waited(probe, ok, now);
                },
            }
        }
    }
}

#[test]
fn direct_ping_ack_roundtrip() {
    let a = mk_member(1, 100, 10_000);
    let b = mk_member(2, 200, 10_001);
    let mut net = Net::new(vec![
        (a.clone(), mk_node(a.clone(), &[b.clone()])),
        (b.clone(), mk_node(b.clone(), &[a.clone()])),
    ]);
    assert_eq!(net.probe(a.discovery_addr), ProbeOutcome::DirectAck);
}

fn three() -> (Member, Member, Member, Net) {
    let a = mk_member(1, 100, 10_010);
    let b = mk_member(2, 200, 10_011);
    let c = mk_member(3, 300, 10_012);
    let net = Net::new(vec![
        (a.clone(), mk_node(a.clone(), &[b.clone(), c.clone()])),
        (b.clone(), mk_node(b.clone(), &[a.clone(), c.clone()])),
        (c.clone(), mk_node(c.clone(), &[a.clone(), b.clone()])),
    ]);
    (a, b, c, net)
}

#[test]
fn indirect_probe_succeeds_when_direct_fails() {
    let (a, b, _c, mut net) = three();
    net.dropped.push((a.discovery_addr, b.discovery_addr));
    net.dropped.push((b.discovery_addr, a.discovery_addr));
    let mut saw_indirect = false;
    for _ in 0..64 {
        match net.probe(a.discovery_addr) {
            ProbeOutcome::IndirectAck => {
                saw_indirect = true;
                break;
            },
            ProbeOutcome::Suspected => {
                panic!("target was suspected; indirect probe should have succeeded");
            },
            ProbeOutcome::DirectAck | ProbeOutcome::Idle => {},
        }
    }
    assert!(saw_indirect, "no indirect-ack observed across probes");
}

#[test]
fn direct_and_indirect_both_fail_then_suspect() {
    let (a, b, _c, mut net) = three();
    net.nodes.retain(|n| n.0 != b.discovery_addr);
    let mut suspected = false;
    for _ in 0..64 {
        if net.probe(a.discovery_addr) == ProbeOutcome::Suspected {
            suspected = true;
            break;
        }
    }
    assert!(suspected, "B never entered Suspect across probes");
    let entry = net.node(a.discovery_addr).membership().get(b.id).expect("B in A's view");
    assert_eq!(entry.state, MemberState::Suspect);
    let drained = net.node(a.discovery_addr).drain_gossip(8);
    assert!(
        drained.iter().any(|e| matches!(e, GossipEvent::Suspect { id, .. } if *id == b.id)),
        "expected Suspect event for B in gossip queue, got {drained:?}"
    );
}

#[test]
fn suspect_timer_promotes_to_dead_and_gossips() {
    let a = mk_member(1, 100, 10_030);
    let b = mk_member(2, 200, 10_031);
    let mut node_a = mk_node(a.clone(), &[b.clone()]);
    let start_micros: u64 = 1_700_000_000_000_000;
    node_a.apply_piggyback(
        &vec![GossipEvent::Suspect { id: b.id, incarnation: 1, from: a.id }],
        start_micros * 1_000,
    );
    // Spend what is queued, so that only the death is left to see.
    while !node_a.drain_gossip(64).is_empty() {}
    let promoted = node_a.tick_reaper(start_micros);
    assert!(promoted.is_empty(), "no promotion before suspicion timeout");
    let later = start_micros + node_a.suspicion_timeout() / 1_000 + 50_000;
    let promoted = node_a.tick_reaper(later);
    assert_eq!(promoted, vec![b.id]);
    let drained = node_a.drain_gossip(16);
    assert!(
        drained.iter().any(|e| matches!(e, GossipEvent::Dead { id, .. } if *id == b.id)),
        "expected Dead event for B, got {drained:?}"
    );
    assert!(node_a.membership().snapshot().iter().all(|m| m.id != b.id));
}

#[test]
fn self_suspect_triggers_refutation_broadcast() {
    let a = mk_member(1, 100, 10_040);
    let b = mk_member(2, 200, 10_041);
    let mut node_a = mk_node(a.clone(), &[b.clone()]);
    while !node_a.drain_gossip(64).is_empty() {}
    let start_inc = node_a.membership().local_incarnation();
    let env = Envelope {
        cluster_secret: String::new(),
        from: b.id,
        msg: SwimMessage::Ping { seq: 99, target: a.id },
        gossip: vec![GossipEvent::Suspect { id: a.id, incarnation: start_inc, from: b.id }],
    };
    match node_a.handle_envelope(&env, b.discovery_addr, 5).unwrap() {
        ReceiveAction::Reply(reply) => {
            assert!(matches!(reply.msg, SwimMessage::Ack { seq: 99, .. }));
        },
        other => panic!("unexpected: {other:?}"),
    }
    let mut found = None;
    for ev in node_a.drain_gossip(64) {
        if let GossipEvent::Alive { id, incarnation, .. } = ev {
            if id == a.id && incarnation > start_inc {
                found = Some(incarnation);
            }
        }
    }
    let refuted = found.expect("refutation Alive for self not enqueued");
    assert!(refuted > start_inc);
    assert!(node_a.membership().local_incarnation() > start_inc);
}

#[test]
fn gossip_piggybacks_on_every_outgoing_envelope() {
    let a = mk_member(1, 100, 10_050);
    let b = mk_member(2, 200, 10_051);
    let mut node_a = mk_node(a.clone(), &[b.clone()]);
    let beacon = GossipEvent::Suspect {
        id: MemberId::from_raw(0x9999),
        incarnation: 7,
        from: a.id,
    };
    node_a.announce(beacon.clone());
    match node_a.probe_once() {
        ProbeStep::Wait { envelopes, .. } => {
            assert!(!envelopes.is_empty());
            assert!(envelopes.iter().any(|e| e.envelope.gossip.iter().any(|g| g == &beacon)));
        },
        other => panic!("unexpected: {other:?}"),
    }
}

#[test]
fn foreign_envelopes_are_refused() {
    let a = mk_member(1, 100, 10_060);
    let b = mk_member(2, 200, 10_061);
    let view = MembershipView::bootstrap(a);
    let queue = GossipQueue::with_capacity(8);
    let mut node_a = SwimDriver::new(mk_config(), view, queue, "other".to_string());
    let mut env = mk_envelope();
    let err = node_a.handle_envelope(&env, b.discovery_addr, 5).unwrap_err();
    assert!(matches!(err, ClusterError::Handshake(_)));
    env.cluster_secret = String::new();
    assert!(node_a.handle_envelope(&env, b.discovery_addr, 5).is_err());
    env.cluster_secret = "other".to_string();
    assert!(node_a.handle_envelope(&env, b.discovery_addr, 5).is_ok());
}

#[test]
fn three_node_cluster_converges_within_three_probe_intervals() {
    let a = mk_member(1, 100, 10_070);
    let b = mk_member(2, 200, 10_071);
    let c = mk_member(3, 300, 10_072);
    let mut net = Net::new(vec![
        (a.clone(), mk_node(a.clone(), &[])),
        (b.clone(), mk_node(b.clone(), &[])),
        (c.clone(), mk_node(c.clone(), &[])),
    ]);
    // Each node asks those that were there before it.
    for (at, seeds) in [(&b, vec![&a]), (&c, vec![&a, &b])] {
        for seed in seeds {
            let (_, envelope) = net.node(at.discovery_addr).join_probe().unwrap();
            net.send(at.discovery_addr, Outgoing { envelope, to: seed.discovery_addr });
        }
    }
    for _ in 0..3 {
        for m in [&a, &b, &c] {
            net.probe(m.discovery_addr);
        }
    }
    for (_, driver) in &net.nodes {
        let mut ids: Vec<u64> =
            driver.membership().snapshot().iter().map(|m| m.id.as_u64()).collect();
        ids.sort_unstable();
        assert_eq!(ids, vec![1, 2, 3]);
    }
}

#[test]
fn tombstones_go_after_their_time() {
    let mut view = MembershipView::bootstrap(mk_member(1, 100, 3320));
    let other = mk_member(2, 50, 3324);
    view.apply(&alive_for(&other, 3), 0, 1000);
    view.apply(&suspect(2, 3, 1), 0, 1000);
    assert_eq!(view.reap_suspects(1000), vec![(other.id, 3)]);
    view.evict_tombstones(500, 1499);
    assert_eq!(view.get(other.id).unwrap().state, MemberState::Dead);
    view.evict_tombstones(500, 1500);
    assert!(view.get(other.id).is_none());
}

#[test]
fn members_are_found_by_address() {
    let mut view = MembershipView::bootstrap(mk_member(1, 100, 3320));
    let other = mk_member(2, 50, 3324);
    view.apply(&alive_for(&other, 3), 0, 1000);
    let found = view.find_by_discovery_addr(other.discovery_addr).unwrap();
    assert_eq!(found.member.id, other.id);
    assert!(view.find_by_discovery_addr(other.addr).is_none());
    assert_eq!(other.coord_key(), (50, 2));
}
