//! Balancing, events, discovery, forwarding and the node as a whole.

use bytes::Bytes;
use kamino::client::migration::encode_fragment_payload;
use kamino::cluster::balancer::{
    orphans_of, plan_tick, Migration, MigrationAction, MigrationPlan,
};
use kamino::cluster::discovery::{DnsDiscovery, PeerText, StaticDiscovery};
use kamino::cluster::error::ClusterError;
use kamino::cluster::events::{
    escape_json, membership_changes, peer_list, ClusterEvent, PubSubEventsSink,
};
use kamino::cluster::forwarder::{
    forwarder_config_from, reconnect_backoff, InFlight, PeerPool, PoolStep,
};
use kamino::cluster::join::{Join, JoinRound, JoinStep};
use kamino::cluster::membership::MemberState;
use kamino::cluster::message::alive_for;
use kamino::cluster::pubsub::PubSubService;
use kamino::cluster::replies::{
    delete_reply, handshake_reply, hello_command, map_reply, move_fragment_command,
    move_fragment_reply, publish_total, routing_push_command, routing_push_reply,
};
use kamino::cluster::routing::coordinator::CoordinatorAction;
use kamino::cluster::routing::store::RoutingTableStore;
use kamino::cluster::routing::table::RoutingTable;
use kamino::cluster::runtime::Cluster;
use kamino::config::node::Config;
use kamino::hasher::XxHasher;
use kamino::ids::MemberId;
use kamino::member::Member;
use kamino::net::{IpAddr, SocketAddr};
use kamino::protocol::command::{Command, PartitionType};
use kamino::protocol::frame::Frame;
use std::collections::HashMap;

fn mk_member(id: u64, birthdate: u64, port: u16) -> Member {
    Member::new(
        MemberId::from_raw(id),
        &format!("n{id}"),
        SocketAddr::new(IpAddr::localhost(), port),
        SocketAddr::new(IpAddr::localhost(), port + 2),
        birthdate,
    )
}

fn capacity(partition_count: u32, members: usize) -> u32 {
    (f64::from(partition_count) / members as f64 * 1.25).ceil().max(1.0) as u32
}

fn store_with_table(members: Vec<Member>, replica_count: u32) -> RoutingTableStore {
    let mut store = RoutingTableStore::new();
    let cap = capacity(8, members.len());
    let table = RoutingTable::build(members, &XxHasher, 8, 4, cap, replica_count, 1).unwrap();
    store.apply(table);
    store
}

/// A payload that is not empty.
fn payload(part: u32) -> Vec<u8> {
    let mut buf = vec![0x01_u8];
    buf.extend_from_slice(&part.to_le_bytes());
    buf.extend_from_slice(&1_u32.to_le_bytes());
    buf.extend_from_slice(&[0_u8; 32]);
    buf
}

struct Tick {
    sent: Vec<(SocketAddr, u32, String)>,
    cleared: Vec<(String, u32)>,
}

/// Runs one tick: `export` gives the payload of a partition, `fail` says which
/// sends fail.
fn run_tick(
    store: &RoutingTableStore,
    local: MemberId,
    held: &Vec<(String, u32)>,
    export: fn(u32) -> Vec<u8>,
    fail: bool,
) -> Tick {
    let mut t = Tick { sent: Vec::new(), cleared: Vec::new() };
    for plan in plan_tick(store, local, held) {
        let (dmap, part, peer) = (plan.dmap.clone(), plan.partition_id, plan.peer);
        let mut m = Migration::new(plan);
        let mut action = m.exported(Ok(export(part)));
        loop {
            action = match action {
                MigrationAction::Send(c) => {
                    assert!(matches!(c, Command::InternalNodeMoveFragment { .. }));
                    if fail {
                        m.sent(Err(ClusterError::Timeout("injected".to_string())))
                    } else {
                        t.sent.push((peer, part, dmap.clone()));
                        m.sent(Ok(()))
                    }
                },
                MigrationAction::Clear => {
                    t.cleared.push((dmap.clone(), part));
                    m.cleared(Ok(1))
                },
                MigrationAction::Finish(_) | MigrationAction::Fail(_) => break,
            };
        }
    }
    t
}

#[test]
fn tick_skips_when_routing_unset() {
    let store = RoutingTableStore::new();
    let held = vec![("dm".to_string(), 0)];
    let t = run_tick(&store, MemberId::from_raw(1), &held, payload, false);
    assert!(t.sent.is_empty());
    assert!(t.cleared.is_empty());
}

#[test]
fn tick_noop_when_local_owns_every_partition() {
    let me = mk_member(1, 100, 3320);
    let store = store_with_table(vec![me.clone()], 1);
    let held = vec![("dm".to_string(), 0), ("dm".to_string(), 1)];
    let t = run_tick(&store, me.id, &held, payload, false);
    assert!(t.sent.is_empty());
    assert!(t.cleared.is_empty());
}

fn owned_by(store: &RoutingTableStore, id: MemberId) -> Vec<u32> {
    let snap = store.snapshot().expect("table populated");
    (0..8).filter(|p| snap.primary_for(*p).map(|m| m.id) == Some(id)).collect()
}

#[test]
fn tick_migrates_orphans_and_clears_locally() {
    let me = mk_member(1, 100, 3320);
    let other = mk_member(2, 200, 3322);
    let store = store_with_table(vec![me.clone(), other.clone()], 1);
    let mut orphan_parts = owned_by(&store, other.id);
    assert!(!orphan_parts.is_empty(), "expected at least one orphan partition");
    orphan_parts.truncate(2);
    let local: Vec<(String, u32)> = orphan_parts.iter().map(|p| ("dm".to_string(), *p)).collect();
    let t = run_tick(&store, me.id, &local, payload, false);
    assert_eq!(t.sent.len(), local.len());
    for (peer, part, dmap) in &t.sent {
        assert_eq!(*peer, other.addr);
        assert_eq!(dmap, "dm");
        assert!(orphan_parts.contains(part));
    }
    assert_eq!(t.cleared.len(), local.len());
    let orphans = orphans_of(&plan_tick(&store, me.id, &local));
    assert_eq!(orphans.len(), local.len());
}

#[test]
fn tick_retries_after_transport_failure() {
    let me = mk_member(1, 100, 3320);
    let other = mk_member(2, 200, 3322);
    let store = store_with_table(vec![me.clone(), other.clone()], 1);
    let part = owned_by(&store, other.id)[0];
    let held = vec![("dm".to_string(), part)];
    let t = run_tick(&store, me.id, &held, payload, true);
    assert!(t.sent.is_empty());
    assert!(t.cleared.is_empty());
    let t = run_tick(&store, me.id, &held, payload, false);
    assert_eq!(t.sent.len(), 1);
    assert_eq!(t.cleared.len(), 1);
}

#[test]
fn tick_skips_empty_payload() {
    let me = mk_member(1, 100, 3320);
    let other = mk_member(2, 200, 3322);
    let store = store_with_table(vec![me.clone(), other.clone()], 1);
    let held: Vec<(String, u32)> =
        owned_by(&store, other.id).into_iter().map(|p| ("dm".to_string(), p)).collect();
    let empty = |part: u32| encode_fragment_payload(part, &Vec::new());
    let t = run_tick(&store, me.id, &held, empty, false);
    assert!(t.sent.is_empty());
    assert!(t.cleared.is_empty());
}

#[test]
fn property_random_join_leave_converges() {
    for topology_size in 1..=4_u64 {
        let members: Vec<Member> =
            (1..=topology_size).map(|i| mk_member(i, i * 100, 3320 + 2 * i as u16)).collect();
        let store = store_with_table(members.clone(), 1);
        let me = members.first().unwrap();
        let mine = owned_by(&store, me.id);
        let orphans: Vec<(String, u32)> =
            (0..8).filter(|p| !mine.contains(p)).map(|p| ("dm".to_string(), p)).collect();
        let mut held = orphans.clone();
        let mut clears = 0;
        for _ in 0..5 {
            let t = run_tick(&store, me.id, &held, payload, false);
            clears += t.cleared.len();
            held.retain(|h| !t.cleared.contains(h));
            if held.is_empty() {
                break;
            }
        }
        assert!(held.is_empty(), "failed to converge, leftover {held:?}");
        assert_eq!(clears, orphans.len(), "clear count must equal orphan count");
    }
}

#[test]
fn failed_exports_end_a_migration() {
    let plan = MigrationPlan {
        dmap: "dm".to_string(),
        partition_id: 1,
        peer: SocketAddr::new(IpAddr::localhost(), 1),
    };
    let mut m = Migration::new(plan);
    assert_eq!(m.plan().partition_id, 1);
    match m.exported(Err(ClusterError::Timeout("t".to_string()))) {
        MigrationAction::Fail(ClusterError::Timeout(m)) => assert_eq!(m, "t"),
        other => panic!("unexpected: {other:?}"),
    }
}

// ---------------------------------------------------------------------------
// Events
// ---------------------------------------------------------------------------

fn listening() -> PubSubService {
    let mut svc = PubSubService::new();
    let id = svc.next_conn_id();
    svc.register_conn(id);
    svc.subscribe(id, &[Bytes::from_static(b"cluster.events")]);
    svc
}

fn published(local: &str, event: ClusterEvent) -> String {
    let svc = listening();
    let sink = PubSubEventsSink::new(local.to_string());
    let got = sink.publish(&svc, &event);
    assert_eq!(got.len(), 1);
    String::from_utf8(got[0].message.payload.to_vec()).expect("utf8")
}

fn addr(d: u8) -> SocketAddr {
    SocketAddr::new(IpAddr::v4(10, 0, 1, d), 3320)
}

#[test]
fn fragment_migration_renders_from_to_per_doc() {
    let body = published(
        "node-1",
        ClusterEvent::FragmentMigration {
            dmap: "sessions".to_string(),
            partition_id: 42,
            peer: addr(3),
            entries: 7,
        },
    );
    assert!(body.contains("\"type\":\"fragment-migration\""));
    assert!(body.contains("\"partition\":42"));
    assert!(body.contains("\"from\":\"node-1\""));
    assert!(body.contains("\"to\":\"10.0.1.3:3320\""));
    assert!(body.contains("\"entries\":7"));
}

#[test]
fn fragment_received_renders_from_to_inverted() {
    let body = published(
        "node-3",
        ClusterEvent::FragmentReceived {
            dmap: "sessions".to_string(),
            partition_id: 42,
            peer: addr(1),
            applied: 5,
        },
    );
    assert!(body.contains("\"type\":\"fragment-received\""));
    assert!(body.contains("\"from\":\"10.0.1.1:3320\""));
    assert!(body.contains("\"to\":\"node-3\""));
    assert!(body.contains("\"applied\":5"));
}

#[test]
fn node_join_uses_member_name() {
    let body = published(
        "node-1",
        ClusterEvent::NodeJoin { member: "node-3".to_string(), addr: addr(3) },
    );
    assert!(body.contains("\"type\":\"node-join\""));
    assert!(body.contains("\"member\":\"node-3\""));
    assert!(body.contains("\"addr\":\"10.0.1.3:3320\""));
}

#[test]
fn node_left_uses_member_name() {
    let body = published(
        "node-1",
        ClusterEvent::NodeLeft { member: "node-2".to_string(), addr: addr(2) },
    );
    assert!(body.contains("\"type\":\"node-left\""));
    assert!(body.contains("\"member\":\"node-2\""));
}

#[test]
fn json_text_is_escaped() {
    assert_eq!(escape_json("a\"b\\c\nd\te\u{1}"), "a\\\"b\\\\c\\nd\\te\\u0001");
}

#[test]
fn joins_and_departures_are_noticed() {
    let a = mk_member(1, 100, 3320);
    let b = mk_member(2, 200, 3322);
    let c = mk_member(3, 300, 3324);
    let before = peer_list(&vec![a.clone(), b.clone()], a.id);
    let after = peer_list(&vec![a.clone(), c.clone()], a.id);
    let changes = membership_changes(&before, &after);
    assert_eq!(changes.len(), 2);
    assert!(matches!(&changes[0], ClusterEvent::NodeJoin { member, .. } if member == "n3"));
    assert!(matches!(&changes[1], ClusterEvent::NodeLeft { member, .. } if member == "n2"));
    assert!(membership_changes(&after, &after).is_empty());
}

// ---------------------------------------------------------------------------
// Discovery, joining and forwarding
// ---------------------------------------------------------------------------

#[test]
fn parses_and_returns_peers() {
    let peers = vec![
        PeerText { raw: "127.0.0.1:3322".to_string(), parsed: Ok(SocketAddr::new(IpAddr::localhost(), 3322)) },
        PeerText { raw: "10.0.0.1:3322".to_string(), parsed: Ok(SocketAddr::new(IpAddr::v4(10, 0, 0, 1), 3322)) },
    ];
    let plugin = StaticDiscovery::new(&peers).unwrap();
    assert_eq!(plugin.discover().len(), 2);
    assert_eq!(plugin.name(), "static");
}

#[test]
fn rejects_bad_peer() {
    let peers = vec![PeerText {
        raw: "not-a-socket-addr".to_string(),
        parsed: Err("invalid socket address syntax".to_string()),
    }];
    let err = StaticDiscovery::new(&peers).unwrap_err();
    assert!(matches!(err, ClusterError::Config(_)));
}

#[test]
fn dns_names_are_asked_with_their_port() {
    let d = DnsDiscovery::new("kamino.local", 3322);
    assert_eq!(d.query(), "kamino.local:3322");
    assert_eq!(d.name(), "dns");
    match d.lookup_failed("nxdomain") {
        ClusterError::Discovery(m) => {
            assert_eq!(m, "dns lookup 'kamino.local:3322': nxdomain");
        },
        other => panic!("unexpected: {other:?}"),
    }
}

#[test]
fn joining_is_tried_again() {
    let mut j = Join::new(2);
    assert!(matches!(j.after(JoinRound::Silent), JoinStep::Retry));
    assert!(matches!(j.after(JoinRound::Silent), JoinStep::GiveUp(_)));
    let mut j = Join::new(2);
    assert!(matches!(j.after(JoinRound::Answered(3)), JoinStep::Joined(3)));
    let mut j = Join::new(2);
    assert!(matches!(j.after(JoinRound::Nobody), JoinStep::Joined(0)));
}

#[test]
fn moved_reply_surfaces_as_moved_error() {
    let mut f = InFlight::new();
    f.sent(1);
    let (id, r) = f.answered(Frame::Error("MOVED 3 127.0.0.1:9999".to_string())).unwrap();
    assert_eq!(id, 1);
    assert!(matches!(r, Err(ClusterError::Moved(ref s)) if s.contains("127.0.0.1:9999")));
    assert!(map_reply(Frame::Integer(1)).is_ok());
}

#[test]
fn forward_returns_pong() {
    let mut f = InFlight::new();
    f.sent(7);
    let (id, r) = f.answered(Frame::SimpleString("PONG".to_string())).unwrap();
    assert_eq!(id, 7);
    assert!(matches!(r, Ok(Frame::SimpleString(ref s)) if s == "PONG"));
    assert!(f.answered(Frame::Null).is_none());
    f.sent(8);
    f.sent(9);
    let told = f.failed("gone");
    assert_eq!(told.len(), 2);
    assert_eq!((told[0].0, told[1].0), (8, 9));
    assert!(matches!(&told[0].1, ClusterError::ServerGone(m) if m == "gone"));
}

#[test]
fn evict_peer_drains_pool() {
    let at = SocketAddr::new(IpAddr::localhost(), 65500);
    let mut p = PeerPool::new(at, 1);
    assert!(matches!(p.pick(&vec![]), Ok(PoolStep::Dial)));
    assert!(p.dialed(1));
    assert!(!p.dialed(2));
    assert!(matches!(p.pick(&vec![true]), Ok(PoolStep::Use(1))));
    assert_eq!(p.evict(), vec![1]);
    assert!(p.connections().is_empty());
    // A new pool takes its place on demand.
    let mut p = PeerPool::new(at, 1);
    assert!(matches!(p.pick(&vec![]), Ok(PoolStep::Dial)));
}

#[test]
fn backoff_grows_to_its_bound() {
    let c = forwarder_config_from(&Config::default());
    let first = reconnect_backoff(&c, 0);
    assert_eq!(first, c.reconnect_backoff_min);
    assert!(reconnect_backoff(&c, 1) >= first);
    assert_eq!(reconnect_backoff(&c, 1000), c.reconnect_backoff_max);
}

#[test]
fn answers_of_peers_are_understood() {
    let ok = Frame::SimpleString("OK".to_string());
    assert!(handshake_reply(&ok, "").is_ok());
    assert!(matches!(
        handshake_reply(&Frame::Error("NOAUTH".to_string()), ""),
        Err(ClusterError::Handshake(_))
    ));
    assert!(routing_push_reply(&Frame::SimpleString("STALE".to_string()), "").is_ok());
    assert!(routing_push_reply(&Frame::Integer(1), "i").is_err());
    let peer = addr(9);
    assert!(move_fragment_reply(peer, &ok, "").is_ok());
    match move_fragment_reply(peer, &Frame::Error("no".to_string()), "") {
        Err(ClusterError::ServerGone(m)) => {
            assert_eq!(m, "MOVEFRAGMENT rejected by 10.0.1.9:3320: no");
        },
        other => panic!("unexpected: {other:?}"),
    }
    assert!(matches!(delete_reply(&Frame::Integer(3), ""), Ok(3)));
    match delete_reply(&Frame::SimpleString("PARTIAL 2 peer down".to_string()), "") {
        Err(ClusterError::ServerGone(m)) => {
            assert_eq!(m, "downstream partial: count=2, err=peer down");
        },
        other => panic!("unexpected: {other:?}"),
    }
    let replies = vec![
        Ok(Frame::Integer(2)),
        Ok(Frame::Integer(-2)),
        Err(ClusterError::Timeout("t".to_string())),
        Ok(Frame::Integer(3)),
    ];
    assert_eq!(publish_total(1, &replies), 6);
    assert!(matches!(hello_command(""), Command::Hello(h) if h.auth.is_none()));
    assert!(matches!(hello_command("x"), Command::Hello(h) if h.auth.is_some()));
    assert_eq!(
        routing_push_command(b"t"),
        Command::InternalNodeUpdateRouting { table: Bytes::from_static(b"t") }
    );
    assert_eq!(
        move_fragment_command(4, PartitionType::Primary, "m", b"p"),
        Command::InternalNodeMoveFragment {
            partition_id: 4,
            partition_type: PartitionType::Primary,
            dmap: Bytes::from_static(b"m"),
            payload: Bytes::from_static(b"p"),
        }
    );
}

// ---------------------------------------------------------------------------
// The node as a whole
// ---------------------------------------------------------------------------

fn node(id: u64, birthdate: u64) -> Cluster<XxHasher> {
    Cluster::assemble(&Config::default(), mk_member(id, birthdate, 3320 + 10 * id as u16), XxHasher)
}

/// Every node hears of every other one.
fn introduce(nodes: &mut [Cluster<XxHasher>]) {
    let members: Vec<Member> = nodes.iter().map(|n| n.local_member()).collect();
    for n in nodes.iter_mut() {
        let local = n.local_id();
        let news: Vec<_> =
            members.iter().filter(|m| m.id != local).map(|m| alive_for(m, 1)).collect();
        n.driver_mut().apply_piggyback(&news, 1);
    }
}

/// One round of the coordinator on each node, and the pushes that follow.
fn round(nodes: &mut [Cluster<XxHasher>]) {
    for i in 0..nodes.len() {
        let snapshot = nodes[i].snapshot_members();
        let cap = capacity(271, snapshot.len());
        if let CoordinatorAction::Push(addrs) = nodes[i].coordinate(&snapshot, cap) {
            let table = nodes[i].built_table().unwrap().clone();
            for n in nodes.iter_mut() {
                if addrs.contains(&n.local_member().addr) {
                    n.apply_routing_update(table.clone());
                }
            }
        }
    }
}

#[test]
fn single_node_bootstrap_returns_only_local() {
    let n = node(1, 1);
    let snap = n.snapshot_members();
    assert_eq!(snap.len(), 1);
    assert!(snap[0].is_coordinator);
    assert!(!n.is_ready());
}

#[test]
fn assemble_only_path_is_independent_of_loops() {
    let n = node(7, 7);
    assert_eq!(n.snapshot_members().len(), 1);
    assert!(n.snapshot_members()[0].is_coordinator);
    assert_eq!(n.members()[0].id, MemberId::from_raw(7));
}

#[test]
fn three_node_cluster_distributes_partitions_evenly() {
    let mut nodes = vec![node(1, 100), node(2, 200), node(3, 300)];
    introduce(&mut nodes);
    for n in &nodes {
        assert_eq!(n.snapshot_members().len(), 3);
    }
    round(&mut nodes);
    let sig = nodes[0].routing_signature();
    assert!(sig > 0);
    assert!(nodes.iter().all(|n| n.routing_signature() == sig && n.is_ready()));
    let rt = nodes[0].routing_store().snapshot().unwrap();
    let mut load: HashMap<MemberId, u32> = HashMap::new();
    for p in 0..rt.partition_count() {
        *load.entry(rt.primary_for(p).unwrap().id).or_default() += 1;
    }
    for (id, count) in load {
        assert!(count <= 114, "member {id:?} owns {count} primaries");
    }
    // Of all nodes, exactly one serves a key.
    let serving = nodes.iter().filter(|n| n.route_key(b"m", b"k").is_none()).count();
    assert_eq!(serving, 1);
    let p = nodes[0].partition_for_key(b"m", b"k");
    assert!(nodes.iter().all(|n| n.partition_for_key(b"m", b"k") == p));
}

#[test]
fn signature_strictly_increases_after_coordinator_leave() {
    let mut nodes = vec![node(1, 100), node(2, 200), node(3, 300)];
    introduce(&mut nodes);
    round(&mut nodes);
    let sig_before = nodes[0].routing_signature();
    assert!(sig_before >= 1);
    let mut gone = nodes.remove(0);
    let farewell = gone.leave();
    assert_eq!(farewell.len(), 2);
    for out in &farewell {
        for n in nodes.iter_mut() {
            if n.local_member().discovery_addr == out.to {
                let from = gone.local_member().discovery_addr;
                n.driver_mut().handle_envelope(&out.envelope, from, 2).unwrap();
            }
        }
    }
    for n in &nodes {
        assert_eq!(n.snapshot_members().len(), 2);
        let left = n.driver().membership().get(gone.local_id()).unwrap();
        assert_eq!(left.state, MemberState::Dead);
    }
    round(&mut nodes);
    assert!(nodes.iter().all(|n| n.routing_signature() > sig_before));
}

#[test]
fn five_node_cluster_detects_death_within_suspicion_window() {
    let mut nodes: Vec<_> = (0..5).map(|i| node(10 + i, 100 + i)).collect();
    introduce(&mut nodes);
    let mut leaving = nodes.pop().unwrap();
    let from = leaving.local_member().discovery_addr;
    for out in leaving.leave() {
        for n in nodes.iter_mut() {
            if n.local_member().discovery_addr == out.to {
                n.driver_mut().handle_envelope(&out.envelope, from, 2).unwrap();
            }
        }
    }
    assert!(nodes.iter().all(|n| n.snapshot_members().len() == 4));
}

#[test]
fn five_node_cluster_agrees_on_coordinator() {
    let mut nodes: Vec<_> = (0..5).map(|i| node(10 + i, 100 + i)).collect();
    introduce(&mut nodes);
    for n in &nodes {
        let coordinators: Vec<MemberId> =
            n.snapshot_members().iter().filter(|m| m.is_coordinator).map(|m| m.id).collect();
        assert_eq!(coordinators, vec![MemberId::from_raw(10)]);
    }
}

#[test]
fn simultaneous_birthdates_use_memberid_tiebreaker() {
    let mut nodes: Vec<_> = [9, 4, 7, 5, 8].into_iter().map(|i| node(i, 100)).collect();
    introduce(&mut nodes);
    for n in &nodes {
        let snap = n.snapshot_members();
        assert_eq!(snap.len(), 5);
        assert_eq!(snap.iter().find(|m| m.is_coordinator).unwrap().id, MemberId::from_raw(4));
    }
}

#[test]
fn orphans_are_remembered() {
    let mut n = node(1, 1);
    n.record_orphans(vec![(3, "m".to_string())]);
    assert_eq!(n.local_orphans(), &vec![(3, "m".to_string())]);
    assert!(n.owns_partition(3));
    assert!(n.backup_addrs_for_key(b"m", b"k").is_empty());
    assert!(n.previous_owners_for_key(b"m", b"k").is_empty());
    assert_eq!(n.replication_settings().replica_count, Config::default().core.replica_count);
    assert!(!n.events_channel_enabled());
}

#[test]
fn peers_may_be_given_as_addresses() {
    let peers = vec![addr(1), addr(2)];
    assert_eq!(StaticDiscovery::from_addrs(peers.clone()).discover(), peers);
}

#[test]
fn node_tells_its_settings() {
    let mut config = Config::default();
    config.auth.cluster_secret = "s".to_string();
    let n = Cluster::assemble(&config, mk_member(1, 1, 3330), XxHasher);
    assert_eq!(n.cluster_secret(), "s");
    assert_eq!(n.member_count_quorum(), 1);
}

#[test]
fn signatures_given_out_are_remembered() {
    let mut n = node(1, 1);
    assert_eq!(n.last_signature(), 0);
    let snapshot = n.snapshot_members();
    assert!(matches!(n.coordinate(&snapshot, 1_000), CoordinatorAction::Push(_)));
    assert_eq!((n.last_signature(), n.routing_signature()), (1, 1));
}
