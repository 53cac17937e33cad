//! The ring, the routing table, its store and the coordinator.

use kamino::cluster::routing::coordinator::{
    live_peer_addrs, topology_hash, Coordinator, CoordinatorAction, CoordinatorParams,
    SignatureClock,
};
use kamino::cluster::routing::ring::assign;
use kamino::cluster::routing::store::{ApplyRoutingOutcome, RoutingTableStore};
use kamino::cluster::routing::table::{partition_for, RoutingTable};
use kamino::hasher::{Hasher, XxHasher};
use kamino::ids::MemberId;
use kamino::member::{sort_members, Member};
use kamino::net::{IpAddr, SocketAddr};
use std::collections::HashMap;

fn mk(id: u64, birthdate: u64, port: u16) -> Member {
    Member::new(
        MemberId::from_raw(id),
        &format!("n{id}"),
        SocketAddr::new(IpAddr::localhost(), port),
        SocketAddr::new(IpAddr::localhost(), port + 2),
        birthdate,
    )
}

fn capacity_per_member(partition_count: u32, members: usize, load_factor: f64) -> u32 {
    let avg = f64::from(partition_count) / members as f64;
    (avg * load_factor).ceil().max(1.0) as u32
}

fn numbered(n: u64) -> Vec<Member> {
    (1..=n).map(|i| mk(i, 100, 3320 + i as u16 * 2)).collect()
}

fn build(
    members: Vec<Member>,
    partition_count: u32,
    replica_count: u32,
    signature: u64,
) -> Option<RoutingTable> {
    let capacity = capacity_per_member(partition_count, members.len().max(1), 1.25);
    RoutingTable::build(members, &XxHasher, partition_count, 20, capacity, replica_count, signature)
}

#[test]
fn empty_members_returns_none() {
    let h = XxHasher;
    assert!(assign(&h, &Vec::new(), 271, 20, 1, 1).is_none());
    assert!(assign(&h, &numbered(1), 0, 20, 1, 1).is_none());
}

#[test]
fn single_member_owns_everything() {
    let h = XxHasher;
    let cap = capacity_per_member(271, 1, 1.25);
    let a = assign(&h, &vec![mk(1, 100, 3320)], 271, 20, cap, 1).unwrap();
    assert_eq!(a.primary.len(), 271);
    let only = MemberId::from_raw(1);
    assert!(a.primary.iter().all(|id| *id == only));
    assert!(a.backups.iter().all(Vec::is_empty));
}

#[test]
fn deterministic_under_same_inputs() {
    let h = XxHasher;
    let members = vec![mk(1, 100, 3320), mk(2, 100, 3322), mk(3, 100, 3324)];
    let cap = capacity_per_member(271, 3, 1.25);
    let a1 = assign(&h, &members, 271, 20, cap, 2).unwrap();
    let a2 = assign(&h, &members, 271, 20, cap, 2).unwrap();
    assert_eq!(a1.primary, a2.primary);
    assert_eq!(a1.backups, a2.backups);
}

#[test]
fn load_factor_bounds_each_primary() {
    let h = XxHasher;
    let members = numbered(5);
    let load_factor = 1.25_f64;
    let cap = capacity_per_member(271, 5, load_factor);
    let a = assign(&h, &members, 271, 20, cap, 1).unwrap();
    let mut counts: HashMap<MemberId, u32> = HashMap::new();
    for p in &a.primary {
        *counts.entry(*p).or_default() += 1;
    }
    for &c in counts.values() {
        assert!(
            c <= cap,
            "member load {c} exceeds capacity {cap} for 271 parts / 5 members @ lf={load_factor}",
        );
    }
}

#[test]
fn backups_are_distinct_from_primary_and_each_other() {
    let h = XxHasher;
    let members = numbered(4);
    let a = assign(&h, &members, 271, 20, capacity_per_member(271, 4, 1.25), 3).unwrap();
    for (p, bs) in a.primary.iter().zip(a.backups.iter()) {
        assert_eq!(bs.len(), 2, "want replica_count-1 = 2 backups");
        assert!(!bs.contains(p), "primary must not appear in backups");
        assert!(bs[0] != bs[1], "backups must be distinct");
    }
}

#[test]
fn changing_one_member_moves_minority_of_partitions() {
    let h = XxHasher;
    let before = numbered(4);
    let after = numbered(5);
    let a = assign(&h, &before, 271, 20, capacity_per_member(271, 4, 1.25), 1).unwrap();
    let b = assign(&h, &after, 271, 20, capacity_per_member(271, 5, 1.25), 1).unwrap();
    let moved = a.primary.iter().zip(b.primary.iter()).filter(|(x, y)| x != y).count();
    assert!(moved < 271 / 2, "want minority moved, got {moved} of 271 partitions");
}

#[test]
fn coordinator_ordering_irrelevant_for_assignment() {
    let h = XxHasher;
    let m1 = vec![mk(1, 100, 3320), mk(2, 200, 3322), mk(3, 300, 3324)];
    let mut m2 = m1.clone();
    m2.reverse();
    let cap = capacity_per_member(271, 3, 1.25);
    let a1 = assign(&h, &m1, 271, 20, cap, 1).unwrap();
    let a2 = assign(&h, &m2, 271, 20, cap, 1).unwrap();
    assert_eq!(a1.primary, a2.primary);
    assert_eq!(a1.backups, a2.backups);
}

/// The ring worked out anew, by sorting all virtual nodes.
#[test]
fn partitions_go_clockwise() {
    let h = XxHasher;
    let members = numbered(3);
    let vnodes = 4_u32;
    let cap = 8_u32;
    let mut ring: Vec<(u64, u64)> = Vec::new();
    for m in &members {
        for v in 0..vnodes {
            let key = format!("{:016x}#{v}", m.id.as_u64());
            ring.push((h.hash64(key.as_bytes()), m.id.as_u64()));
        }
    }
    ring.sort();
    let mut load: HashMap<u64, u32> = HashMap::new();
    let a = assign(&h, &members, 16, vnodes, cap, 1).unwrap();
    for p in 0..16_u32 {
        let mut key = b"p:______".to_vec();
        key.extend_from_slice(&p.to_be_bytes());
        let pos = h.hash64(&key);
        let start = ring.iter().position(|(q, _)| *q >= pos).unwrap_or(0);
        let owner = (0..ring.len())
            .map(|k| ring[(start + k) % ring.len()].1)
            .find(|id| load.get(id).copied().unwrap_or(0) < cap)
            .unwrap();
        *load.entry(owner).or_default() += 1;
        assert_eq!(a.primary[p as usize].as_u64(), owner, "partition {p}");
    }
}

fn table(signature: u64) -> RoutingTable {
    build(vec![mk(1, 100, 3320)], 271, 1, signature).unwrap()
}

#[test]
fn first_push_accepted() {
    let mut s = RoutingTableStore::new();
    assert_eq!(s.signature(), 0);
    assert_eq!(s.apply(table(1)), ApplyRoutingOutcome::Accepted);
    assert_eq!(s.signature(), 1);
}

#[test]
fn higher_signature_replaces() {
    let mut s = RoutingTableStore::new();
    s.apply(table(1));
    assert_eq!(s.apply(table(2)), ApplyRoutingOutcome::Accepted);
    assert_eq!(s.signature(), 2);
}

#[test]
fn equal_or_lower_signature_rejected() {
    let mut s = RoutingTableStore::new();
    s.apply(table(5));
    assert_eq!(s.apply(table(5)), ApplyRoutingOutcome::Stale);
    assert_eq!(s.apply(table(4)), ApplyRoutingOutcome::Stale);
    assert_eq!(s.signature(), 5);
}

#[test]
fn snapshot_is_none_until_first_apply() {
    let mut s = RoutingTableStore::new();
    assert!(s.snapshot().is_none());
    assert!(!s.is_populated());
    s.apply(table(1));
    assert!(s.snapshot().is_some());
    assert!(s.is_populated());
}

#[test]
fn signature_clock_is_monotonic_under_reordering() {
    let mut store = RoutingTableStore::new();
    let mut max_seen = 0_u64;
    for s in [3_u64, 1, 7, 7, 2, 10_000, 9_999, 10_001] {
        let outcome = store.apply(build(numbered(3), 271, 1, s).unwrap());
        if s > max_seen {
            assert_eq!(outcome, ApplyRoutingOutcome::Accepted);
            max_seen = s;
        } else {
            assert_eq!(outcome, ApplyRoutingOutcome::Stale);
        }
        assert_eq!(store.signature(), max_seen);
    }
}

#[test]
fn build_populates_every_partition() {
    let members = vec![mk(1, 100, 3320), mk(2, 200, 3322), mk(3, 300, 3324)];
    let rt = build(members, 271, 2, 1).unwrap();
    assert_eq!(rt.signature, 1);
    assert_eq!(rt.partition_count(), 271);
    for p in 0..271 {
        assert!(rt.primary_for(p).is_some(), "missing primary for {p}");
        assert!(!rt.backups_for(p).is_empty(), "missing backups for {p}");
        assert_eq!(rt.owners_for(p).len(), 1);
    }
    assert!(rt.primary_for(271).is_none());
    assert!(rt.backups_for(271).is_empty());
}

#[test]
fn empty_members_rejected() {
    assert!(build(vec![], 271, 1, 1).is_none());
}

#[test]
fn partition_for_is_stable() {
    let h = XxHasher;
    let a = partition_for(&h, b"sessions", b"user:1", 271);
    let b = partition_for(&h, b"sessions", b"user:1", 271);
    assert_eq!(a, b);
    assert!(a < 271);
    assert_eq!(u64::from(a), h.hash64(b"sessionsuser:1") % 271);
}

#[test]
fn partition_for_separates_dmaps() {
    let h = XxHasher;
    let mut differ = 0;
    for i in 0..8 {
        let k = format!("k{i}");
        let a = partition_for(&h, b"dm1", k.as_bytes(), 271);
        let b = partition_for(&h, b"dm2", k.as_bytes(), 271);
        if a != b {
            differ += 1;
        }
    }
    assert!(differ > 0, "expected some independence across dmaps");
}

#[test]
fn topology_hash_order_independent() {
    let a = vec![mk(1, 100, 3320), mk(2, 200, 3322), mk(3, 300, 3324)];
    let mut b = a.clone();
    b.reverse();
    assert_eq!(topology_hash(&a), topology_hash(&b));
}

#[test]
fn topology_hash_reads_ids_and_birthdates_alone() {
    let a = vec![mk(1, 100, 3320), mk(2, 200, 3322)];
    let mut b = vec![mk(2, 200, 4322), mk(1, 100, 4320)];
    b[0].name = "renamed".to_string();
    assert_eq!(topology_hash(&a), topology_hash(&b));
    let c = vec![mk(1, 100, 3320), mk(2, 201, 3322)];
    assert_ne!(topology_hash(&a), topology_hash(&c));
}

#[test]
fn topology_hash_changes_on_join() {
    let a = vec![mk(1, 100, 3320), mk(2, 200, 3322)];
    let b = vec![mk(1, 100, 3320), mk(2, 200, 3322), mk(3, 300, 3324)];
    assert_ne!(topology_hash(&a), topology_hash(&b));
}

fn params(local: &Member) -> CoordinatorParams {
    CoordinatorParams {
        local_id: local.id,
        partition_count: 271,
        virtual_nodes_per_member: 20,
        replica_count: 1,
    }
}

#[test]
fn coordinator_pushes_on_first_tick_and_skips_when_unchanged() {
    let local = mk(1, 100, 3320);
    let p = params(&local);
    let mut store = RoutingTableStore::new();
    let mut sig = SignatureClock::new();
    let mut c = Coordinator::new();
    let snapshot = vec![local];
    let cap = capacity_per_member(271, 1, 1.25);
    for _ in 0..4 {
        match c.tick(&p, &XxHasher, &snapshot, cap, &mut sig, &mut store) {
            CoordinatorAction::Push(addrs) => assert!(addrs.is_empty()),
            CoordinatorAction::Idle => {},
        }
    }
    assert_eq!(sig.current(), 1);
    assert_eq!(store.signature(), 1);
    assert_eq!(c.current_table().unwrap().signature, 1);
}

#[test]
fn coordinator_rebuilds_when_members_change() {
    let a = mk(1, 100, 3320);
    let b = mk(2, 200, 3322);
    let p = params(&a);
    let mut store = RoutingTableStore::new();
    let mut sig = SignatureClock::new();
    let mut c = Coordinator::new();
    let cap = capacity_per_member(271, 2, 1.25);
    c.tick(&p, &XxHasher, &vec![a.clone()], cap, &mut sig, &mut store);
    let snapshot = sort_members(&vec![b.clone(), a.clone()]);
    match c.tick(&p, &XxHasher, &snapshot, cap, &mut sig, &mut store) {
        CoordinatorAction::Push(addrs) => assert_eq!(addrs, vec![b.addr]),
        other => panic!("unexpected: {other:?}"),
    }
    assert_eq!(store.signature(), 2);
    assert_eq!(live_peer_addrs(&snapshot, a.id), vec![b.addr]);
    // The other member is not the coordinator and does nothing.
    let mut other = Coordinator::new();
    let mut other_sig = SignatureClock::new();
    let mut other_store = RoutingTableStore::new();
    let step = other.tick(&params(&b), &XxHasher, &snapshot, cap, &mut other_sig, &mut other_store);
    assert!(matches!(step, CoordinatorAction::Idle));
    assert_eq!(other_store.signature(), 0);
    // Once it has seen a table it goes on from its signature.
    other_sig.advance_to(2);
    assert_eq!(other_sig.next(), 3);
}

fn with_ids(ids: &[u64]) -> Vec<Member> {
    ids.iter().enumerate().map(|(i, id)| mk(*id, i as u64 + 1, 10_000 + 4 * i as u16)).collect()
}

const ID_SETS: [&[u64]; 5] = [
    &[7],
    &[1, 2],
    &[0, u64::MAX],
    &[3, 1 << 40, 99, 12_345],
    &[11, 22, 33, 44, 55, 66, 77, 88],
];

#[test]
fn ring_assignment_is_deterministic() {
    for ids in ID_SETS {
        for partitions in [17_u32, 31, 71, 271] {
            for (vnodes, load_factor, replicas) in [(1, 1.0, 1), (7, 1.5, 2), (32, 2.5, 3)] {
                let members = with_ids(ids);
                let cap = capacity_per_member(partitions, members.len(), load_factor);
                let a1 = assign(&XxHasher, &members, partitions, vnodes, cap, replicas).unwrap();
                let a2 = assign(&XxHasher, &members, partitions, vnodes, cap, replicas).unwrap();
                assert_eq!(a1.primary, a2.primary);
                assert_eq!(a1.backups, a2.backups);
            }
        }
    }
}

#[test]
fn bounded_load_invariant() {
    for ids in ID_SETS.into_iter().skip(1) {
        for partitions in [31_u32, 71, 271] {
            for load_factor in [1.05_f64, 1.25, 2.0] {
                let members = with_ids(ids);
                let cap = capacity_per_member(partitions, members.len(), load_factor);
                let a = assign(&XxHasher, &members, partitions, 16, cap, 1)
                    .expect("non-empty members must assign");
                let mut counts: HashMap<MemberId, u32> = HashMap::new();
                for p in &a.primary {
                    *counts.entry(*p).or_default() += 1;
                }
                for &c in counts.values() {
                    assert!(c <= cap, "primary count {c} exceeded capacity {cap}");
                }
            }
        }
    }
}
