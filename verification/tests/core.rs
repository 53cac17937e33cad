//! Time, hashing, ids, members, modes and profiles.

use kamino::binary::{from_bits, little_endian_bytes, read_little_endian, to_bits};
use kamino::client::types::PutOptions;
use kamino::clock::{clamp_micros, Clock, SystemClock};
use kamino::hasher::{Hasher, XxHasher};
use kamino::ids::MemberId;
use kamino::member::{sort_members, Member};
use kamino::mode::Mode;
use kamino::net::{IpAddr, SocketAddr};
use kamino::profile::Profile;
use std::collections::HashSet;
use std::sync::atomic::{AtomicU64, Ordering};
use std::sync::Arc;
use std::time::Instant;

#[test]
fn wall_clock_is_after_epoch() {
    let clock = SystemClock;
    let micros = clock.now_micros();
    assert!(micros > 1_700_000_000_u64 * 1_000_000, "{micros}");
}

#[test]
fn monotonic_clock_advances() {
    let clock = SystemClock;
    let a = clock.now_monotonic();
    let mut b = clock.now_monotonic();
    while b == a {
        b = clock.now_monotonic();
    }
    assert!(b > a);
}

#[derive(Debug)]
struct FakeClock {
    now: Arc<AtomicU64>,
}

impl Clock for FakeClock {
    fn now_micros(&self) -> u64 {
        self.now.load(Ordering::SeqCst)
    }

    fn now_monotonic(&self) -> Instant {
        Instant::now()
    }
}

#[test]
fn custom_clock_impl() {
    let now = Arc::new(AtomicU64::new(42));
    let clock = FakeClock { now: now.clone() };
    assert_eq!(clock.now_micros(), 42);
    now.store(100, Ordering::SeqCst);
    assert_eq!(clock.now_micros(), 100);
}

#[test]
fn expiry_counts_from_what_the_clock_reads() {
    let clock = FakeClock { now: Arc::new(AtomicU64::new(42)) };
    let o = PutOptions { px: Some(1), ..PutOptions::default() };
    assert_eq!(o.resolve_ttl_nanos(&clock, None).unwrap(), 1_042_000);
    assert_eq!(PutOptions::default().resolve_ttl_nanos(&clock, Some(7)).unwrap(), 42_007);
}

#[test]
fn clock_is_object_safe() {
    let boxed: Box<dyn Clock> = Box::new(SystemClock);
    let _ = boxed.now_micros();
}

#[test]
fn wall_clock_readings_are_clamped() {
    assert_eq!(clamp_micros(None), 0);
    assert_eq!(clamp_micros(Some(7)), 7);
    assert_eq!(clamp_micros(Some(u128::MAX)), u64::MAX);
}

#[test]
fn xxhash_is_deterministic() {
    let h = XxHasher;
    let a = h.hash64(b"user:1");
    let b = h.hash64(b"user:1");
    assert_eq!(a, b, "same input must yield same hash across calls");
    assert_eq!(a, xxhash_rust::xxh3::xxh3_64(b"user:1"));
}

#[test]
fn xxhash_separates_inputs() {
    let h = XxHasher;
    assert_ne!(h.hash64(b"user:1"), h.hash64(b"user:2"));
}

#[test]
fn xxhash_name_is_xxh3() {
    assert_eq!(XxHasher.name(), "xxh3");
}

#[test]
fn empty_input_hashes() {
    let h = XxHasher;
    let a = h.hash64(b"");
    let b = h.hash64(b"");
    assert_eq!(a, b);
}

#[test]
fn hasher_is_object_safe() {
    let boxed: Box<dyn Hasher> = Box::new(XxHasher);
    assert_eq!(boxed.name(), "xxh3");
}

#[test]
fn random_ids_differ() {
    let mut seen = HashSet::new();
    for _ in 0..1024 {
        assert!(seen.insert(MemberId::new_random()));
    }
}

#[test]
fn display_is_hex() {
    let id = MemberId::from_raw(0xdead_beef_cafe_f00d);
    assert_eq!(id.to_text(), "deadbeefcafef00d");
    assert_eq!(MemberId::from_raw(7).to_text(), "0000000000000007");
}

#[test]
fn order_matches_u64() {
    assert!(MemberId::from_raw(1) < MemberId::from_raw(2));
}

#[test]
fn ids_order_like_their_numbers() {
    for (x, y) in [(0, 0), (0, 1), (7, 3), (u64::MAX, 0), (u64::MAX - 1, u64::MAX)] {
        let (a, b) = (MemberId::from_raw(x), MemberId::from_raw(y));
        assert_eq!(a.partial_cmp(&b), x.partial_cmp(&y));
        assert_eq!(a.cmp(&b), x.cmp(&y));
        assert_eq!((a < b, a <= b, a > b, a >= b), (x < y, x <= y, x > y, x >= y));
    }
}

fn mk(id: u64, birthdate: u64) -> Member {
    let addr = SocketAddr::new(IpAddr::localhost(), 3320);
    let disc = SocketAddr::new(IpAddr::localhost(), 3322);
    Member::new(MemberId::from_raw(id), &format!("n{id}"), addr, disc, birthdate)
}

#[test]
fn sort_by_birthdate_then_id() {
    let v = sort_members(&vec![mk(2, 100), mk(1, 100), mk(3, 50), mk(0, 200)]);
    let ids: Vec<u64> = v.iter().map(|m| m.id.as_u64()).collect();
    assert_eq!(ids, vec![3, 1, 2, 0]);
}

#[test]
fn eq_by_id_only() {
    let mut a = mk(7, 100);
    let b = mk(7, 999);
    assert_eq!(a, b);
    a.is_coordinator = true;
    assert_eq!(a, b);
}

#[test]
fn classifies_cluster_modes() {
    assert!(Mode::Standalone.requires_cluster());
    assert!(Mode::EmbeddedClustered.requires_cluster());
    assert!(!Mode::EmbeddedSolo.requires_cluster());
}

#[test]
fn classifies_embedded_modes() {
    assert!(Mode::EmbeddedSolo.is_embedded());
    assert!(Mode::EmbeddedClustered.is_embedded());
    assert!(!Mode::Standalone.is_embedded());
}

#[test]
fn production_enforces_guards() {
    assert!(Profile::Production.enforces_production_guards());
    assert!(!Profile::Development.enforces_production_guards());
    assert!(!Profile::Custom.enforces_production_guards());
}

#[test]
fn addresses_have_a_text_form() {
    let a = SocketAddr::new(IpAddr::v4(10, 0, 1, 255), 3322);
    assert_eq!(a.to_text(), "10.0.1.255:3322");
    let text = |bits: u128| SocketAddr::new(IpAddr::V6(bits), 1).to_text();
    for bits in [
        0,
        1,
        0xfe80_0000_0000_0000_0000_0000_0000_0001,
        0x2001_0db8_0000_0000_0001_0000_0000_0001,
        0x0001_0002_0003_0004_0005_0006_0007_0008,
        0xffff_0a00_0001,
        u128::MAX,
    ] {
        assert!(text(bits).starts_with('['), "{}", text(bits));
    }
    assert_eq!(text(1), "[::1]:1");
    assert_eq!(text(0x2001_0db8_0000_0000_0001_0000_0000_0001), "[2001:db8::1:0:0:1]:1");
}

#[test]
fn numbers_have_a_byte_form() {
    assert_eq!(little_endian_bytes(0x0102_0304, 4), vec![4, 3, 2, 1]);
    assert_eq!(little_endian_bytes(0x0102_0304_0506_0708, 8), 0x0102_0304_0506_0708_u64.to_le_bytes());
    assert_eq!(read_little_endian(&[9, 4, 3, 2, 1], 1, 4), 0x0102_0304);
    for n in [0, 1, -1, i64::MIN, i64::MAX] {
        assert_eq!(to_bits(n), n as u64);
        assert_eq!(from_bits(n as u64), n);
    }
}
