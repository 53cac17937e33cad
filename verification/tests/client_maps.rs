//! Maps on the node of the application.

use kamino::client::cursor::{
    glob_to_regex, keep_found, BufferedCursor, ScanCursor, ScanOptions,
};
use kamino::client::embedded::EmbeddedDMap;
use kamino::client::error::{Error, StorageError};
use kamino::client::lock::{LockContext, LockRequest, LockStep};
use kamino::client::migration::decode_fragment_payload;
use kamino::client::registry::EmbeddedClient;
use kamino::client::stats::StatsOptions;
use kamino::client::types::{DMapOptions, PutOptions};
use kamino::clock::{Clock, SystemClock};
use kamino::config::sections::{DMapConfig, EvictionPolicy};
use kamino::config::size::ByteSize;
use kamino::hasher::{Hasher, XxHasher};
use std::collections::HashSet;

const SECOND: u64 = 1_000_000_000;
const MILLI: u64 = 1_000_000;

fn now() -> u64 {
    SystemClock.now_micros()
}

fn client() -> EmbeddedClient<XxHasher> {
    EmbeddedClient::new(XxHasher, 1)
}

fn client_multi(partition_count: u32) -> EmbeddedClient<XxHasher> {
    EmbeddedClient::new(XxHasher, partition_count)
}

fn dmap() -> EmbeddedDMap<XxHasher> {
    EmbeddedDMap::new("d", DMapOptions::default(), XxHasher)
}

fn stamped(timestamp: i64) -> PutOptions {
    PutOptions { timestamp: Some(timestamp), ..PutOptions::default() }
}

fn keys_of(mut cursor: BufferedCursor) -> Vec<String> {
    let mut got = Vec::new();
    while let Some((k, _)) = cursor.next().unwrap() {
        got.push(k);
    }
    got
}

#[test]
fn glob_translates_stars() {
    assert_eq!(glob_to_regex("user:*"), "^user:.*$");
    assert_eq!(glob_to_regex("a?c"), "^a.c$");
    assert_eq!(glob_to_regex("[ab]c"), "^[ab]c$");
}

#[test]
fn glob_escapes_regex_metas() {
    let r = glob_to_regex("a.b");
    assert_eq!(r, "^a\\.b$");
}

#[test]
fn glob_keeps_an_unclosed_class() {
    assert_eq!(glob_to_regex("a[b*"), "^a[b*$");
    assert_eq!(glob_to_regex(""), "^$");
    assert_eq!(glob_to_regex("+()|^${}\\"), "^\\+\\(\\)\\|\\^\\$\\{\\}\\\\$");
}

#[test]
fn buffered_cursor_drains() {
    let mut c = BufferedCursor::new(vec![
        ("a".to_string(), b"1".to_vec()),
        ("b".to_string(), b"2".to_vec()),
    ]);
    assert_eq!(c.next().unwrap().unwrap().0, "a");
    assert_eq!(c.next().unwrap().unwrap().0, "b");
    assert!(c.next().unwrap().is_none());
    assert!(c.close().is_ok());
}

#[test]
fn put_get_delete_roundtrip() {
    let mut d = dmap();
    d.put("k", b"v", PutOptions::default(), now()).unwrap();
    let r = d.get("k", now()).unwrap();
    assert_eq!(r.as_str().unwrap(), "v");
    assert!(d.delete("k", now()));
    assert!(matches!(d.get("k", now()), Err(Error::KeyNotFound)));
}

#[test]
fn put_nx_rejects_existing() {
    let mut d = dmap();
    d.put("k", b"a", PutOptions::default(), now()).unwrap();
    let r = d.put("k", b"b", PutOptions { nx: true, ..PutOptions::default() }, now());
    assert!(matches!(r, Err(Error::KeyAlreadyExists)));
    assert_eq!(d.get("k", now()).unwrap().value, b"a");
}

#[test]
fn put_xx_requires_existing() {
    let mut d = dmap();
    let r = d.put("k", b"a", PutOptions { xx: true, ..PutOptions::default() }, now());
    assert!(matches!(r, Err(Error::KeyNotExists)));
}

#[test]
fn expire_clears_ttl_on_zero_duration() {
    let mut d = dmap();
    d.put("k", b"v", PutOptions { ex: Some(60), ..PutOptions::default() }, now()).unwrap();
    let r = d.get("k", now()).unwrap();
    assert!(r.ttl.is_some());
    d.expire("k", 0, now()).unwrap();
    let r = d.get("k", now()).unwrap();
    assert!(r.ttl.is_none());
}

#[test]
fn expire_then_get_misses() {
    let mut d = dmap();
    let start = now();
    d.put("k", b"v", PutOptions::default(), start).unwrap();
    d.expire("k", MILLI, start).unwrap();
    assert!(matches!(d.get("k", start + 5_000), Err(Error::KeyNotFound)));
}

#[test]
fn expire_on_missing_key_errors() {
    let mut d = dmap();
    let err = d.expire("missing", SECOND, now()).unwrap_err();
    assert!(matches!(err, Error::KeyNotFound));
}

#[test]
fn incr_creates_then_increments() {
    let mut d = dmap();
    assert_eq!(d.incr("c", 1, now()).unwrap(), 1);
    assert_eq!(d.incr("c", 5, now()).unwrap(), 6);
    assert_eq!(d.decr("c", 2, now()).unwrap(), 4);
}

#[test]
fn incr_stops_at_the_bounds() {
    let mut d = dmap();
    assert_eq!(d.incr("c", i64::MAX, now()).unwrap(), i64::MAX);
    assert_eq!(d.incr("c", 1, now()).unwrap(), i64::MAX);
    assert_eq!(d.get("c", now()).unwrap().as_i64().unwrap(), i64::MAX);
    assert_eq!(d.decr("z", i64::MIN, now()).unwrap(), i64::MAX);
    assert_eq!(d.incr("y", i64::MIN, now()).unwrap(), i64::MIN);
    assert_eq!(d.decr("y", 1, now()).unwrap(), i64::MIN);
    assert_eq!(d.get("y", now()).unwrap().value, b"-9223372036854775808");
}

#[test]
fn incr_refuses_what_is_no_number() {
    let mut d = dmap();
    d.put("k", b"abc", PutOptions::default(), now()).unwrap();
    match d.incr("k", 1, now()) {
        Err(Error::NotANumber { expected, got }) => {
            assert_eq!(expected, "integer");
            assert_eq!(got, "abc".parse::<i64>().unwrap_err().to_string());
        },
        other => panic!("unexpected: {other:?}"),
    }
    d.put("b", &[0xff, 0xfe], PutOptions::default(), now()).unwrap();
    match d.incr("b", 1, now()) {
        Err(Error::Serialization(m)) => {
            assert_eq!(m, std::str::from_utf8(&[0xff, 0xfe]).unwrap_err().to_string());
        },
        other => panic!("unexpected: {other:?}"),
    }
}

#[test]
fn incr_by_float_works() {
    let mut d = dmap();
    let mut add = |delta: f64| -> f64 {
        let current = match d.number_text_of("f", now()).unwrap() {
            None => 0.0_f64,
            Some(t) => t.parse::<f64>().unwrap(),
        };
        let new = current + delta;
        d.put("f", new.to_string().as_bytes(), PutOptions::default(), now()).unwrap();
        new
    };
    let v = add(1.5);
    assert!((v - 1.5).abs() < 1e-9);
    let v = add(0.5);
    assert!((v - 2.0).abs() < 1e-9);
}

#[test]
fn get_put_returns_previous() {
    let mut d = dmap();
    assert!(d.get_put("k", b"a", now()).unwrap().is_none());
    let prev = d.get_put("k", b"b", now()).unwrap().unwrap();
    assert_eq!(prev.as_str().unwrap(), "a");
    let now = d.get("k", now()).unwrap();
    assert_eq!(now.as_str().unwrap(), "b");
}

#[test]
fn scan_returns_all_keys_for_partition_zero() {
    let mut d = dmap();
    d.put("a", b"1", PutOptions::default(), now()).unwrap();
    d.put("b", b"2", PutOptions::default(), now()).unwrap();
    let cur = d.scan(0, 1, &ScanOptions::default(), now()).unwrap();
    let mut got: Vec<String> = keys_of(cur);
    got.sort();
    assert_eq!(got, vec!["a".to_string(), "b".to_string()]);
}

#[test]
fn scan_match_pattern_filters() {
    let mut d = dmap();
    d.put("user:1", b"x", PutOptions::default(), now()).unwrap();
    d.put("user:2", b"x", PutOptions::default(), now()).unwrap();
    d.put("admin:1", b"x", PutOptions::default(), now()).unwrap();
    let o = ScanOptions { match_pattern: Some("user:*".to_string()), ..ScanOptions::default() };
    let mut got = keys_of(d.scan(0, 1, &o, now()).unwrap());
    got.sort();
    assert_eq!(got, vec!["user:1".to_string(), "user:2".to_string()]);
}

#[test]
fn found_pairs_are_kept_in_order() {
    let pairs: Vec<(String, Vec<u8>)> = vec![
        ("a".to_string(), b"1".to_vec()),
        ("b".to_string(), b"2".to_vec()),
        ("c".to_string(), b"3".to_vec()),
    ];
    let kept = keep_found(&pairs, &vec![true, false, true]);
    assert_eq!(kept, vec![pairs[0].clone(), pairs[2].clone()]);
    assert!(keep_found(&pairs, &vec![false, false, false]).is_empty());
}

#[test]
fn scan_refuses_a_bad_pattern() {
    let d = dmap();
    let o = ScanOptions { match_pattern: Some("[z-a]".to_string()), ..ScanOptions::default() };
    match d.scan(0, 1, &o, now()) {
        Err(Error::Storage(StorageError::Pattern(m))) => {
            assert_eq!(m, regex::Regex::new("^[z-a]$").unwrap_err().to_string());
        },
        _ => panic!("expected a bad pattern"),
    }
}

#[test]
fn scan_leaves_out_what_expired() {
    let mut d = dmap();
    let start = now();
    d.put("a", b"1", PutOptions { px: Some(1), ..PutOptions::default() }, start).unwrap();
    d.put("b", b"2", PutOptions::default(), start).unwrap();
    assert_eq!(keys_of(d.scan(0, 2, &ScanOptions::default(), start + 1_000).unwrap()), vec!["b"]);
    assert!(keys_of(d.scan(1, 2, &ScanOptions::default(), start).unwrap()).is_empty());
}

fn lock(
    client: &mut EmbeddedClient<XxHasher>,
    name: &str,
    key: &str,
    lease_ns: u64,
    deadline_ns: u64,
) -> Result<LockContext, Error> {
    let q = LockRequest::new(key, Some(lease_ns), deadline_ns);
    let mut elapsed: u64 = 0;
    loop {
        let map = client.get_or_create(name, DMapOptions::default());
        match q.attempt(map, elapsed, now()) {
            LockStep::Held(c) => return Ok(c),
            LockStep::Failed(e) => return Err(e),
            LockStep::Wait(ns) => {
                assert!(ns > 0 && ns <= 10 * MILLI);
                elapsed += ns;
            },
        }
    }
}

#[test]
fn lock_and_unlock_roundtrip() {
    let mut c = client();
    let ctx = lock(&mut c, "d", "res", 5 * SECOND, SECOND).unwrap();
    assert_eq!(ctx.token().len(), 16);
    assert_eq!(ctx.dmap_name(), "d");
    assert_eq!(ctx.key(), "res");
    // Taking it again while it is held runs into the deadline.
    let err = lock(&mut c, "d", "res", 5 * SECOND, 50 * MILLI).unwrap_err();
    assert!(matches!(err, Error::LockNotAcquired));
    ctx.unlock(&mut c, now()).unwrap();
    // Once it is released it can be had again.
    let ctx2 = lock(&mut c, "d", "res", 5 * SECOND, SECOND).unwrap();
    ctx2.unlock(&mut c, now()).unwrap();
}

#[test]
fn unlock_with_wrong_token_fails() {
    let mut c = client();
    let ctx = lock(&mut c, "d", "k", 5 * SECOND, SECOND).unwrap();
    let res =
        c.get_or_create("d", DMapOptions::default()).unlock_internal("k", b"wrong-token", now());
    assert!(matches!(res, Err(Error::NoSuchLock)));
    ctx.unlock(&mut c, now()).unwrap();
}

#[test]
fn tokens_differ() {
    let mut c = client();
    let a = lock(&mut c, "d", "a", SECOND, SECOND).unwrap();
    let b = lock(&mut c, "d", "b", SECOND, SECOND).unwrap();
    assert_ne!(a.token(), b.token());
    assert_ne!(a.token(), &[0u8; 16]);
}

#[test]
fn unlock_after_the_lease_is_no_error() {
    let mut c = client();
    let start = now();
    let q = LockRequest::new("k", Some(MILLI), SECOND);
    let first = match q.attempt(c.get_or_create("d", DMapOptions::default()), 0, start) {
        LockStep::Held(l) => l,
        other => panic!("unexpected: {other:?}"),
    };
    let later = start + 10_000;
    let q2 = LockRequest::new("k", None, SECOND);
    let second = match q2.attempt(c.get_or_create("d", DMapOptions::default()), 0, later) {
        LockStep::Held(l) => l,
        other => panic!("unexpected: {other:?}"),
    };
    // The first lease ran out; its holder may release, and the second one keeps
    // the lock.
    first.unlock(&mut c, later).unwrap();
    assert!(matches!(first.lease(&mut c, SECOND, later), Err(Error::NoSuchLock)));
    second.lease(&mut c, SECOND, later).unwrap();
    second.unlock(&mut c, later).unwrap();
    assert!(matches!(second.lease(&mut c, SECOND, later), Err(Error::NoSuchLock)));
    c.close();
    second.unlock(&mut c, later).unwrap();
    assert!(matches!(second.lease(&mut c, SECOND, later), Err(Error::NoSuchLock)));
}

#[test]
fn stats_reports_per_dmap_counts() {
    let mut c = client();
    c.get_or_create("a", DMapOptions::default())
        .put("x", b"y", PutOptions::default(), now())
        .unwrap();
    let stats = c.stats(StatsOptions, now());
    assert_eq!(stats.of("a").unwrap().len, 1);
    assert!(stats.of("a").unwrap().inuse > 0);
    // A byte each for key and value, and what every entry carries besides.
    assert_eq!(stats.of("a").unwrap().inuse, 31);
    assert!(stats.of("b").is_none());
}

#[test]
fn destroy_empties_dmap() {
    let mut d = dmap();
    for i in 0..10 {
        d.put(&format!("k{i}"), b"v", PutOptions::default(), now()).unwrap();
    }
    d.destroy();
    let mut c = d.scan(0, 1, &ScanOptions::default(), now()).unwrap();
    assert!(c.next().unwrap().is_none());
}

#[test]
fn invalid_partition_id_rejected() {
    let d = dmap();
    let err = match d.scan(99, 1, &ScanOptions::default(), now()) {
        Err(e) => e,
        Ok(_) => panic!("expected InvalidArgument"),
    };
    assert!(matches!(err, Error::InvalidArgument(_)));
    assert_eq!(err.message(), "invalid argument: partition_id 99 >= partition_count 1");
}

#[test]
fn nx_and_xx_both_set_rejected() {
    let mut d = dmap();
    let err = d
        .put("k", b"v", PutOptions { nx: true, xx: true, ..PutOptions::default() }, now())
        .unwrap_err();
    assert!(matches!(err, Error::InvalidArgument(_)));
}

#[test]
fn default_put_timestamps_are_strictly_monotonic() {
    let mut d = dmap();
    let t = now();
    d.put("k", b"v1", PutOptions::default(), t).unwrap();
    let r1 = d.get("k", t).unwrap();
    d.put("k", b"v2", PutOptions::default(), t).unwrap();
    let r2 = d.get("k", t).unwrap();
    assert!(
        r2.timestamp > r1.timestamp,
        "want monotonic, got {} -> {}",
        r1.timestamp,
        r2.timestamp,
    );
}

#[test]
fn client_override_ts_does_not_regress_clock() {
    let mut d = dmap();
    let far_future = 4_000_000_000_000_000_000_i64;
    d.put("k", b"v1", stamped(far_future), now()).unwrap();
    d.put("k2", b"v2", PutOptions::default(), now()).unwrap();
    let r = d.get("k2", now()).unwrap();
    assert!(
        r.timestamp > far_future,
        "default TS must exceed previous override {far_future}, got {}",
        r.timestamp,
    );
}

#[test]
fn put_lww_requires_explicit_timestamp() {
    let mut d = dmap();
    let err = d.put_lww("k", b"v", PutOptions::default(), now()).unwrap_err();
    assert!(matches!(err, Error::InvalidArgument(_)));
}

#[test]
fn put_lww_applies_newer_ts() {
    let mut d = dmap();
    d.put("k", b"old", stamped(100), now()).unwrap();
    let applied = d.put_lww("k", b"new", stamped(200), now()).unwrap();
    assert!(applied);
    assert_eq!(d.get("k", now()).unwrap().value, b"new");
}

#[test]
fn put_lww_rejects_older_ts() {
    let mut d = dmap();
    d.put("k", b"new", stamped(200), now()).unwrap();
    let applied = d.put_lww("k", b"old", stamped(100), now()).unwrap();
    assert!(!applied, "older TS must lose the LWW merge");
    assert_eq!(d.get("k", now()).unwrap().value, b"new");
    assert!(!d.put_lww("k", b"old", stamped(200), now()).unwrap());
}

#[test]
fn local_partitions_lists_every_distinct_bucket() {
    let mut c = client_multi(8);
    let d = c.get_or_create("dm", DMapOptions::default());
    for i in 0..256 {
        d.put(&format!("k{i:03}"), b"v", PutOptions::default(), now()).unwrap();
    }
    let parts = c.local_partitions(now());
    assert!(!parts.is_empty());
    assert!(parts.iter().all(|(name, _)| name == "dm"));
    let distinct: HashSet<u32> = parts.iter().map(|(_, p)| *p).collect();
    assert!(
        distinct.len() >= 4,
        "expected >= 4 distinct partitions with 256 keys / 8 buckets, got {}",
        distinct.len()
    );
    assert_eq!(distinct.len(), parts.len());
    assert!(parts.windows(2).all(|w| w[0].1 < w[1].1));
}

#[test]
fn expired_entries_hold_no_partition() {
    let mut c = client_multi(8);
    let start = now();
    let d = c.get_or_create("dm", DMapOptions::default());
    d.put("a", b"1", PutOptions { px: Some(1), ..PutOptions::default() }, start).unwrap();
    assert_eq!(c.local_partitions(start).len(), 1);
    assert!(c.local_partitions(start + 1_000).is_empty());
}

#[test]
fn export_partition_filters_by_routing_hash() {
    let mut c = client_multi(8);
    let d = c.get_or_create("dm", DMapOptions::default());
    for i in 0..64 {
        d.put(&format!("k{i:02}"), b"v", PutOptions::default(), now()).unwrap();
    }
    let parts = c.local_partitions(now());
    let (_, target) = parts.first().cloned().expect("at least one partition");
    let payload = c.export_partition("dm", target, now());
    let (back_part, entries) = decode_fragment_payload(&payload).unwrap();
    assert_eq!(back_part, target);
    assert!(!entries.is_empty());
    for e in &entries {
        let p = c.partition_for("dm", &e.key);
        assert_eq!(p, target, "every exported entry must hash into {target}");
    }
}

#[test]
fn import_partition_lww_merges_into_destination() {
    let mut src = client_multi(4);
    let mut dst = client_multi(4);
    let d_src = src.get_or_create("dm", DMapOptions::default());
    for i in 0..32 {
        d_src
            .put(
                &format!("k{i:02}"),
                format!("v{i:02}").as_bytes(),
                stamped(1000 + i64::from(i)),
                now(),
            )
            .unwrap();
    }
    for (dmap, part) in src.local_partitions(now()) {
        let payload = src.export_partition(&dmap, part, now());
        let applied = dst.import_partition(&dmap, part, &payload).unwrap();
        assert!(applied > 0, "import must accept fresh entries");
    }
    let d_dst = dst.get_or_create("dm", DMapOptions::default());
    for i in 0..32 {
        let got = d_dst.get(&format!("k{i:02}"), now()).unwrap();
        assert_eq!(got.as_str().unwrap(), format!("v{i:02}"));
    }
}

#[test]
fn import_partition_rejects_payload_partition_mismatch() {
    let mut src = client_multi(4);
    let mut dst = client_multi(4);
    src.get_or_create("dm", DMapOptions::default())
        .put("k", b"v", PutOptions::default(), now())
        .unwrap();
    let parts = src.local_partitions(now());
    let (dmap, part) = parts.into_iter().next().unwrap();
    let payload = src.export_partition(&dmap, part, now());
    let wrong = (part + 1) % 4;
    let err = dst.import_partition(&dmap, wrong, &payload).unwrap_err();
    assert!(matches!(err, Error::InvalidArgument(_)));
    assert!(dst.dmap("dm").is_none());
}

#[test]
fn import_partition_lww_preserves_newer_destination_entry() {
    let mut src = client_multi(2);
    let mut dst = client_multi(2);
    src.get_or_create("dm", DMapOptions::default())
        .put("shared", b"old", stamped(100), now())
        .unwrap();
    dst.get_or_create("dm", DMapOptions::default())
        .put("shared", b"new", stamped(200), now())
        .unwrap();
    let parts = src.local_partitions(now());
    let (dmap, part) = parts.into_iter().next().unwrap();
    let payload = src.export_partition(&dmap, part, now());
    let applied = dst.import_partition(&dmap, part, &payload).unwrap();
    assert_eq!(applied, 0, "older payload entry must lose merge");
    let d_dst = dst.get_or_create("dm", DMapOptions::default());
    assert_eq!(d_dst.get("shared", now()).unwrap().value, b"new");
}

#[test]
fn clear_partition_removes_only_matching_entries() {
    let mut c = client_multi(4);
    let d = c.get_or_create("dm", DMapOptions::default());
    for i in 0..40 {
        d.put(&format!("k{i:02}"), b"v", PutOptions::default(), now()).unwrap();
    }
    let parts = c.local_partitions(now());
    let (dmap, target) = parts.first().cloned().expect("at least one partition");
    let before_total = c.local_partitions(now()).len();
    let cleared = c.clear_partition(&dmap, target);
    assert!(cleared > 0);
    let after = c.local_partitions(now());
    let still_has_target = after.iter().any(|(_, p)| *p == target);
    assert!(!still_has_target, "cleared partition must vanish");
    assert!(
        after.len() < before_total,
        "expected fewer partitions after clear: before={before_total} after={}",
        after.len()
    );
    assert_eq!(c.dmap("dm").unwrap().fragment().len(), 40 - cleared as usize);
    assert_eq!(c.clear_partition("missing", target), 0);
}

#[test]
fn export_of_a_missing_map_is_empty() {
    let c = client_multi(4);
    let payload = c.export_partition("none", 3, now());
    let (part, entries) = decode_fragment_payload(&payload).unwrap();
    assert_eq!(part, 3);
    assert!(entries.is_empty());
}

#[test]
fn get_or_create_keeps_the_first_settings() {
    let mut c = client();
    let o = DMapOptions { max_keys: Some(3), ..DMapOptions::default() };
    c.get_or_create("b", o);
    c.get_or_create("a", DMapOptions::default());
    c.get_or_create("b", DMapOptions::default());
    assert_eq!(c.dmap("b").unwrap().options().max_keys, Some(3));
    assert_eq!(c.dmap("a").unwrap().name(), "a");
    let names: Vec<String> = c.stats(StatsOptions, now()).dmaps.into_iter().map(|d| d.0).collect();
    assert_eq!(names, vec!["a".to_string(), "b".to_string()]);
    assert_eq!(c.partition_count(), 1);
}

#[test]
fn embedded_client_has_no_peers() {
    let c = client();
    assert_eq!(c.ping("x").unwrap_err().message(), "operation not supported in this client mode: ping");
    assert_eq!(c.refresh_metadata().unwrap_err(), Error::Unsupported("refresh_metadata"));
}

#[test]
fn delete_of_an_expired_key_is_false() {
    let mut d = dmap();
    let start = now();
    d.put("k", b"v", PutOptions { px: Some(1), ..PutOptions::default() }, start).unwrap();
    assert!(!d.delete("k", start + 1_000));
    d.put("k", b"v", PutOptions { px: Some(1), ..PutOptions::default() }, start).unwrap();
    assert!(d.delete("k", start + 999));
}

#[test]
fn stats_count_live_entries() {
    let mut c = client();
    let start = now();
    let d = c.get_or_create("a", DMapOptions::default());
    d.put("k", b"v", PutOptions { px: Some(1), ..PutOptions::default() }, start).unwrap();
    d.put("l", b"v", PutOptions::default(), start).unwrap();
    assert_eq!(c.stats(StatsOptions, start).of("a").unwrap().len, 2);
    assert_eq!(c.stats(StatsOptions, start + 1_000).of("a").unwrap().len, 1);
    assert_eq!(c.stats(StatsOptions, start + 1_000).of("a").unwrap().inuse, 31);
}

#[test]
fn ttl_counts_down_to_the_expiry() {
    let mut d = dmap();
    d.put("k", b"v", PutOptions { ex: Some(2), ..PutOptions::default() }, 1_000).unwrap();
    let r = d.get("k", 1_500_000).unwrap();
    assert_eq!(r.ttl, Some(501 * MILLI));
    assert_eq!(r.timestamp, 1_000_000);
    assert!(d.get("k", 2_000_999).is_ok());
    assert!(matches!(d.get("k", 2_001_000), Err(Error::KeyNotFound)));
}

#[test]
fn map_ttl_applies_where_the_write_says_nothing() {
    let o = DMapOptions { ttl: Some(SECOND), ..DMapOptions::default() };
    let mut d = EmbeddedDMap::new("d", o, XxHasher);
    d.put("k", b"v", PutOptions::default(), 0).unwrap();
    assert_eq!(d.get("k", 0).unwrap().ttl, Some(SECOND));
    d.put("k", b"v", PutOptions { exat: Some(5), ..PutOptions::default() }, 0).unwrap();
    assert_eq!(d.get("k", 0).unwrap().ttl, Some(5 * SECOND));
    d.put("k", b"v", PutOptions { pxat: Some(7), ..PutOptions::default() }, 0).unwrap();
    assert_eq!(d.get("k", 0).unwrap().ttl, Some(7 * MILLI));
}

#[test]
fn least_recently_used_goes_first() {
    let o = DMapOptions {
        max_keys: Some(2),
        lru_samples: Some(10),
        eviction_policy: Some(EvictionPolicy::Lru),
        ..DMapOptions::default()
    };
    let mut d = EmbeddedDMap::new("d", o, XxHasher);
    d.put("a", b"1", PutOptions::default(), 1).unwrap();
    d.put("b", b"2", PutOptions::default(), 2).unwrap();
    d.get("a", 3).unwrap();
    d.put("c", b"3", PutOptions::default(), 4).unwrap();
    assert_eq!(d.fragment().len(), 2);
    assert!(d.get("a", 5).is_ok());
    assert!(matches!(d.get("b", 5), Err(Error::KeyNotFound)));
    assert!(d.get("c", 5).is_ok());
}

#[test]
fn bytes_are_limited_too() {
    let o = DMapOptions {
        max_inuse: Some(62),
        eviction_policy: Some(EvictionPolicy::Lru),
        ..DMapOptions::default()
    };
    let mut d = EmbeddedDMap::new("d", o, XxHasher);
    for i in 0..5 {
        d.put(&i.to_string(), b"v", PutOptions::default(), 1 + i).unwrap();
    }
    assert_eq!(d.fragment().inuse(), 62);
    let no = DMapOptions { max_keys: Some(1), ..DMapOptions::default() };
    let mut d = EmbeddedDMap::new("d", no, XxHasher);
    for i in 0..5 {
        d.put(&i.to_string(), b"v", PutOptions::default(), 1 + i).unwrap();
    }
    assert_eq!(d.fragment().len(), 5);
}

#[test]
fn long_keys_are_refused() {
    let mut d = dmap();
    let key = "k".repeat(256);
    let err = d.put(&key, b"v", PutOptions::default(), now()).unwrap_err();
    assert_eq!(err, Error::Storage(StorageError::KeyTooLong));
    assert_eq!(err.message(), "storage error: key longer than 255 bytes");
    d.put(&"k".repeat(255), b"v", PutOptions::default(), now()).unwrap();
}

#[test]
fn entries_are_stored_under_the_hash_of_the_key() {
    let mut d = dmap();
    d.put("k", b"v", PutOptions::default(), now()).unwrap();
    let h = XxHasher.hash64(b"k");
    assert_eq!(d.hkey_bytes(b"k"), h);
    assert_eq!(d.fragment().hkeys(), vec![h]);
    assert_eq!(d.fragment().get(h).unwrap().value, b"v");
}

#[test]
fn registered_maps_are_listed_by_name() {
    let mut c = EmbeddedClient::new(XxHasher, 1);
    c.get_or_create("b", DMapOptions::default());
    c.get_or_create("a", DMapOptions::default());
    let names: Vec<&str> = c.registered_dmaps().iter().map(|m| m.name()).collect();
    assert_eq!(names, vec!["a", "b"]);
}

#[test]
fn settings_come_from_the_configuration() {
    let cfg = DMapConfig {
        ttl: Some(7),
        max_inuse: Some(ByteSize(9)),
        ..DMapConfig::default()
    };
    let o = DMapOptions::from_config(&cfg);
    assert_eq!(o.ttl, Some(7));
    assert_eq!(o.max_inuse, Some(9));
    assert_eq!(o.max_keys, None);
}
