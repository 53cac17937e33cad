//! Payloads, pipelines, pub/sub and remote maps.

use bytes::Bytes;
use kamino::client::embedded::EmbeddedDMap;
use kamino::client::entry::Entry;
use kamino::client::error::{Error, StorageError};
use kamino::client::migration::{
    decode_fragment_payload, encode_fragment_payload, FRAGMENT_PAYLOAD_TAG_V1,
};
use kamino::client::multi_node::{after_failure, MultiNodeRemoteClient, RetryStep};
use kamino::client::pipeline::{Pipeline, PipelineOp, PipelineOptions, PipelineResult};
use kamino::client::pubsub::EmbeddedPubSub;
use kamino::client::remote::{
    check_not_error, clone_err, delete_reply, destroy_reply, expire_reply, float_reply,
    get_put_reply, get_reply, hello_command, number_reply, ping_command, put_reply, scan_reply,
    stats_reply, translate_error, ConnError, RemoteDMap, Requests,
};
use kamino::client::cursor::{ScanCursor, ScanOptions};
use kamino::client::types::{DMapOptions, GetResponse, PutOptions};
use kamino::clock::{Clock, SystemClock};
use kamino::cluster::pubsub::PubSubService;
use kamino::hasher::XxHasher;
use kamino::protocol::command::{Command, PutCommandOptions};
use kamino::protocol::frame::{BulkString, Frame};
use std::sync::atomic::{AtomicU64, Ordering};
use std::time::Instant;

fn entry(key: &[u8], val: &[u8], ts: i64) -> Entry {
    Entry {
        key: key.to_vec(),
        ttl_nanos: 0,
        timestamp_nanos: ts,
        last_access_nanos: ts,
        value: val.to_vec(),
    }
}

fn bulk(b: &[u8]) -> Frame {
    Frame::Bulk(BulkString(Some(Bytes::copy_from_slice(b))))
}

#[test]
fn encode_decode_empty_partition() {
    let bytes = encode_fragment_payload(42, &Vec::new());
    let (part, entries) = decode_fragment_payload(&bytes).unwrap();
    assert_eq!(part, 42);
    assert!(entries.is_empty());
    assert_eq!(bytes, vec![1, 42, 0, 0, 0, 0, 0, 0, 0]);
}

#[test]
fn encode_decode_single_entry() {
    let e = entry(b"k", b"v", 7);
    let bytes = encode_fragment_payload(13, &vec![e.clone()]);
    let (part, entries) = decode_fragment_payload(&bytes).unwrap();
    assert_eq!(part, 13);
    assert_eq!(entries.len(), 1);
    assert_eq!(entries[0].key, e.key);
    assert_eq!(entries[0].value, e.value);
    assert_eq!(entries[0].timestamp_nanos, e.timestamp_nanos);
}

#[test]
fn decode_rejects_empty() {
    assert!(decode_fragment_payload(&[]).is_err());
}

#[test]
fn decode_rejects_wrong_tag() {
    let mut bytes = encode_fragment_payload(0, &Vec::new());
    bytes[0] = 0xFF;
    assert!(decode_fragment_payload(&bytes).is_err());
    assert_eq!(
        decode_fragment_payload(&bytes).unwrap_err().message(),
        "invalid argument: unknown fragment payload tag 255"
    );
}

#[test]
fn decode_rejects_truncated_header() {
    let bytes = vec![FRAGMENT_PAYLOAD_TAG_V1, 0x00, 0x00];
    assert!(decode_fragment_payload(&bytes).is_err());
}

#[test]
fn roundtrip_random_entries() {
    let entries = vec![
        entry(b"a", b"", i64::MIN),
        entry(&[0xff; 255], &[7; 300], -1),
        entry(b"", b"x", i64::MAX),
    ];
    let mut bytes = encode_fragment_payload(u32::MAX, &entries);
    bytes.push(9);
    let (part, back) = decode_fragment_payload(&bytes).unwrap();
    assert_eq!(part, u32::MAX);
    assert_eq!(back, entries);
    bytes.truncate(40);
    assert_eq!(
        decode_fragment_payload(&bytes).unwrap_err(),
        Error::InvalidArgument("fragment entry decode failed: truncated entry".to_string())
    );
}

#[test]
fn entries_have_a_fixed_layout() {
    let e = Entry {
        key: b"k".to_vec(),
        ttl_nanos: 1,
        timestamp_nanos: -2,
        last_access_nanos: 256,
        value: b"vw".to_vec(),
    };
    let mut buf = Vec::new();
    e.encode_into(&mut buf).unwrap();
    let mut want = vec![1, b'k'];
    want.extend_from_slice(&1_i64.to_le_bytes());
    want.extend_from_slice(&(-2_i64).to_le_bytes());
    want.extend_from_slice(&256_i64.to_le_bytes());
    want.extend_from_slice(&2_u32.to_le_bytes());
    want.extend_from_slice(b"vw");
    assert_eq!(buf, want);
    assert_eq!(e.encoded_len(), buf.len() as u64);
    let (back, used) = Entry::decode(&buf).unwrap();
    assert_eq!(back, e);
    assert_eq!(used, buf.len());
    let long = entry(&[0; 256], b"", 0);
    assert_eq!(long.encode_into(&mut buf), Err(StorageError::KeyTooLong));
    assert!(e.is_expired(1));
    assert!(!e.is_expired(0));
}

#[test]
fn empty_seeds_rejected() {
    let err = MultiNodeRemoteClient::new(Vec::new()).expect_err("empty seeds");
    assert!(matches!(err, Error::InvalidArgument(_)));
}

#[test]
fn seeds_take_turns() {
    let mut c = MultiNodeRemoteClient::new(vec!["a".to_string(), "b".to_string()]).unwrap();
    assert_eq!(c.warm_addr(), "a");
    assert_eq!(c.pick_seed(), "a");
    assert_eq!(c.pick_seed(), "b");
    assert_eq!(c.pick_seed(), "a");
    assert_eq!(c.cached_handle("a"), None);
    c.connected("a", 1);
    c.connected("b", 2);
    c.connected("a", 3);
    assert_eq!(c.cached_handle("a"), Some(3));
    c.evict("a");
    assert_eq!(c.cached_handle("a"), None);
    assert_eq!(c.cached_handle("b"), Some(2));
    c.close();
    assert_eq!(c.cached_handle("b"), None);
}

#[test]
fn redirections_are_followed_once() {
    let moved = || Error::Moved { partition: 3, addr: "h:1".to_string() };
    match after_failure(moved(), false) {
        RetryStep::Retry(a) => assert_eq!(a, "h:1"),
        other => panic!("unexpected: {other:?}"),
    }
    match after_failure(moved(), true) {
        RetryStep::Fail(e) => assert_eq!(e, moved()),
        other => panic!("unexpected: {other:?}"),
    }
    match after_failure(Error::Timeout, false) {
        RetryStep::Fail(e) => assert_eq!(e, Error::Timeout),
        other => panic!("unexpected: {other:?}"),
    }
}

struct Ticking {
    next: AtomicU64,
}

impl Clock for Ticking {
    fn now_micros(&self) -> u64 {
        self.next.fetch_add(1_000, Ordering::SeqCst)
    }

    fn now_monotonic(&self) -> Instant {
        Instant::now()
    }
}

fn short_lived() -> Pipeline {
    let mut p = Pipeline::new(PipelineOptions::default());
    p.put("a", b"1", PutOptions { px: Some(1), ..PutOptions::default() });
    p.get("a");
    p
}

#[test]
fn each_operation_reads_the_clock() {
    let mut dmap = EmbeddedDMap::new("toy", DMapOptions::default(), XxHasher);
    let clock = Ticking { next: AtomicU64::new(5_000) };
    let results = short_lived().execute(&mut dmap, &clock);
    assert!(matches!(results[0], Ok(PipelineResult::Put)));
    assert!(matches!(results[1], Err(Error::KeyNotFound)));
    assert_eq!(clock.now_micros(), 7_000);
}

#[test]
fn operations_run_at_the_times_given() {
    let mut dmap = EmbeddedDMap::new("toy", DMapOptions::default(), XxHasher);
    let results = short_lived().execute_at(&mut dmap, &vec![5_000, 5_999]);
    match &results[1] {
        Ok(PipelineResult::Get(g)) => assert_eq!(g.value, b"1"),
        _ => panic!("expected a value"),
    }
    let results = short_lived().execute_at(&mut dmap, &vec![5_000, 6_000]);
    assert!(matches!(results[1], Err(Error::KeyNotFound)));
}

#[test]
fn pipelines_keep_their_settings() {
    let mut p = Pipeline::new(PipelineOptions { concurrency: 7 });
    p.get("a");
    p.delete("a");
    assert!(format!("{p:?}").contains("concurrency: 7"));
}

#[test]
fn execute_preserves_order() {
    let mut dmap = EmbeddedDMap::new("toy", DMapOptions::default(), XxHasher);
    let mut p = Pipeline::new(PipelineOptions::default());
    p.put("a", b"1", PutOptions::default());
    p.put("b", b"2", PutOptions::default());
    p.get("a");
    p.delete("b");
    p.get("b");
    assert_eq!(p.len(), 5);
    assert!(!p.is_empty());
    let log: Vec<String> = p
        .ops()
        .iter()
        .map(|o| match o {
            PipelineOp::Put { key, .. } => format!("PUT {key}"),
            PipelineOp::Get { key } => format!("GET {key}"),
            PipelineOp::Delete { key } => format!("DEL {key}"),
        })
        .collect();
    assert_eq!(log, vec!["PUT a", "PUT b", "GET a", "DEL b", "GET b",]);
    let results = p.execute(&mut dmap, &SystemClock);
    assert_eq!(results.len(), 5);
    assert!(matches!(results[0], Ok(PipelineResult::Put)));
    assert!(matches!(results[1], Ok(PipelineResult::Put)));
    let r2 = match &results[2] {
        Ok(PipelineResult::Get(g)) => &g.value,
        other => panic!("expected GET, got {other:?}"),
    };
    assert_eq!(r2, b"1");
    assert!(matches!(results[3], Ok(PipelineResult::Delete(true))));
    assert!(matches!(results[4], Err(Error::KeyNotFound)));
    assert_eq!(PipelineOptions::default().concurrency, 4);
}

#[test]
fn embedded_subscribe_and_publish() {
    let mut ps = EmbeddedPubSub::new(PubSubService::new());
    let sub = ps.subscribe(&vec!["events"]);
    let handed = ps.publish("events", b"hello");
    assert_eq!(handed.len(), 1);
    assert_eq!(handed[0].subscription, sub);
    assert_eq!(handed[0].message.channel, "events");
    assert_eq!(handed[0].message.payload, b"hello");
}

#[test]
fn embedded_psubscribe_pattern_match() {
    let mut ps = EmbeddedPubSub::new(PubSubService::new());
    ps.psubscribe(&vec!["events.*"]);
    let handed = ps.publish("events.created", b"payload");
    assert_eq!(handed.len(), 1);
    assert_eq!(handed[0].message.channel, "events.created");
    assert_eq!(handed[0].message.pattern.as_deref(), Some("events.*"));
}

#[test]
fn drop_subscription_cleans_up_registry() {
    let mut ps = EmbeddedPubSub::new(PubSubService::new());
    let sub = ps.subscribe(&vec!["c"]);
    assert_eq!(ps.service().pubsub_numsub(&[Bytes::from_static(b"c")])[0].1, 1);
    ps.drop_subscription(sub);
    assert_eq!(ps.service().pubsub_numsub(&[Bytes::from_static(b"c")])[0].1, 0);
}

#[test]
fn translates_noauth() {
    let e = translate_error("NOAUTH Authentication required");
    assert!(matches!(e, Error::Auth(_)));
}

#[test]
fn translates_wrongpass() {
    let e = translate_error("WRONGPASS invalid creds");
    assert!(matches!(e, Error::Auth(_)));
}

#[test]
fn translates_cursor() {
    let e = translate_error("CURSOR partition migrated");
    assert!(matches!(e, Error::InvalidCursor));
}

#[test]
fn translates_timeout() {
    let e = translate_error("ERR operation timed out");
    assert!(matches!(e, Error::Timeout));
}

#[test]
fn translates_no_such_lock() {
    let e = translate_error("ERR no such lock");
    assert!(matches!(e, Error::NoSuchLock));
}

#[test]
fn translates_lock_not_acquired() {
    let e = translate_error("ERR lock not acquired");
    assert!(matches!(e, Error::LockNotAcquired));
}

#[test]
fn translates_unknown_err_to_server() {
    let e = translate_error("ERR something else");
    assert!(matches!(e, Error::Server(ref s) if s.contains("something")));
}

#[test]
fn translates_bare_message_to_server() {
    let e = translate_error("BADTYPE wrong shape");
    assert!(matches!(e, Error::Server(_)));
}

#[test]
fn translates_not_an_integer() {
    let e = translate_error("ERR value is not an integer or out of range");
    assert!(matches!(e, Error::NotANumber { .. }));
}

#[test]
fn translates_redirections() {
    assert_eq!(
        translate_error("MOVED 17 10.0.0.1:3320"),
        Error::Moved { partition: 17, addr: "10.0.0.1:3320".to_string() }
    );
    assert_eq!(
        translate_error("MOVED x"),
        Error::Moved { partition: 0, addr: String::new() }
    );
    assert_eq!(
        translate_error("CROSSPARTITION keys"),
        Error::InvalidArgument("CROSSPARTITION keys".to_string())
    );
    assert_eq!(translate_error("ERR Not A Number: x").message(), "value at key is not a integer: Not A Number: x");
}

#[test]
fn commands_carry_what_is_asked() {
    let d = RemoteDMap::new("m");
    let o = PutOptions { px: Some(5), nx: true, ..PutOptions::default() };
    assert_eq!(
        d.put_command("k", b"v", o).unwrap(),
        Command::DmPut {
            dmap: Bytes::from_static(b"m"),
            key: Bytes::from_static(b"k"),
            value: Bytes::from_static(b"v"),
            options: PutCommandOptions { px: Some(5), nx: true, ..PutCommandOptions::default() },
        }
    );
    let bad = PutOptions { px: Some(5), ex: Some(1), ..PutOptions::default() };
    assert_eq!(
        d.put_command("k", b"v", bad).unwrap_err().message(),
        "invalid argument: at most one of ex/px/exat/pxat may be set"
    );
    assert_eq!(
        d.delete_command("k"),
        Command::DmDel { dmap: Bytes::from_static(b"m"), keys: vec![Bytes::from_static(b"k")] }
    );
    assert_eq!(
        d.expire_command("k", 2_500_000),
        Command::DmPexpire {
            dmap: Bytes::from_static(b"m"),
            key: Bytes::from_static(b"k"),
            milliseconds: 2,
        }
    );
    assert_eq!(ping_command(None), Command::Ping(None));
    match hello_command(Some("pw")) {
        Command::Hello(h) => {
            assert_eq!(h.protocol_version, Some(2));
            assert_eq!(h.auth, Some((None, Bytes::from_static(b"pw"))));
        },
        other => panic!("unexpected: {other:?}"),
    }
    let s = ScanOptions { count: Some(7), match_pattern: Some("a*".to_string()) };
    match d.scan_command(4, &s) {
        Command::DmScan { partition_id, cursor, options, .. } => {
            assert_eq!((partition_id, cursor), (4, 0));
            assert_eq!(options.count, Some(7));
            assert_eq!(options.match_pattern, Some(Bytes::from_static(b"a*")));
        },
        other => panic!("unexpected: {other:?}"),
    }
    assert_eq!(d.lock(), Error::Unsupported("DM.LOCK (Phase 7)"));
}

#[test]
fn replies_are_understood() {
    let plain = PutOptions::default();
    let nx = PutOptions { nx: true, ..plain };
    let xx = PutOptions { xx: true, ..plain };
    let ok = Frame::SimpleString("OK".to_string());
    let null = Frame::Bulk(BulkString(None));
    assert!(put_reply(plain, &ok, "").is_ok());
    assert_eq!(put_reply(nx, &null, ""), Err(Error::KeyAlreadyExists));
    assert_eq!(put_reply(xx, &Frame::Null, ""), Err(Error::KeyNotExists));
    assert_eq!(
        put_reply(plain, &null, ""),
        Err(Error::Protocol("null reply for unconditional PUT".to_string()))
    );
    assert_eq!(
        put_reply(plain, &Frame::Integer(1), "Integer(1)"),
        Err(Error::Protocol("DM.PUT unexpected reply: Integer(1)".to_string()))
    );
    assert_eq!(
        get_reply(&bulk(b"v"), ""),
        Ok(GetResponse { value: b"v".to_vec(), timestamp: 0, ttl: None })
    );
    assert_eq!(get_reply(&null, ""), Err(Error::KeyNotFound));
    assert_eq!(get_reply(&ok, "x"), Err(Error::Protocol("DM.GET unexpected reply: x".to_string())));
    assert_eq!(delete_reply(&Frame::Integer(2), ""), Ok(true));
    assert_eq!(delete_reply(&Frame::Integer(0), ""), Ok(false));
    assert_eq!(number_reply("DM.INCR", &Frame::Integer(-5), ""), Ok(-5));
    assert_eq!(
        number_reply("DM.DECR", &ok, "y"),
        Err(Error::Protocol("DM.DECR unexpected reply: y".to_string()))
    );
    assert_eq!(float_reply(&bulk(b"2.5"), ""), Ok("2.5".to_string()));
    assert_eq!(get_put_reply(&null, ""), Ok(None));
    assert_eq!(expire_reply(&Frame::Integer(1), ""), Ok(()));
    assert_eq!(expire_reply(&Frame::Integer(0), ""), Err(Error::KeyNotFound));
    assert!(expire_reply(&Frame::Integer(2), "").is_err());
    assert_eq!(destroy_reply(&ok, ""), Ok(()));
    assert_eq!(
        check_not_error(&Frame::Error("NOAUTH x".to_string())),
        Err(Error::Auth("x".to_string()))
    );
    assert!(check_not_error(&ok).is_ok());
}

#[test]
fn scans_are_understood() {
    let reply = Frame::Array(Some(vec![
        bulk(b"0"),
        Frame::Array(Some(vec![
            bulk(b"a"),
            bulk(b"1"),
            bulk(&[0xff]),
            bulk(b"2"),
            Frame::Null,
            bulk(b"3"),
            bulk(b"b"),
            bulk(b"4"),
            bulk(b"odd"),
        ])),
    ]));
    let mut c = scan_reply(&reply, "").unwrap();
    assert_eq!(c.next().unwrap(), Some(("a".to_string(), b"1".to_vec())));
    assert_eq!(c.next().unwrap(), Some(("b".to_string(), b"4".to_vec())));
    assert_eq!(c.next().unwrap(), None);
    let bad = Frame::Array(Some(vec![bulk(b"0"), bulk(b"1")]));
    assert_eq!(
        scan_reply(&bad, "").unwrap_err(),
        Error::Protocol("DM.SCAN payload not an array".to_string())
    );
    assert_eq!(
        scan_reply(&Frame::Array(None), "n").unwrap_err(),
        Error::Protocol("DM.SCAN unexpected reply: n".to_string())
    );
}

#[test]
fn figures_of_a_server_are_understood() {
    let reply = Frame::Array(Some(vec![
        bulk(b"connections"),
        bulk(b"1"),
        bulk(b"commands_total"),
        bulk(b"12"),
        bulk(b"connections"),
        bulk(b"3"),
    ]));
    let s = stats_reply(&reply).unwrap();
    let f = s.of("__server__").unwrap();
    assert_eq!((f.len, f.inuse), (3, 12));
    assert!(stats_reply(&Frame::Array(Some(Vec::new()))).unwrap().dmaps.is_empty());
    assert_eq!(
        stats_reply(&Frame::Null),
        Err(Error::Protocol("STATS expected Array(Some(_))".to_string()))
    );
}

#[test]
fn answers_meet_requests_in_order() {
    let mut r = Requests::new();
    assert!(r.submit(7).is_ok());
    assert!(r.submit(8).is_ok());
    assert!(r.submit(9).is_ok());
    assert_eq!(r.answered(), Some(7));
    let told = r.end(&ConnError::Io("broken".to_string()));
    assert_eq!(
        told,
        vec![
            (8, ConnError::Closed("broken".to_string())),
            (9, ConnError::Closed("broken".to_string())),
        ]
    );
    assert_eq!(r.answered(), None);
    assert_eq!(r.submit(10), Err(ConnError::Closed("server closed connection".to_string())));
    let p = ConnError::Protocol("p".to_string());
    assert_eq!(clone_err(&p), p);
    assert_eq!(Error::from(p), Error::Protocol("p".to_string()));
    assert_eq!(
        Error::from(ConnError::Io("i".to_string())),
        Error::ServerGone("i".to_string())
    );
}

#[test]
fn options_resolve_to_an_expiry() {
    let o = PutOptions { ex: Some(1), ..PutOptions::default() };
    assert_eq!(o.ttl_at(2, None), Ok(1_000_002_000));
    assert!(o.resolve_ttl_nanos(&SystemClock, None).unwrap() > 1_000_000_000_000_000_000);
    let o = PutOptions { ex: Some(u64::MAX), ..PutOptions::default() };
    assert_eq!(o.ttl_at(2, None), Ok(i64::MAX));
    let none = PutOptions::default();
    assert_eq!(none.ttl_at(2, None), Ok(0));
    assert_eq!(none.ttl_at(2, Some(0)), Ok(0));
    assert_eq!(none.ttl_at(2, Some(5)), Ok(2_005));
    let g = GetResponse { value: b"+12".to_vec(), timestamp: 0, ttl: None };
    assert_eq!(g.as_i64(), Ok(12));
    let g = GetResponse { value: b"x".to_vec(), timestamp: 0, ttl: None };
    assert_eq!(
        g.as_i64(),
        Err(Error::Serialization("x".parse::<i64>().unwrap_err().to_string()))
    );
}

#[test]
fn errors_say_what_happened() {
    assert_eq!(Error::KeyNotFound.message(), "key not found");
    assert_eq!(Error::DMapNotFound("m".to_string()).message(), "dmap not found: m");
    assert_eq!(Error::KeyAlreadyExists.message(), "key already exists");
    assert_eq!(Error::KeyNotExists.message(), "key does not exist");
    assert_eq!(Error::LockNotAcquired.message(), "lock not acquired within deadline");
    assert_eq!(Error::NoSuchLock.message(), "no such lock for this token");
    assert_eq!(
        Error::InvalidCursor.message(),
        "invalid scan cursor: partition migrated; restart the scan"
    );
    assert_eq!(Error::Timeout.message(), "operation timed out");
    assert_eq!(
        Error::Config(kamino::error::Error::Config("c".to_string())).message(),
        format!("config error: {}", kamino::error::Error::Config("c".to_string()).message())
    );
    assert_eq!(Error::ServerGone("x".to_string()).message(), "server is gone: x");
    assert_eq!(Error::Server("x".to_string()).message(), "server error: x");
    assert_eq!(Error::Auth("x".to_string()).message(), "auth required: x");
    assert_eq!(
        Error::Moved { partition: 9, addr: "a:1".to_string() }.message(),
        "MOVED 9 a:1"
    );
    assert_eq!(Error::SubscriptionClosed.message(), "pub/sub subscription closed");
}
