//! Glob patterns and the registry of subscriptions.

use bytes::Bytes;
use kamino::cluster::glob::pattern_matches;
use kamino::cluster::pubsub::{LocalPubSubProvider, PubSubService};

fn b(s: &str) -> Bytes {
    Bytes::copy_from_slice(s.as_bytes())
}

fn make_conn(svc: &mut PubSubService) -> u64 {
    let id = svc.next_conn_id();
    svc.register_conn(id);
    id
}

#[test]
fn glob_exact() {
    assert!(pattern_matches("foo", "foo"));
    assert!(!pattern_matches("foo", "bar"));
}

#[test]
fn glob_star() {
    assert!(pattern_matches("foo*", "foobar"));
    assert!(pattern_matches("*bar", "foobar"));
    assert!(pattern_matches("*", "anything"));
    assert!(pattern_matches("a*b", "azzzb"));
    assert!(pattern_matches("a*b*c", "axxxbyyyc"));
    assert!(!pattern_matches("a*c", "ab"));
}

#[test]
fn glob_question() {
    assert!(pattern_matches("a?c", "abc"));
    assert!(!pattern_matches("a?c", "ac"));
    assert!(!pattern_matches("a?c", "abbc"));
}

#[test]
fn glob_charclass() {
    assert!(pattern_matches("a[bd]e", "abe"));
    assert!(pattern_matches("a[bd]e", "ade"));
    assert!(!pattern_matches("a[bd]e", "ace"));
}

#[test]
fn glob_negated_charclass() {
    assert!(pattern_matches("a[^bd]e", "ace"));
    assert!(!pattern_matches("a[^bd]e", "abe"));
}

#[test]
fn glob_scans_long_classes() {
    let long = "x".repeat(200_000);
    assert!(pattern_matches(&format!("a[{long}"), &format!("a[{long}")));
    assert!(pattern_matches(&format!("a[{long}]b"), "axb"));
    assert!(!pattern_matches(&format!("a[^{long}]b"), "axb"));
}

#[test]
fn glob_unclosed_bracket_is_literal() {
    assert!(pattern_matches("a[bc", "a[bc"));
    assert!(!pattern_matches("a[bc", "abc"));
    assert!(pattern_matches("*[b", "a[[b"));
}

#[test]
fn glob_pubsub_examples_from_docs() {
    assert!(pattern_matches("events.*", "events.created"));
    assert!(pattern_matches("events.*", "events.order.created"));
    assert!(pattern_matches("user.login.*", "user.login.alice"));
    assert!(pattern_matches("*.critical", "system.critical"));
    assert!(!pattern_matches("events.*", "alerts.created"));
}

#[test]
fn subscribe_then_publish_delivers() {
    let mut svc = PubSubService::new();
    let conn = make_conn(&mut svc);
    let acks = svc.subscribe(conn, &[b("events")]);
    assert_eq!(acks.len(), 1);
    assert_eq!(acks[0].total_subscriptions, 1);
    let delivered = svc.publish_local("events", &b("hello"));
    assert_eq!(delivered.len(), 1);
    assert_eq!(delivered[0].conn_id, conn);
    let msg = &delivered[0].message;
    assert_eq!(msg.channel, "events");
    assert!(msg.pattern.is_none());
    assert_eq!(msg.payload, b("hello"));
}

#[test]
fn pattern_subscribe_delivers_with_source() {
    let mut svc = PubSubService::new();
    let conn = make_conn(&mut svc);
    svc.psubscribe(conn, &[b("events.*")]);
    let delivered = svc.publish_local("events.created", &b("payload"));
    assert_eq!(delivered.len(), 1);
    let msg = &delivered[0].message;
    assert_eq!(msg.channel, "events.created");
    assert_eq!(msg.pattern.as_deref(), Some("events.*"));
}

#[test]
fn exact_and_pattern_subs_both_fire() {
    let mut svc = PubSubService::new();
    let conn = make_conn(&mut svc);
    svc.subscribe(conn, &[b("ch")]);
    svc.psubscribe(conn, &[b("c?")]);
    let delivered = svc.publish_local("ch", &b("x"));
    assert_eq!(delivered.len(), 2);
    let patterns = [delivered[0].message.pattern.clone(), delivered[1].message.pattern.clone()];
    assert!(patterns.contains(&None));
    assert!(patterns.contains(&Some("c?".to_string())));
}

#[test]
fn unsubscribe_specific() {
    let mut svc = PubSubService::new();
    let conn = make_conn(&mut svc);
    svc.subscribe(conn, &[b("a"), b("b"), b("c")]);
    let acks = svc.unsubscribe(conn, Some(&[b("b")]));
    assert_eq!(acks.len(), 1);
    assert_eq!(acks[0].channel, b("b"));
    assert_eq!(acks[0].total_subscriptions, 2);
}

#[test]
fn unsubscribe_all_emits_per_channel_acks() {
    let mut svc = PubSubService::new();
    let conn = make_conn(&mut svc);
    svc.subscribe(conn, &[b("a"), b("b")]);
    let acks = svc.unsubscribe(conn, None);
    assert_eq!(acks.len(), 2);
    assert_eq!(acks.last().unwrap().total_subscriptions, 0);
}

#[test]
fn unsubscribe_when_nothing_subscribed_emits_null_ack() {
    let mut svc = PubSubService::new();
    let conn = make_conn(&mut svc);
    let acks = svc.unsubscribe(conn, None);
    assert_eq!(acks.len(), 1);
    assert!(acks[0].channel.is_empty());
    assert_eq!(acks[0].total_subscriptions, 0);
}

#[test]
fn pubsub_channels_lists_only_exact() {
    let mut svc = PubSubService::new();
    let conn = make_conn(&mut svc);
    svc.subscribe(conn, &[b("events"), b("alerts")]);
    svc.psubscribe(conn, &[b("events.*")]);
    let chans = svc.pubsub_channels(None);
    assert_eq!(chans, vec!["alerts".to_string(), "events".to_string()]);
}

#[test]
fn pubsub_channels_filters_by_glob() {
    let mut svc = PubSubService::new();
    let conn = make_conn(&mut svc);
    svc.subscribe(conn, &[b("events"), b("alerts"), b("audit")]);
    let chans = svc.pubsub_channels(Some("a*"));
    assert_eq!(chans, vec!["alerts".to_string(), "audit".to_string()]);
}

#[test]
fn pubsub_numsub_returns_counts() {
    let mut svc = PubSubService::new();
    let c1 = make_conn(&mut svc);
    let c2 = make_conn(&mut svc);
    svc.subscribe(c1, &[b("events")]);
    svc.subscribe(c2, &[b("events")]);
    let r = svc.pubsub_numsub(&[b("events"), b("missing")]);
    assert_eq!(r[0].1, 2);
    assert_eq!(r[1].1, 0);
}

#[test]
fn pubsub_numpat_counts_distinct_patterns() {
    let mut svc = PubSubService::new();
    let c1 = make_conn(&mut svc);
    let c2 = make_conn(&mut svc);
    svc.psubscribe(c1, &[b("a.*"), b("b.*")]);
    svc.psubscribe(c2, &[b("a.*")]);
    assert_eq!(svc.pubsub_numpat(), 2);
}

#[test]
fn cleanup_conn_drops_everything() {
    let mut svc = PubSubService::new();
    let conn = make_conn(&mut svc);
    svc.subscribe(conn, &[b("a"), b("b")]);
    svc.psubscribe(conn, &[b("c.*")]);
    svc.cleanup_conn(conn);
    assert_eq!(svc.pubsub_numsub(&[b("a")])[0].1, 0);
    assert_eq!(svc.pubsub_numpat(), 0);
}

#[test]
fn local_provider_wraps_service() {
    let mut svc = PubSubService::new();
    let id = make_conn(&mut svc);
    let acks = svc.subscribe(id, &[b("x")]);
    assert_eq!(acks[0].total_subscriptions, 1);
    let p = LocalPubSubProvider::new(svc);
    assert_eq!(p.service().pubsub_numsub(&[b("x")])[0].1, 1);
    assert_eq!(p.publish(&b("x"), &b("m")).len(), 1);
    assert_eq!(p.into_service().pubsub_numpat(), 0);
}

#[test]
fn malformed_channel_names_are_replaced() {
    let mut svc = PubSubService::new();
    let id = make_conn(&mut svc);
    svc.subscribe(id, &[Bytes::from_static(&[0x61, 0xff])]);
    assert_eq!(svc.pubsub_channels(None), vec!["a\u{fffd}".to_string()]);
    let heard = svc.publish(&Bytes::from_static(&[0x61, 0xfe]), &b("m"));
    assert_eq!(heard.len(), 1);
    assert_eq!(heard[0].message.channel, "a\u{fffd}");
}
