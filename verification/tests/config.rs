//! Configuration and its overlay from the environment.

use kamino::config::env::{
    build_toml, can_build_toml, is_writable, relevant_vars, toml_scalar, AuthOverlay,
    ConfigOverlay, CoreOverlay, EnvVar, EventsOverlay, NetworkOverlay, SwimOverlay,
};
use kamino::config::node::{collect_dmaps, name_order, Config};
use kamino::config::sections::{DMapConfig, EvictionPolicy};
use kamino::config::size::{split_byte_size, unit_multiplier, ByteSize};
use kamino::error::Error;
use kamino::mode::Mode;
use kamino::profile::Profile;

const SECOND: u64 = 1_000_000_000;

#[test]
fn default_config_validates() {
    Config::default().validate().expect("default config must validate");
}

#[test]
fn write_quorum_must_not_exceed_replica_count() {
    let mut cfg = Config::default();
    cfg.core.replica_count = 1;
    cfg.core.write_quorum = 2;
    let err = cfg.validate().expect_err("invalid combo");
    assert!(matches!(err, Error::Config(msg) if msg.contains("write_quorum")));
}

#[test]
fn read_quorum_must_not_exceed_replica_count() {
    let mut cfg = Config::default();
    cfg.core.replica_count = 1;
    cfg.core.read_quorum = 3;
    let err = cfg.validate().expect_err("invalid combo");
    assert!(matches!(err, Error::Config(msg) if msg.contains("read_quorum")));
}

#[test]
fn partition_count_zero_rejected() {
    let mut cfg = Config::default();
    cfg.core.partition_count = 0;
    assert!(matches!(cfg.validate(), Err(Error::Config(_))));
}

#[test]
fn load_factor_below_one_rejected() {
    let mut cfg = Config::default();
    cfg.core.load_factor = 0.9_f64.to_bits();
    assert!(matches!(cfg.validate(), Err(Error::Config(_))));
    cfg.core.load_factor = 1.0_f64.to_bits();
    assert!(cfg.validate().is_ok());
    cfg.core.load_factor = (-1.5_f64).to_bits();
    assert!(matches!(cfg.validate(), Err(Error::Config(_))));
    cfg.core.load_factor = f64::INFINITY.to_bits();
    assert!(matches!(cfg.validate(), Err(Error::Config(_))));
}

#[test]
fn bounds_of_fractions_are_named() {
    let mut cfg = Config::default();
    cfg.core.load_factor = 0.5_f64.to_bits();
    match cfg.validate() {
        Err(Error::Config(m)) => assert_eq!(m, "load_factor must be >= 1.0"),
        _ => panic!("expected a refusal"),
    }
    let mut cfg = Config::default();
    cfg.storage.max_garbage_ratio = 1.5_f64.to_bits();
    match cfg.validate() {
        Err(Error::Config(m)) => {
            assert_eq!(m, "storage.max_garbage_ratio must be in [0.0, 1.0]");
        },
        _ => panic!("expected a refusal"),
    }
}

#[test]
fn load_factor_nan_rejected() {
    let mut cfg = Config::default();
    cfg.core.load_factor = f64::NAN.to_bits();
    assert!(matches!(cfg.validate(), Err(Error::Config(_))));
}

#[test]
fn default_ratios_are_the_usual_ones() {
    let cfg = Config::default();
    assert_eq!(f64::from_bits(cfg.core.load_factor), 1.25);
    let ratio = f64::from_bits(cfg.storage.max_garbage_ratio);
    assert!(ratio > 0.0 && ratio <= 1.0);
}

#[test]
fn embedded_solo_rejects_peers() {
    let mut cfg = Config::default();
    cfg.mode = Mode::EmbeddedSolo;
    cfg.discovery.peers = vec!["10.0.1.1:3322".to_string()];
    let err = cfg.validate().expect_err("embedded_solo + peers");
    assert!(matches!(
        err,
        Error::IrrelevantSection { section, mode: Mode::EmbeddedSolo }
            if section == "discovery.peers"
    ));
}

#[test]
fn embedded_solo_rejects_replica_gt_one() {
    let mut cfg = Config::default();
    cfg.mode = Mode::EmbeddedSolo;
    cfg.core.replica_count = 2;
    cfg.core.write_quorum = 1;
    assert!(matches!(cfg.validate(), Err(Error::Config(_))));
}

#[test]
fn production_rejects_single_replica() {
    let mut cfg = Config::default();
    cfg.mode = Mode::EmbeddedClustered;
    cfg.profile = Profile::Production;
    cfg.core.replica_count = 1;
    cfg.core.member_count_quorum = 1;
    let err = cfg.validate().expect_err("prod + replica=1");
    assert!(matches!(err, Error::ProductionReplicaCount { got: 1 }));
}

#[test]
fn production_rejects_minority_quorum() {
    let mut cfg = Config::default();
    cfg.mode = Mode::EmbeddedClustered;
    cfg.profile = Profile::Production;
    cfg.core.replica_count = 3;
    cfg.core.write_quorum = 2;
    cfg.core.member_count_quorum = 1;
    let err = cfg.validate().expect_err("prod + minority quorum");
    assert!(matches!(err, Error::ProductionQuorum { got: 1 }));
}

#[test]
fn production_accepts_majority_quorum() {
    let mut cfg = Config::default();
    cfg.mode = Mode::EmbeddedClustered;
    cfg.profile = Profile::Production;
    cfg.core.replica_count = 3;
    cfg.core.write_quorum = 2;
    cfg.core.member_count_quorum = 2;
    cfg.validate().expect("majority quorum is valid in prod");
}

#[test]
fn swim_timeout_must_be_less_than_interval() {
    let mut cfg = Config::default();
    cfg.swim.probe_timeout = 2 * SECOND;
    cfg.swim.probe_interval = SECOND;
    assert!(matches!(cfg.validate(), Err(Error::Config(_))));
}

#[test]
fn parses_byte_size_string() {
    let (number, unit) = split_byte_size("2MB");
    let n: f64 = number.parse().unwrap();
    let bytes = (n * unit_multiplier(&unit).unwrap() as f64) as u64;
    assert_eq!(ByteSize(bytes), ByteSize(2 * 1024 * 1024));
    assert_eq!(split_byte_size(" 1.5 GiB "), ("1.5".to_string(), "GiB".to_string()));
    assert_eq!(split_byte_size("12"), ("12".to_string(), String::new()));
    assert_eq!(unit_multiplier("GiB"), Some(1 << 30));
    assert_eq!(unit_multiplier("tb"), Some(1 << 40));
    assert_eq!(unit_multiplier("K"), Some(1024));
    assert_eq!(unit_multiplier("xb"), None);
}

fn named(name: &str) -> DMapConfig {
    let mut d = DMapConfig::default();
    d.name = name.to_string();
    d
}

#[test]
fn duplicate_dmap_names_rejected() {
    let r = collect_dmaps(vec![named("x"), named("x")]);
    assert_eq!(r.unwrap_err(), "duplicate dmap name: x");
    let r = collect_dmaps(vec![named("x"), named("")]);
    assert_eq!(r.unwrap_err(), "each [[dmaps]] entry needs a name");
}

#[test]
fn parses_dmaps_into_map() {
    let mut sessions = named("sessions");
    sessions.ttl = Some(3600 * SECOND);
    sessions.eviction_policy = Some(EvictionPolicy::Lru);
    sessions.lru_samples = Some(10);
    let mut limits = named("rate_limits");
    limits.ttl = Some(60 * SECOND);
    let mut cfg = Config::default();
    cfg.dmaps = collect_dmaps(vec![sessions, limits]).unwrap();
    assert_eq!(cfg.dmaps.len(), 2);
    let sessions = cfg.dmap("sessions").unwrap();
    assert_eq!(sessions.ttl, Some(3600 * SECOND));
    assert_eq!(sessions.eviction_policy, Some(EvictionPolicy::Lru));
    assert!(cfg.dmap("other").is_none());
    assert_eq!(name_order(&cfg.dmaps), vec![1, 0]);
    cfg.validate().unwrap();
}

fn seconds(text: &str) -> Option<u64> {
    text.strip_suffix('s').and_then(|n| n.parse::<u64>().ok()).map(|n| n * SECOND)
}

fn var(key: &str, value: &str) -> EnvVar {
    let t = value.trim();
    let float = t.parse::<f64>().ok().filter(|f| f.is_finite()).map(|f| format!("{f:?}"));
    EnvVar { key: key.to_string(), value: value.to_string(), float }
}

fn number(t: &toml::Value, key: &str) -> Result<Option<u32>, Error> {
    match t.get(key) {
        None => Ok(None),
        Some(v) => match v.as_integer() {
            Some(n) => Ok(Some(n as u32)),
            None => Err(Error::Config(format!("{key} is no number"))),
        },
    }
}

/// Writes the variables out, reads them back and lays them over the
/// configuration.
fn overlay_from_iter(cfg: &mut Config, vars: &[(&str, &str)]) -> Result<(), Error> {
    let vars = relevant_vars(vars.iter().map(|(k, v)| var(k, v)).collect());
    if vars.is_empty() {
        return Ok(());
    }
    let text = build_toml(&vars);
    let tree: toml::Value = toml::from_str(&text).map_err(|e| Error::Config(e.to_string()))?;
    let mut o = ConfigOverlay::new();
    match tree.get("mode").and_then(|m| m.as_str()) {
        Some("standalone") => o.mode = Some(Mode::Standalone),
        Some("embedded_clustered") => o.mode = Some(Mode::EmbeddedClustered),
        _ => {},
    }
    if let Some(t) = tree.get("core") {
        let mut c = CoreOverlay::new();
        c.replica_count = number(t, "replica_count")?;
        c.write_quorum = number(t, "write_quorum")?;
        c.read_quorum = number(t, "read_quorum")?;
        c.member_count_quorum = number(t, "member_count_quorum")?;
        o.core = Some(c);
    }
    if let Some(t) = tree.get("swim") {
        let mut s = SwimOverlay::new();
        s.probe_interval = t.get("probe_interval").and_then(|v| v.as_str()).and_then(seconds);
        o.swim = Some(s);
    }
    if let Some(t) = tree.get("auth") {
        let mut a = AuthOverlay::new();
        a.password = t.get("password").and_then(|v| v.as_str()).map(str::to_string);
        o.auth = Some(a);
    }
    if let Some(t) = tree.get("network") {
        let mut n = NetworkOverlay::new();
        n.bind_port = number(t, "bind_port")?.map(|p| p as u16);
        o.network = Some(n);
    }
    if let Some(t) = tree.get("events") {
        let mut e = EventsOverlay::new();
        e.enable_cluster_events_channel =
            t.get("enable_cluster_events_channel").and_then(|v| v.as_bool());
        o.events = Some(e);
    }
    cfg.apply_overlay(o)
}

#[test]
fn overrides_replica_count() {
    let mut cfg = Config::default();
    overlay_from_iter(&mut cfg, &[("KAMINO_CORE__REPLICA_COUNT", "1")]).unwrap();
    assert_eq!(cfg.core.replica_count, 1);
    overlay_from_iter(
        &mut cfg,
        &[
            ("KAMINO_MODE", "embedded_clustered"),
            ("KAMINO_CORE__REPLICA_COUNT", "3"),
            ("KAMINO_CORE__WRITE_QUORUM", "2"),
            ("KAMINO_CORE__READ_QUORUM", "2"),
            ("KAMINO_CORE__MEMBER_COUNT_QUORUM", "2"),
        ],
    )
    .unwrap();
    assert_eq!(cfg.core.replica_count, 3);
    assert_eq!(cfg.core.write_quorum, 2);
}

#[test]
fn overrides_duration_field() {
    let mut cfg = Config::default();
    overlay_from_iter(&mut cfg, &[("KAMINO_SWIM__PROBE_INTERVAL", "2s")]).unwrap();
    assert_eq!(cfg.swim.probe_interval, 2 * SECOND);
}

#[test]
fn unknown_var_is_ignored() {
    let mut cfg = Config::default();
    overlay_from_iter(&mut cfg, &[("KAMINO_NONEXISTENT__FIELD", "whatever")]).unwrap();
    assert_eq!(cfg.core.replica_count, 1);
}

#[test]
fn unparseable_value_returns_config_error() {
    let mut cfg = Config::default();
    let err = overlay_from_iter(&mut cfg, &[("KAMINO_CORE__REPLICA_COUNT", "not-a-number")]).err();
    assert!(matches!(err, Some(Error::Config(_))));
}

#[test]
fn no_kamino_vars_is_noop() {
    let mut cfg = Config::default();
    overlay_from_iter(&mut cfg, &[("PATH", "/usr/bin"), ("HOME", "/root")]).unwrap();
    assert_eq!(cfg.core.replica_count, 1);
}

#[test]
fn auth_password_overlay() {
    let mut cfg = Config::default();
    overlay_from_iter(&mut cfg, &[("KAMINO_AUTH__PASSWORD", "s3cr3t")]).unwrap();
    assert_eq!(cfg.auth.password, "s3cr3t");
}

#[test]
fn network_port_overlay() {
    let mut cfg = Config::default();
    overlay_from_iter(&mut cfg, &[("KAMINO_NETWORK__BIND_PORT", "3399")]).unwrap();
    assert_eq!(cfg.network.bind_port, 3399);
}

#[test]
fn mode_overlay() {
    let mut cfg = Config::default();
    overlay_from_iter(&mut cfg, &[("KAMINO_MODE", "standalone")]).unwrap();
    assert_eq!(cfg.mode, Mode::Standalone);
}

#[test]
fn boolean_value() {
    let mut cfg = Config::default();
    overlay_from_iter(&mut cfg, &[("KAMINO_EVENTS__ENABLE_CLUSTER_EVENTS_CHANNEL", "true")])
        .unwrap();
    assert!(cfg.events.enable_cluster_events_channel);
}

#[test]
fn overlays_are_validated() {
    let mut cfg = Config::default();
    let err = overlay_from_iter(&mut cfg, &[("KAMINO_CORE__WRITE_QUORUM", "9")]).unwrap_err();
    assert!(matches!(err, Error::Config(_)));
}

#[test]
fn strings_are_quoted() {
    let vars = relevant_vars(vec![var("KAMINO_AUTH__PASSWORD", "a\"b\\c\n")]);
    let text = build_toml(&vars);
    let tree: toml::Value = toml::from_str(&text).unwrap();
    assert_eq!(tree["auth"]["password"].as_str(), Some("a\"b\\c\n"));
}

#[test]
fn plain_strings_stand_between_double_quotes() {
    for n in 0x20..0x11_0000_u32 {
        if let Some(c) = char::from_u32(n) {
            if c != '"' && c != '\\' && n != 0x7f {
                let text = format!("it's {c}");
                assert_eq!(toml_scalar(&var("KAMINO_MODE", &text)), format!("\"{text}\""));
            }
        }
    }
    assert_eq!(toml_scalar(&var("KAMINO_MODE", "")), "\"\"");
}

#[test]
fn long_runs_of_quotes_cannot_be_written() {
    for q in ["'", "\""] {
        let short = var("AUTH__PASSWORD", &format!("{}x{}", q.repeat(255), q.repeat(255)));
        assert!(is_writable(&short));
        let tree: toml::Value = toml::from_str(&build_toml(&vec![short])).unwrap();
        assert_eq!(tree["auth"]["password"].as_str().unwrap().len(), 511);
        let long = format!("x{}", q.repeat(256));
        assert!(!is_writable(&var("AUTH__PASSWORD", &long)));
        assert!(!can_build_toml(&vec![var("AUTH__PASSWORD", &long)]));
        assert!(!can_build_toml(&vec![var("MODE", &long)]));
        let unused = vec![
            var("NOWHERE__FIELD", &long),
            var("AUTH__DEEP__ER", &long),
            var("AUTH", &long),
            var("MODE", &long),
            var("MODE", "standalone"),
        ];
        assert!(can_build_toml(&unused));
        assert_eq!(build_toml(&unused), "");
    }
}

#[test]
fn units_start_at_the_first_letter() {
    for n in 0..0x80_u32 {
        if let Some(c) = char::from_u32(n) {
            let (_, unit) = split_byte_size(&format!("1{c}"));
            assert_eq!(unit.is_empty(), !c.is_ascii_alphabetic(), "U+{n:04X}");
        }
    }
}

#[test]
fn every_white_space_is_trimmed() {
    for n in 0..0x11_0000_u32 {
        if let Some(c) = char::from_u32(n) {
            let (number, _) = split_byte_size(&format!("{c}1"));
            let trimmed = format!("{c}1").trim() == "1";
            assert!(c.is_alphabetic() || trimmed == (number == "1"), "U+{n:04X}");
        }
    }
}
