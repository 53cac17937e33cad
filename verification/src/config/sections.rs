//! The sections of a configuration.

use vstd::prelude::*;
use vstd::string::*;

use crate::config::size::ByteSize;
use crate::error::{reports, Error, Fault};
use crate::mode::Mode;
use crate::net::IpAddr;

verus! {

/// Nanoseconds of a millisecond.
pub const MILLISECOND: u64 = 1_000_000;

/// Nanoseconds of a second.
pub const SECOND: u64 = 1_000_000_000;

// ---------------------------------------------------------------------------
// Ratios
// ---------------------------------------------------------------------------

/// Bits of the double 1.
pub const ONE_BITS: u64 = 0x3ff0_0000_0000_0000;

/// Bits of positive infinity.
pub const INFINITY_BITS: u64 = 0x7ff0_0000_0000_0000;

/// Bits of a double whose sign alone is set.
pub const SIGN_BIT: u64 = 0x8000_0000_0000_0000;

/// Bits of the double 1.25.
pub const LOAD_FACTOR_BITS: u64 = 0x3ff4_0000_0000_0000;

/// Bits of the double nearest to 0.4.
pub const GARBAGE_RATIO_BITS: u64 = 0x3fd9_9999_9999_999a;

/// The bits of a double without its sign.
pub open spec fn magnitude(bits: u64) -> u64 {
    if bits >= SIGN_BIT {
        (bits - SIGN_BIT) as u64
    } else {
        bits
    }
}

/// The bits are those of a not-a-number.
pub open spec fn is_nan(bits: u64) -> bool {
    magnitude(bits) > INFINITY_BITS
}

/// The bits are those of a finite number.
pub open spec fn is_finite(bits: u64) -> bool {
    magnitude(bits) < INFINITY_BITS
}

/// The bits are those of a number below 1.
pub open spec fn below_one(bits: u64) -> bool {
    !is_nan(bits) && (bits >= SIGN_BIT || bits < ONE_BITS)
}

/// The bits are those of a number from 0 to 1.
pub open spec fn within_unit(bits: u64) -> bool {
    bits <= ONE_BITS || bits == SIGN_BIT
}

fn magnitude_of(bits: u64) -> (r: u64)
    ensures
        r == magnitude(bits),
{
    if bits >= SIGN_BIT {
        bits - SIGN_BIT
    } else {
        bits
    }
}

fn fail(m: &str) -> (r: Result<(), Error>)
    ensures
        r is Err,
        r->Err_0@ == Fault::Config(m@),
{
    Err(Error::Config(m.to_owned()))
}

/// Texts of a list of strings.
pub open spec fn texts(v: Seq<String>) -> Seq<Seq<char>> {
    Seq::new(v.len(), |i: int| v[i]@)
}

/// Text of an optional string.
pub open spec fn option_text(v: Option<String>) -> Option<Seq<char>> {
    match v {
        Some(s) => Some(s@),
        None => None,
    }
}

pub(crate) fn copy_strings(v: &Vec<String>) -> (r: Vec<String>)
    ensures
        texts(r@) == texts(v@),
{
    let mut out: Vec<String> = Vec::new();
    let mut i: usize = 0;
    while i < v.len()
        invariant
            i <= v@.len(),
            out@.len() == i,
            forall|j: int| 0 <= j < i ==> (#[trigger] out@[j])@ == v@[j]@,
        decreases v@.len() - i,
    {
        out.push(v[i].clone());
        i = i + 1;
    }
    assert(texts(out@) =~= texts(v@));
    out
}

pub(crate) fn copy_option(v: &Option<String>) -> (r: Option<String>)
    ensures
        option_text(r) == option_text(*v),
{
    match v {
        Some(s) => Some(s.clone()),
        None => None,
    }
}

/// How writes reach the backups.
#[derive(Debug, Clone, Copy, PartialEq, Eq, Structural)]
pub enum ReplicationMode {
    /// The write waits for the quorum.
    Sync,
    /// The write does not wait.
    Async,
}

impl Default for ReplicationMode {
    fn default() -> (r: Self)
        ensures
            r == ReplicationMode::Sync,
    {
        ReplicationMode::Sync
    }
}

/// Which entries make room for new ones.
#[derive(Debug, Clone, Copy, PartialEq, Eq, Structural)]
pub enum EvictionPolicy {
    /// None of them: nothing is evicted.
    NoEviction,
    /// The least recently used ones.
    Lru,
}

impl Default for EvictionPolicy {
    fn default() -> (r: Self)
        ensures
            r == EvictionPolicy::NoEviction,
    {
        EvictionPolicy::NoEviction
    }
}

// ---------------------------------------------------------------------------
// [core]
// ---------------------------------------------------------------------------

/// Data shape, replication and quorums.
#[derive(Debug)]
pub struct CoreConfig {
    /// Partitions of the hash ring. Does not change after the first write.
    pub partition_count: u32,
    /// Replicas of a partition, the primary among them.
    pub replica_count: u32,
    /// How many replicas a write has to reach.
    pub write_quorum: u32,
    /// How many replicas a read asks.
    pub read_quorum: u32,
    /// How many members the cluster needs to serve requests.
    pub member_count_quorum: u32,
    /// How writes reach the backups.
    pub replication_mode: ReplicationMode,
    /// Whether a read repairs stale replicas.
    pub read_repair: bool,
    /// Factor by which a member may exceed the average load, as the bits of a
    /// double; at least 1.
    pub load_factor: u64,
    /// Virtual nodes of a member on the hash ring.
    pub virtual_nodes_per_member: u32,
}

impl Clone for CoreConfig {
    fn clone(&self) -> (r: Self)
        ensures
            same_coreconfig(r, *self),
    {
        CoreConfig {
            partition_count: self.partition_count,
            replica_count: self.replica_count,
            write_quorum: self.write_quorum,
            read_quorum: self.read_quorum,
            member_count_quorum: self.member_count_quorum,
            replication_mode: self.replication_mode,
            read_repair: self.read_repair,
            load_factor: self.load_factor,
            virtual_nodes_per_member: self.virtual_nodes_per_member,
        }
    }
}

/// Two sections hold the same values.
pub open spec fn same_coreconfig(a: CoreConfig, b: CoreConfig) -> bool {
    &&& a.partition_count == b.partition_count
    &&& a.replica_count == b.replica_count
    &&& a.write_quorum == b.write_quorum
    &&& a.read_quorum == b.read_quorum
    &&& a.member_count_quorum == b.member_count_quorum
    &&& a.replication_mode == b.replication_mode
    &&& a.read_repair == b.read_repair
    &&& a.load_factor == b.load_factor
    &&& a.virtual_nodes_per_member == b.virtual_nodes_per_member
}

impl Default for CoreConfig {
    fn default() -> (r: Self)
        ensures
            r.partition_count == 271,
            r.replica_count == 1,
            r.write_quorum == 1,
            r.read_quorum == 1,
            r.member_count_quorum == 1,
            r.replication_mode == ReplicationMode::Sync,
            r.read_repair == false,
            r.load_factor == LOAD_FACTOR_BITS,
            r.virtual_nodes_per_member == 20,
    {
        CoreConfig {
            partition_count: 271,
            replica_count: 1,
            write_quorum: 1,
            read_quorum: 1,
            member_count_quorum: 1,
            replication_mode: ReplicationMode::Sync,
            read_repair: false,
            load_factor: LOAD_FACTOR_BITS,
            virtual_nodes_per_member: 20,
        }
    }
}

/// First fault of the section.
pub open spec fn core_fault(c: CoreConfig) -> Option<Fault> {
    if c.partition_count == 0 {
        Some(Fault::Config("partition_count must be > 0"@))
    } else if c.replica_count == 0 {
        Some(Fault::Config("replica_count must be >= 1"@))
    } else if c.write_quorum == 0 {
        Some(Fault::Config("write_quorum must be >= 1"@))
    } else if c.read_quorum == 0 {
        Some(Fault::Config("read_quorum must be >= 1"@))
    } else if c.member_count_quorum == 0 {
        Some(Fault::Config("member_count_quorum must be >= 1"@))
    } else if below_one(c.load_factor) {
        Some(Fault::Config("load_factor must be >= 1.0"@))
    } else if !is_finite(c.load_factor) {
        Some(Fault::Config("load_factor must be finite"@))
    } else if c.virtual_nodes_per_member == 0 {
        Some(Fault::Config("virtual_nodes_per_member must be >= 1"@))
    } else {
        None
    }
}

impl CoreConfig {
    /// Checks the section.
    pub fn validate(&self) -> (r: Result<(), Error>)
        ensures
            reports(r, core_fault(*self)),
    {
        if self.partition_count == 0 {
            return fail("partition_count must be > 0");
        }
        if self.replica_count == 0 {
            return fail("replica_count must be >= 1");
        }
        if self.write_quorum == 0 {
            return fail("write_quorum must be >= 1");
        }
        if self.read_quorum == 0 {
            return fail("read_quorum must be >= 1");
        }
        if self.member_count_quorum == 0 {
            return fail("member_count_quorum must be >= 1");
        }
        if magnitude_of(self.load_factor) <= INFINITY_BITS && (self.load_factor >= SIGN_BIT
            || self.load_factor < ONE_BITS) {
            return fail("load_factor must be >= 1.0");
        }
        if magnitude_of(self.load_factor) >= INFINITY_BITS {
            return fail("load_factor must be finite");
        }
        if self.virtual_nodes_per_member == 0 {
            return fail("virtual_nodes_per_member must be >= 1");
        }
        Ok(())
    }
}

// ---------------------------------------------------------------------------
// [network]
// ---------------------------------------------------------------------------

/// The RESP listener, and the connections between nodes.
#[derive(Debug)]
pub struct NetworkConfig {
    /// Address to listen on.
    pub bind_addr: IpAddr,
    /// Port to listen on.
    pub bind_port: u16,
    /// Period of TCP keep-alive.
    pub keep_alive_period: u64,
    /// After how long an idle connection is closed; 0 for never.
    pub idle_close: u64,
    /// Connections to each peer.
    pub internode_pool_size: u32,
    /// Requests in flight on one connection.
    pub internode_inflight_per_conn: u32,
    /// How long connecting to a peer may take.
    pub internode_connect_timeout: u64,
    /// How long a peer may take to answer.
    pub internode_request_timeout: u64,
    /// First pause before connecting again.
    pub internode_reconnect_backoff_min: u64,
    /// Longest pause before connecting again.
    pub internode_reconnect_backoff_max: u64,
    /// Whether a request over keys of several partitions is refused.
    pub multi_key_strict: bool,
}

impl Clone for NetworkConfig {
    fn clone(&self) -> (r: Self)
        ensures
            same_networkconfig(r, *self),
    {
        NetworkConfig {
            bind_addr: self.bind_addr,
            bind_port: self.bind_port,
            keep_alive_period: self.keep_alive_period,
            idle_close: self.idle_close,
            internode_pool_size: self.internode_pool_size,
            internode_inflight_per_conn: self.internode_inflight_per_conn,
            internode_connect_timeout: self.internode_connect_timeout,
            internode_request_timeout: self.internode_request_timeout,
            internode_reconnect_backoff_min: self.internode_reconnect_backoff_min,
            internode_reconnect_backoff_max: self.internode_reconnect_backoff_max,
            multi_key_strict: self.multi_key_strict,
        }
    }
}

/// Two sections hold the same values.
pub open spec fn same_networkconfig(a: NetworkConfig, b: NetworkConfig) -> bool {
    &&& a.bind_addr == b.bind_addr
    &&& a.bind_port == b.bind_port
    &&& a.keep_alive_period == b.keep_alive_period
    &&& a.idle_close == b.idle_close
    &&& a.internode_pool_size == b.internode_pool_size
    &&& a.internode_inflight_per_conn == b.internode_inflight_per_conn
    &&& a.internode_connect_timeout == b.internode_connect_timeout
    &&& a.internode_request_timeout == b.internode_request_timeout
    &&& a.internode_reconnect_backoff_min == b.internode_reconnect_backoff_min
    &&& a.internode_reconnect_backoff_max == b.internode_reconnect_backoff_max
    &&& a.multi_key_strict == b.multi_key_strict
}

impl Default for NetworkConfig {
    fn default() -> (r: Self)
        ensures
            r.bind_addr == IpAddr::V4(0),
            r.bind_port == 3320,
            r.keep_alive_period == 300_000_000_000,
            r.idle_close == 0,
            r.internode_pool_size == 4,
            r.internode_inflight_per_conn == 256,
            r.internode_connect_timeout == 500_000_000,
            r.internode_request_timeout == 2_000_000_000,
            r.internode_reconnect_backoff_min == 100_000_000,
            r.internode_reconnect_backoff_max == 5_000_000_000,
            r.multi_key_strict == false,
    {
        NetworkConfig {
            bind_addr: IpAddr::V4(0),
            bind_port: 3320,
            keep_alive_period: 300_000_000_000,
            idle_close: 0,
            internode_pool_size: 4,
            internode_inflight_per_conn: 256,
            internode_connect_timeout: 500_000_000,
            internode_request_timeout: 2_000_000_000,
            internode_reconnect_backoff_min: 100_000_000,
            internode_reconnect_backoff_max: 5_000_000_000,
            multi_key_strict: false,
        }
    }
}

/// First fault of the section.
pub open spec fn network_fault(c: NetworkConfig) -> Option<Fault> {
    if c.bind_port == 0 {
        Some(Fault::Config("network.bind_port must be non-zero"@))
    } else {
        None
    }
}

impl NetworkConfig {
    /// Checks the section.
    pub fn validate(&self) -> (r: Result<(), Error>)
        ensures
            reports(r, network_fault(*self)),
    {
        if self.bind_port == 0 {
            return fail("network.bind_port must be non-zero");
        }
        Ok(())
    }
}

// ---------------------------------------------------------------------------
// [auth]
// ---------------------------------------------------------------------------

/// Passwords.
#[derive(Debug)]
pub struct AuthConfig {
    /// Password of clients; empty for none.
    pub password: String,
    /// Secret that the nodes of a cluster share; empty for none.
    pub cluster_secret: String,
}

impl Clone for AuthConfig {
    fn clone(&self) -> (r: Self)
        ensures
            same_authconfig(r, *self),
    {
        AuthConfig {
            password: self.password.clone(),
            cluster_secret: self.cluster_secret.clone(),
        }
    }
}

/// Two sections hold the same values.
pub open spec fn same_authconfig(a: AuthConfig, b: AuthConfig) -> bool {
    &&& a.password@ == b.password@
    &&& a.cluster_secret@ == b.cluster_secret@
}

impl Default for AuthConfig {
    fn default() -> (r: Self)
        ensures
            r.password@ == ""@,
            r.cluster_secret@ == ""@,
    {
        AuthConfig {
            password: "".to_owned(),
            cluster_secret: "".to_owned(),
        }
    }
}

// ---------------------------------------------------------------------------
// [discovery]
// ---------------------------------------------------------------------------

/// How peers are found.
#[derive(Debug)]
pub struct DiscoveryConfig {
    /// Address of the membership protocol.
    pub bind_addr: IpAddr,
    /// Port of the membership protocol.
    pub bind_port: u16,
    /// Addresses of known peers.
    pub peers: Vec<String>,
    /// How often joining is tried.
    pub max_join_attempts: u32,
    /// Pause between two tries.
    pub join_retry_interval: u64,
    /// How long joining may take in all.
    pub bootstrap_timeout: u64,
    /// How long leaving may take.
    pub leave_timeout: u64,
    /// Discovery plugin; known peers only where there is none.
    pub plugin: Option<String>,
    /// Whether addresses that are not ready count.
    pub include_not_ready: bool,
}

impl Clone for DiscoveryConfig {
    fn clone(&self) -> (r: Self)
        ensures
            same_discoveryconfig(r, *self),
    {
        DiscoveryConfig {
            bind_addr: self.bind_addr,
            bind_port: self.bind_port,
            peers: copy_strings(&self.peers),
            max_join_attempts: self.max_join_attempts,
            join_retry_interval: self.join_retry_interval,
            bootstrap_timeout: self.bootstrap_timeout,
            leave_timeout: self.leave_timeout,
            plugin: copy_option(&self.plugin),
            include_not_ready: self.include_not_ready,
        }
    }
}

/// Two sections hold the same values.
pub open spec fn same_discoveryconfig(a: DiscoveryConfig, b: DiscoveryConfig) -> bool {
    &&& a.bind_addr == b.bind_addr
    &&& a.bind_port == b.bind_port
    &&& texts(a.peers@) == texts(b.peers@)
    &&& a.max_join_attempts == b.max_join_attempts
    &&& a.join_retry_interval == b.join_retry_interval
    &&& a.bootstrap_timeout == b.bootstrap_timeout
    &&& a.leave_timeout == b.leave_timeout
    &&& option_text(a.plugin) == option_text(b.plugin)
    &&& a.include_not_ready == b.include_not_ready
}

impl Default for DiscoveryConfig {
    fn default() -> (r: Self)
        ensures
            r.bind_addr == IpAddr::V4(0),
            r.bind_port == 3322,
            r.peers@.len() == 0,
            r.max_join_attempts == 10,
            r.join_retry_interval == 1_000_000_000,
            r.bootstrap_timeout == 10_000_000_000,
            r.leave_timeout == 5_000_000_000,
            r.plugin is None,
            r.include_not_ready == true,
    {
        DiscoveryConfig {
            bind_addr: IpAddr::V4(0),
            bind_port: 3322,
            peers: Vec::new(),
            max_join_attempts: 10,
            join_retry_interval: 1_000_000_000,
            bootstrap_timeout: 10_000_000_000,
            leave_timeout: 5_000_000_000,
            plugin: None,
            include_not_ready: true,
        }
    }
}

/// First fault of the section.
pub open spec fn discovery_fault(c: DiscoveryConfig, mode: Mode) -> Option<Fault> {
    if mode != Mode::EmbeddedSolo && c.bind_port == 0 {
        Some(Fault::Config("discovery.bind_port must be non-zero"@))
    } else {
        None
    }
}

impl DiscoveryConfig {
    /// Checks the section.
    pub fn validate(&self, mode: Mode) -> (r: Result<(), Error>)
        ensures
            reports(r, discovery_fault(*self, mode)),
    {
        if mode.requires_cluster() && self.bind_port == 0 {
            return fail("discovery.bind_port must be non-zero");
        }
        Ok(())
    }
}

// ---------------------------------------------------------------------------
// [swim]
// ---------------------------------------------------------------------------

/// The failure detector.
#[derive(Debug)]
pub struct SwimConfig {
    /// Pause between two probes.
    pub probe_interval: u64,
    /// How long a probe waits for an answer.
    pub probe_timeout: u64,
    /// How many members are asked to probe a member that does not answer.
    pub indirect_probes: u32,
    /// How many probe intervals a suspicion lasts.
    pub suspicion_multiplier: u32,
}

impl Clone for SwimConfig {
    fn clone(&self) -> (r: Self)
        ensures
            same_swimconfig(r, *self),
    {
        SwimConfig {
            probe_interval: self.probe_interval,
            probe_timeout: self.probe_timeout,
            indirect_probes: self.indirect_probes,
            suspicion_multiplier: self.suspicion_multiplier,
        }
    }
}

/// Two sections hold the same values.
pub open spec fn same_swimconfig(a: SwimConfig, b: SwimConfig) -> bool {
    &&& a.probe_interval == b.probe_interval
    &&& a.probe_timeout == b.probe_timeout
    &&& a.indirect_probes == b.indirect_probes
    &&& a.suspicion_multiplier == b.suspicion_multiplier
}

impl Default for SwimConfig {
    fn default() -> (r: Self)
        ensures
            r.probe_interval == 1_000_000_000,
            r.probe_timeout == 500_000_000,
            r.indirect_probes == 3,
            r.suspicion_multiplier == 5,
    {
        SwimConfig {
            probe_interval: 1_000_000_000,
            probe_timeout: 500_000_000,
            indirect_probes: 3,
            suspicion_multiplier: 5,
        }
    }
}

/// First fault of the section.
pub open spec fn swim_fault(c: SwimConfig) -> Option<Fault> {
    if c.probe_timeout >= c.probe_interval {
        Some(Fault::Config("swim.probe_timeout must be < swim.probe_interval"@))
    } else if c.indirect_probes == 0 {
        Some(Fault::Config("swim.indirect_probes must be >= 1 (set to 0 disables indirect probing)"@))
    } else {
        None
    }
}

impl SwimConfig {
    /// Checks the section.
    pub fn validate(&self) -> (r: Result<(), Error>)
        ensures
            reports(r, swim_fault(*self)),
    {
        if self.probe_timeout >= self.probe_interval {
            return fail("swim.probe_timeout must be < swim.probe_interval");
        }
        if self.indirect_probes == 0 {
            return fail("swim.indirect_probes must be >= 1 (set to 0 disables indirect probing)");
        }
        Ok(())
    }
}

// ---------------------------------------------------------------------------
// [storage]
// ---------------------------------------------------------------------------

/// The storage engine.
#[derive(Debug)]
pub struct StorageConfig {
    /// Name of the engine.
    pub engine: String,
    /// Size of a table.
    pub table_size: ByteSize,
    /// Part of a table that may be garbage, as the bits of a double from 0 to 1.
    pub max_garbage_ratio: u64,
    /// Pause between two compactions.
    pub trigger_compaction_interval: u64,
}

impl Clone for StorageConfig {
    fn clone(&self) -> (r: Self)
        ensures
            same_storageconfig(r, *self),
    {
        StorageConfig {
            engine: self.engine.clone(),
            table_size: self.table_size,
            max_garbage_ratio: self.max_garbage_ratio,
            trigger_compaction_interval: self.trigger_compaction_interval,
        }
    }
}

/// Two sections hold the same values.
pub open spec fn same_storageconfig(a: StorageConfig, b: StorageConfig) -> bool {
    &&& a.engine@ == b.engine@
    &&& a.table_size == b.table_size
    &&& a.max_garbage_ratio == b.max_garbage_ratio
    &&& a.trigger_compaction_interval == b.trigger_compaction_interval
}

impl Default for StorageConfig {
    fn default() -> (r: Self)
        ensures
            r.engine@ == "ramblock"@,
            r.table_size == ByteSize(1048576),
            r.max_garbage_ratio == GARBAGE_RATIO_BITS,
            r.trigger_compaction_interval == 600_000_000_000,
    {
        StorageConfig {
            engine: "ramblock".to_owned(),
            table_size: ByteSize(1048576),
            max_garbage_ratio: GARBAGE_RATIO_BITS,
            trigger_compaction_interval: 600_000_000_000,
        }
    }
}

/// First fault of the section.
pub open spec fn storage_fault(c: StorageConfig) -> Option<Fault> {
    if c.engine@.len() == 0 {
        Some(Fault::Config("storage.engine must be non-empty"@))
    } else if c.table_size.0 == 0 {
        Some(Fault::Config("storage.table_size must be > 0"@))
    } else if !within_unit(c.max_garbage_ratio) {
        Some(Fault::Config("storage.max_garbage_ratio must be in [0.0, 1.0]"@))
    } else {
        None
    }
}

impl StorageConfig {
    /// Checks the section.
    pub fn validate(&self) -> (r: Result<(), Error>)
        ensures
            reports(r, storage_fault(*self)),
    {
        if self.engine.as_str().unicode_len() == 0 {
            return fail("storage.engine must be non-empty");
        }
        if self.table_size.0 == 0 {
            return fail("storage.table_size must be > 0");
        }
        if self.max_garbage_ratio > ONE_BITS && self.max_garbage_ratio != SIGN_BIT {
            return fail("storage.max_garbage_ratio must be in [0.0, 1.0]");
        }
        Ok(())
    }
}

// ---------------------------------------------------------------------------
// [eviction]
// ---------------------------------------------------------------------------

/// Eviction of entries, unless a map says otherwise.
#[derive(Debug)]
pub struct EvictionConfig {
    /// Number of workers.
    pub num_workers: u32,
    /// Which entries make room for new ones.
    pub policy: EvictionPolicy,
    /// How many entries are compared to find one that was not used for long.
    pub lru_samples: u32,
}

impl Clone for EvictionConfig {
    fn clone(&self) -> (r: Self)
        ensures
            same_evictionconfig(r, *self),
    {
        EvictionConfig {
            num_workers: self.num_workers,
            policy: self.policy,
            lru_samples: self.lru_samples,
        }
    }
}

/// Two sections hold the same values.
pub open spec fn same_evictionconfig(a: EvictionConfig, b: EvictionConfig) -> bool {
    &&& a.num_workers == b.num_workers
    &&& a.policy == b.policy
    &&& a.lru_samples == b.lru_samples
}

impl Default for EvictionConfig {
    fn default() -> (r: Self)
        ensures
            r.num_workers == 1,
            r.policy == EvictionPolicy::NoEviction,
            r.lru_samples == 5,
    {
        EvictionConfig {
            num_workers: 1,
            policy: EvictionPolicy::NoEviction,
            lru_samples: 5,
        }
    }
}

/// First fault of the section.
pub open spec fn eviction_fault(c: EvictionConfig) -> Option<Fault> {
    if c.num_workers == 0 {
        Some(Fault::Config("eviction.num_workers must be >= 1"@))
    } else if c.policy == EvictionPolicy::Lru && c.lru_samples == 0 {
        Some(Fault::Config("eviction.lru_samples must be >= 1 when policy = lru"@))
    } else {
        None
    }
}

impl EvictionConfig {
    /// Checks the section.
    pub fn validate(&self) -> (r: Result<(), Error>)
        ensures
            reports(r, eviction_fault(*self)),
    {
        if self.num_workers == 0 {
            return fail("eviction.num_workers must be >= 1");
        }
        if self.policy == EvictionPolicy::Lru && self.lru_samples == 0 {
            return fail("eviction.lru_samples must be >= 1 when policy = lru");
        }
        Ok(())
    }
}

// ---------------------------------------------------------------------------
// [balancer]
// ---------------------------------------------------------------------------

/// Moving data to its owners.
#[derive(Debug)]
pub struct BalancerConfig {
    /// Pause between two runs.
    pub trigger_interval: u64,
}

impl Clone for BalancerConfig {
    fn clone(&self) -> (r: Self)
        ensures
            same_balancerconfig(r, *self),
    {
        BalancerConfig {
            trigger_interval: self.trigger_interval,
        }
    }
}

/// Two sections hold the same values.
pub open spec fn same_balancerconfig(a: BalancerConfig, b: BalancerConfig) -> bool {
    &&& a.trigger_interval == b.trigger_interval
}

impl Default for BalancerConfig {
    fn default() -> (r: Self)
        ensures
            r.trigger_interval == 15_000_000_000,
    {
        BalancerConfig {
            trigger_interval: 15_000_000_000,
        }
    }
}

/// First fault of the section.
pub open spec fn balancer_fault(c: BalancerConfig) -> Option<Fault> {
    if c.trigger_interval == 0 {
        Some(Fault::Config("balancer.trigger_interval must be > 0"@))
    } else {
        None
    }
}

impl BalancerConfig {
    /// Checks the section.
    pub fn validate(&self) -> (r: Result<(), Error>)
        ensures
            reports(r, balancer_fault(*self)),
    {
        if self.trigger_interval == 0 {
            return fail("balancer.trigger_interval must be > 0");
        }
        Ok(())
    }
}

// ---------------------------------------------------------------------------
// [routing]
// ---------------------------------------------------------------------------

/// Spreading the routing table.
#[derive(Debug)]
pub struct RoutingConfig {
    /// Pause between two pushes.
    pub push_interval: u64,
    /// Pause between two searches for empty fragments.
    pub check_empty_fragments_interval: u64,
}

impl Clone for RoutingConfig {
    fn clone(&self) -> (r: Self)
        ensures
            same_routingconfig(r, *self),
    {
        RoutingConfig {
            push_interval: self.push_interval,
            check_empty_fragments_interval: self.check_empty_fragments_interval,
        }
    }
}

/// Two sections hold the same values.
pub open spec fn same_routingconfig(a: RoutingConfig, b: RoutingConfig) -> bool {
    &&& a.push_interval == b.push_interval
    &&& a.check_empty_fragments_interval == b.check_empty_fragments_interval
}

impl Default for RoutingConfig {
    fn default() -> (r: Self)
        ensures
            r.push_interval == 60_000_000_000,
            r.check_empty_fragments_interval == 60_000_000_000,
    {
        RoutingConfig {
            push_interval: 60_000_000_000,
            check_empty_fragments_interval: 60_000_000_000,
        }
    }
}

/// First fault of the section.
pub open spec fn routing_fault(c: RoutingConfig) -> Option<Fault> {
    if c.push_interval == 0 {
        Some(Fault::Config("routing.push_interval must be > 0"@))
    } else {
        None
    }
}

impl RoutingConfig {
    /// Checks the section.
    pub fn validate(&self) -> (r: Result<(), Error>)
        ensures
            reports(r, routing_fault(*self)),
    {
        if self.push_interval == 0 {
            return fail("routing.push_interval must be > 0");
        }
        Ok(())
    }
}

// ---------------------------------------------------------------------------
// [events]
// ---------------------------------------------------------------------------

/// The channel of cluster events.
#[derive(Debug)]
pub struct EventsConfig {
    /// Whether events are published.
    pub enable_cluster_events_channel: bool,
}

impl Clone for EventsConfig {
    fn clone(&self) -> (r: Self)
        ensures
            same_eventsconfig(r, *self),
    {
        EventsConfig {
            enable_cluster_events_channel: self.enable_cluster_events_channel,
        }
    }
}

/// Two sections hold the same values.
pub open spec fn same_eventsconfig(a: EventsConfig, b: EventsConfig) -> bool {
    &&& a.enable_cluster_events_channel == b.enable_cluster_events_channel
}

impl Default for EventsConfig {
    fn default() -> (r: Self)
        ensures
            r.enable_cluster_events_channel == false,
    {
        EventsConfig {
            enable_cluster_events_channel: false,
        }
    }
}

// ---------------------------------------------------------------------------
// [hash]
// ---------------------------------------------------------------------------

/// The hash function of the ring.
#[derive(Debug)]
pub struct HashConfig {
    /// Name of the function.
    pub function: String,
}

impl Clone for HashConfig {
    fn clone(&self) -> (r: Self)
        ensures
            same_hashconfig(r, *self),
    {
        HashConfig {
            function: self.function.clone(),
        }
    }
}

/// Two sections hold the same values.
pub open spec fn same_hashconfig(a: HashConfig, b: HashConfig) -> bool {
    &&& a.function@ == b.function@
}

impl Default for HashConfig {
    fn default() -> (r: Self)
        ensures
            r.function@ == "xxhash"@,
    {
        HashConfig {
            function: "xxhash".to_owned(),
        }
    }
}

/// First fault of the section.
pub open spec fn hash_fault(c: HashConfig) -> Option<Fault> {
    if c.function@.len() == 0 {
        Some(Fault::Config("hash.function must be non-empty"@))
    } else {
        None
    }
}

impl HashConfig {
    /// Checks the section.
    pub fn validate(&self) -> (r: Result<(), Error>)
        ensures
            reports(r, hash_fault(*self)),
    {
        if self.function.as_str().unicode_len() == 0 {
            return fail("hash.function must be non-empty");
        }
        Ok(())
    }
}

// ---------------------------------------------------------------------------
// [[dmaps]]
// ---------------------------------------------------------------------------

/// Settings of one map. What is `None` is inherited.
#[derive(Debug)]
pub struct DMapConfig {
    /// Name of the map.
    pub name: String,
    /// After how long an unused entry goes; 0 for never.
    pub max_idle_duration: Option<u64>,
    /// How long an entry lives; 0 for ever.
    pub ttl: Option<u64>,
    /// How many keys the map may hold.
    pub max_keys: Option<u64>,
    /// How many bytes the map may hold.
    pub max_inuse: Option<ByteSize>,
    /// How many entries are compared to find one that was not used for long.
    pub lru_samples: Option<u32>,
    /// Which entries make room for new ones.
    pub eviction_policy: Option<EvictionPolicy>,
}

/// Two settings of a map hold the same values.
pub open spec fn same_dmapconfig(a: DMapConfig, b: DMapConfig) -> bool {
    &&& a.name@ == b.name@
    &&& a.max_idle_duration == b.max_idle_duration
    &&& a.ttl == b.ttl
    &&& a.max_keys == b.max_keys
    &&& a.max_inuse == b.max_inuse
    &&& a.lru_samples == b.lru_samples
    &&& a.eviction_policy == b.eviction_policy
}

impl Clone for DMapConfig {
    fn clone(&self) -> (r: Self)
        ensures
            same_dmapconfig(r, *self),
    {
        DMapConfig {
            name: self.name.clone(),
            max_idle_duration: self.max_idle_duration,
            ttl: self.ttl,
            max_keys: self.max_keys,
            max_inuse: self.max_inuse,
            lru_samples: self.lru_samples,
            eviction_policy: self.eviction_policy,
        }
    }
}

impl Default for DMapConfig {
    fn default() -> (r: Self)
        ensures
            r.name@ == ""@,
            r.max_idle_duration is None,
            r.ttl is None,
            r.max_keys is None,
            r.max_inuse is None,
            r.lru_samples is None,
            r.eviction_policy is None,
    {
        DMapConfig {
            name: "".to_owned(),
            max_idle_duration: None,
            ttl: None,
            max_keys: None,
            max_inuse: None,
            lru_samples: None,
            eviction_policy: None,
        }
    }
}

/// First fault of the settings of a map.
pub open spec fn dmap_fault(c: DMapConfig) -> Option<Fault> {
    if c.name@.len() == 0 {
        Some(Fault::Config("dmap.name must be non-empty"@))
    } else if c.eviction_policy == Some(EvictionPolicy::Lru) && c.lru_samples == Some(0u32) {
        Some(
            Fault::Config(
                "dmap["@ + c.name@ + "].lru_samples must be >= 1 when eviction_policy = lru"@,
            ),
        )
    } else {
        None
    }
}

impl DMapConfig {
    /// Checks the settings.
    pub fn validate(&self) -> (r: Result<(), Error>)
        ensures
            reports(r, dmap_fault(*self)),
    {
        if self.name.as_str().unicode_len() == 0 {
            return fail("dmap.name must be non-empty");
        }
        let lru: bool = match self.eviction_policy {
            Some(p) => p == EvictionPolicy::Lru,
            None => false,
        };
        let none: bool = match self.lru_samples {
            Some(n) => n == 0,
            None => false,
        };
        if lru && none {
            let mut m: String = "dmap[".to_owned();
            m.append(self.name.as_str());
            m.append("].lru_samples must be >= 1 when eviction_policy = lru");
            return Err(Error::Config(m));
        }
        Ok(())
    }
}

} // verus!
