//! The whole configuration of a node.

use vstd::prelude::*;
use vstd::string::*;
use vstd::utf8::*;

use crate::config::sections::{
    balancer_fault, core_fault, discovery_fault, dmap_fault, eviction_fault, hash_fault,
    network_fault, routing_fault, storage_fault, swim_fault, AuthConfig, BalancerConfig,
    CoreConfig, DMapConfig, DiscoveryConfig, EventsConfig, EvictionConfig, HashConfig,
    NetworkConfig, RoutingConfig, StorageConfig, SwimConfig,
};
use crate::error::{reports, Error, Fault};
use crate::mode::Mode;
use crate::net::number_text;
use crate::profile::Profile;
use crate::text::{bytes_less, lex_less, push_decimal};

verus! {

/// Configuration of a node.
#[derive(Debug)]
pub struct Config {
    /// How the runtime is wired up.
    pub mode: Mode,
    /// Which guards apply.
    pub profile: Profile,
    pub core: CoreConfig,
    pub network: NetworkConfig,
    pub auth: AuthConfig,
    pub discovery: DiscoveryConfig,
    pub swim: SwimConfig,
    pub storage: StorageConfig,
    pub eviction: EvictionConfig,
    pub balancer: BalancerConfig,
    pub routing: RoutingConfig,
    pub events: EventsConfig,
    pub hash: HashConfig,
    /// Settings of single maps, by name.
    pub dmaps: Vec<DMapConfig>,
}

impl Default for Config {
    fn default() -> (r: Self)
        ensures
            r.mode == Mode::EmbeddedSolo,
            r.profile == Profile::Development,
            call_ensures(CoreConfig::default, (), r.core),
            call_ensures(NetworkConfig::default, (), r.network),
            call_ensures(AuthConfig::default, (), r.auth),
            call_ensures(DiscoveryConfig::default, (), r.discovery),
            call_ensures(SwimConfig::default, (), r.swim),
            call_ensures(StorageConfig::default, (), r.storage),
            call_ensures(EvictionConfig::default, (), r.eviction),
            call_ensures(BalancerConfig::default, (), r.balancer),
            call_ensures(RoutingConfig::default, (), r.routing),
            call_ensures(EventsConfig::default, (), r.events),
            call_ensures(HashConfig::default, (), r.hash),
            r.dmaps@.len() == 0,
            config_fault(r) is None,
    {
        let r: Config = Config {
            mode: Mode::default(),
            profile: Profile::default(),
            core: CoreConfig::default(),
            network: NetworkConfig::default(),
            auth: AuthConfig::default(),
            discovery: DiscoveryConfig::default(),
            swim: SwimConfig::default(),
            storage: StorageConfig::default(),
            eviction: EvictionConfig::default(),
            balancer: BalancerConfig::default(),
            routing: RoutingConfig::default(),
            events: EventsConfig::default(),
            hash: HashConfig::default(),
            dmaps: Vec::new(),
        };
        proof {
            reveal_strlit("ramblock");
            reveal_strlit("xxhash");
        }
        r
    }
}

/// The first of two faults.
pub open spec fn first(a: Option<Fault>, b: Option<Fault>) -> Option<Fault> {
    if a is Some {
        a
    } else {
        b
    }
}

/// First fault of the settings of the maps from the `i`-th on.
pub open spec fn dmaps_fault(dmaps: Seq<DMapConfig>, i: int) -> Option<Fault>
    decreases dmaps.len() - i,
{
    if i >= dmaps.len() {
        None
    } else {
        first(dmap_fault(dmaps[i]), dmaps_fault(dmaps, i + 1))
    }
}

/// First fault between sections: a quorum above the number of replicas.
pub open spec fn cross_fault(c: Config) -> Option<Fault> {
    if c.core.write_quorum > c.core.replica_count {
        Some(
            Fault::Config(
                "write_quorum ("@ + number_text(c.core.write_quorum as int)
                    + ") cannot exceed replica_count ("@ + number_text(c.core.replica_count as int)
                    + ")"@,
            ),
        )
    } else if c.core.read_quorum > c.core.replica_count {
        Some(
            Fault::Config(
                "read_quorum ("@ + number_text(c.core.read_quorum as int)
                    + ") cannot exceed replica_count ("@ + number_text(c.core.replica_count as int)
                    + ")"@,
            ),
        )
    } else {
        None
    }
}

/// First setting that does not go with the mode.
pub open spec fn mode_fault(c: Config) -> Option<Fault> {
    if c.mode != Mode::EmbeddedSolo {
        None
    } else if c.discovery.peers@.len() > 0 {
        Some(Fault::IrrelevantSection { section: "discovery.peers"@, mode: c.mode })
    } else if c.core.replica_count > 1 {
        Some(
            Fault::Config(
                "mode = embedded_solo cannot have replica_count > 1 (got "@ + number_text(
                    c.core.replica_count as int,
                ) + ")"@,
            ),
        )
    } else if c.core.member_count_quorum > 1 {
        Some(
            Fault::Config(
                "mode = embedded_solo cannot have member_count_quorum > 1 (got "@ + number_text(
                    c.core.member_count_quorum as int,
                ) + ")"@,
            ),
        )
    } else {
        None
    }
}

/// First guard of the production profile that is not met: at least one backup,
/// and a majority of the replicas as the quorum.
pub open spec fn production_fault(c: Config) -> Option<Fault> {
    if c.profile != Profile::Production {
        None
    } else if c.core.replica_count < 2 {
        Some(Fault::ProductionReplicaCount { got: c.core.replica_count })
    } else if c.core.member_count_quorum < c.core.replica_count / 2 + 1 {
        Some(Fault::ProductionQuorum { got: c.core.member_count_quorum })
    } else {
        None
    }
}

/// First fault of a configuration: of a section, between sections, with the
/// mode, then with the profile.
pub open spec fn config_fault(c: Config) -> Option<Fault> {
    first(
        core_fault(c.core),
        first(
            network_fault(c.network),
            first(
                discovery_fault(c.discovery, c.mode),
                first(
                    swim_fault(c.swim),
                    first(
                        storage_fault(c.storage),
                        first(
                            eviction_fault(c.eviction),
                            first(
                                balancer_fault(c.balancer),
                                first(
                                    routing_fault(c.routing),
                                    first(
                                        hash_fault(c.hash),
                                        first(
                                            dmaps_fault(c.dmaps@, 0),
                                            first(
                                                cross_fault(c),
                                                first(mode_fault(c), production_fault(c)),
                                            ),
                                        ),
                                    ),
                                ),
                            ),
                        ),
                    ),
                ),
            ),
        ),
    )
}

fn with_number(front: &str, n: u32, back: &str) -> (r: String)
    ensures
        r@ == front@ + number_text(n as int) + back@,
{
    let mut m: String = front.to_owned();
    push_decimal(&mut m, n as u64);
    m.append(back);
    m
}

impl Config {
    /// Checks the configuration and reports the first fault.
    pub fn validate(&self) -> (r: Result<(), Error>)
        ensures
            reports(r, config_fault(*self)),
    {
        match self.core.validate() {
            Err(e) => return Err(e),
            Ok(()) => {},
        }
        match self.network.validate() {
            Err(e) => return Err(e),
            Ok(()) => {},
        }
        match self.discovery.validate(self.mode) {
            Err(e) => return Err(e),
            Ok(()) => {},
        }
        match self.swim.validate() {
            Err(e) => return Err(e),
            Ok(()) => {},
        }
        match self.storage.validate() {
            Err(e) => return Err(e),
            Ok(()) => {},
        }
        match self.eviction.validate() {
            Err(e) => return Err(e),
            Ok(()) => {},
        }
        match self.balancer.validate() {
            Err(e) => return Err(e),
            Ok(()) => {},
        }
        match self.routing.validate() {
            Err(e) => return Err(e),
            Ok(()) => {},
        }
        match self.hash.validate() {
            Err(e) => return Err(e),
            Ok(()) => {},
        }
        match self.validate_dmaps() {
            Err(e) => return Err(e),
            Ok(()) => {},
        }
        match self.validate_cross_section() {
            Err(e) => return Err(e),
            Ok(()) => {},
        }
        match self.validate_mode_consistency() {
            Err(e) => return Err(e),
            Ok(()) => {},
        }
        self.validate_production_guards()
    }

    fn validate_dmaps(&self) -> (r: Result<(), Error>)
        ensures
            reports(r, dmaps_fault(self.dmaps@, 0)),
    {
        let mut i: usize = 0;
        while i < self.dmaps.len()
            invariant
                i <= self.dmaps@.len(),
                dmaps_fault(self.dmaps@, 0) == dmaps_fault(self.dmaps@, i as int),
            decreases self.dmaps@.len() - i,
        {
            match self.dmaps[i].validate() {
                Err(e) => return Err(e),
                Ok(()) => {},
            }
            i = i + 1;
        }
        Ok(())
    }

    fn validate_cross_section(&self) -> (r: Result<(), Error>)
        ensures
            reports(r, cross_fault(*self)),
    {
        if self.core.write_quorum > self.core.replica_count {
            let mut m: String = with_number(
                "write_quorum (",
                self.core.write_quorum,
                ") cannot exceed replica_count (",
            );
            push_decimal(&mut m, self.core.replica_count as u64);
            m.append(")");
            return Err(Error::Config(m));
        }
        if self.core.read_quorum > self.core.replica_count {
            let mut m: String = with_number(
                "read_quorum (",
                self.core.read_quorum,
                ") cannot exceed replica_count (",
            );
            push_decimal(&mut m, self.core.replica_count as u64);
            m.append(")");
            return Err(Error::Config(m));
        }
        Ok(())
    }

    fn validate_mode_consistency(&self) -> (r: Result<(), Error>)
        ensures
            reports(r, mode_fault(*self)),
    {
        if self.mode == Mode::EmbeddedSolo {
            if self.discovery.peers.len() > 0 {
                return Err(
                    Error::IrrelevantSection { section: "discovery.peers", mode: self.mode },
                );
            }
            if self.core.replica_count > 1 {
                return Err(
                    Error::Config(
                        with_number(
                            "mode = embedded_solo cannot have replica_count > 1 (got ",
                            self.core.replica_count,
                            ")",
                        ),
                    ),
                );
            }
            if self.core.member_count_quorum > 1 {
                return Err(
                    Error::Config(
                        with_number(
                            "mode = embedded_solo cannot have member_count_quorum > 1 (got ",
                            self.core.member_count_quorum,
                            ")",
                        ),
                    ),
                );
            }
        }
        Ok(())
    }

    fn validate_production_guards(&self) -> (r: Result<(), Error>)
        ensures
            reports(r, production_fault(*self)),
    {
        if !self.profile.enforces_production_guards() {
            return Ok(());
        }
        if self.core.replica_count < 2 {
            return Err(Error::ProductionReplicaCount { got: self.core.replica_count });
        }
        if self.core.member_count_quorum < self.core.replica_count / 2 + 1 {
            return Err(Error::ProductionQuorum { got: self.core.member_count_quorum });
        }
        Ok(())
    }

    /// The settings of the map `name`, where there are any.
    pub fn dmap(&self, name: &str) -> (r: Option<&DMapConfig>)
        ensures
            match r {
                Some(d) => exists|i: int|
                    0 <= i < self.dmaps@.len() && *d == #[trigger] self.dmaps@[i] && d.name@
                        == name@,
                None => forall|i: int|
                    0 <= i < self.dmaps@.len() ==> (#[trigger] self.dmaps@[i]).name@ != name@,
            },
    {
        let mut i: usize = 0;
        while i < self.dmaps.len()
            invariant
                i <= self.dmaps@.len(),
                forall|j: int| 0 <= j < i ==> (#[trigger] self.dmaps@[j]).name@ != name@,
            decreases self.dmaps@.len() - i,
        {
            if crate::text::str_equal(self.dmaps[i].name.as_str(), name) {
                return Some(&self.dmaps[i]);
            }
            i = i + 1;
        }
        None
    }
}

/// In a valid production configuration every partition has a backup, and the
/// quorum of members is a majority of the replicas.
pub proof fn law_production_is_guarded(c: Config)
    requires
        config_fault(c) is None,
        c.profile == Profile::Production,
    ensures
        c.core.replica_count >= 2,
        2 * c.core.member_count_quorum > c.core.replica_count,
{
}

/// In a valid configuration the quorums can be met by the replicas.
pub proof fn law_quorums_can_be_met(c: Config)
    requires
        config_fault(c) is None,
    ensures
        1 <= c.core.write_quorum <= c.core.replica_count,
        1 <= c.core.read_quorum <= c.core.replica_count,
        c.core.partition_count > 0,
        c.core.virtual_nodes_per_member > 0,
{
}

// ---------------------------------------------------------------------------
// Settings of maps
// ---------------------------------------------------------------------------

/// The `i`-th entry has the name of an earlier one.
pub open spec fn repeats(entries: Seq<DMapConfig>, i: int) -> bool {
    exists|j: int| 0 <= j < i && (#[trigger] entries[j]).name@ == entries[i].name@
}

/// What is wrong with a list of entries, from the `i`-th on: an entry without a
/// name, or with the name of an earlier one.
pub open spec fn entries_fault(entries: Seq<DMapConfig>, i: int) -> Option<Seq<char>>
    decreases entries.len() - i,
{
    if i >= entries.len() {
        None
    } else if entries[i].name@.len() == 0 {
        Some("each [[dmaps]] entry needs a name"@)
    } else if repeats(entries, i) {
        Some("duplicate dmap name: "@ + entries[i].name@)
    } else {
        entries_fault(entries, i + 1)
    }
}

/// Takes a list of entries as the settings of maps. Every entry needs a name of
/// its own.
pub fn collect_dmaps(entries: Vec<DMapConfig>) -> (r: Result<Vec<DMapConfig>, String>)
    ensures
        match entries_fault(entries@, 0) {
            None => r is Ok && r->Ok_0@ == entries@,
            Some(m) => r is Err && r->Err_0@ == m,
        },
{
    let mut i: usize = 0;
    while i < entries.len()
        invariant
            i <= entries@.len(),
            entries_fault(entries@, 0) == entries_fault(entries@, i as int),
        decreases entries@.len() - i,
    {
        if entries[i].name.as_str().unicode_len() == 0 {
            return Err("each [[dmaps]] entry needs a name".to_owned());
        }
        let mut j: usize = 0;
        while j < i
            invariant
                j <= i < entries@.len(),
                entries_fault(entries@, 0) == entries_fault(entries@, i as int),
                entries@[i as int].name@.len() > 0,
                forall|k: int|
                    0 <= k < j ==> (#[trigger] entries@[k]).name@ != entries@[i as int].name@,
            decreases i - j,
        {
            if crate::text::str_equal(entries[j].name.as_str(), entries[i].name.as_str()) {
                assert(repeats(entries@, i as int));
                let mut m: String = "duplicate dmap name: ".to_owned();
                m.append(entries[i].name.as_str());
                return Err(m);
            }
            j = j + 1;
        }
        i = i + 1;
    }
    Ok(entries)
}

/// Order of names: that of their bytes.
pub open spec fn name_less(a: Seq<char>, b: Seq<char>) -> bool {
    lex_less(encode_utf8(a), encode_utf8(b))
}

/// Where the entries stand once they are sorted by name.
pub fn name_order(entries: &Vec<DMapConfig>) -> (r: Vec<usize>)
    ensures
        r@.len() == entries@.len(),
        r@.no_duplicates(),
        forall|i: int| 0 <= i < r@.len() ==> (#[trigger] r@[i]) < entries@.len(),
        forall|i: int, j: int|
            0 <= i < j < r@.len() ==> !name_less(
                entries@[#[trigger] r@[j] as int].name@,
                entries@[#[trigger] r@[i] as int].name@,
            ),
{
    let mut out: Vec<usize> = Vec::new();
    let mut i: usize = 0;
    while i < entries.len()
        invariant
            i <= entries@.len(),
            out@.len() == i,
            out@.no_duplicates(),
            forall|k: int| 0 <= k < i ==> (#[trigger] out@[k]) < i,
            forall|a: int, b: int|
                0 <= a < b < i ==> !name_less(
                    entries@[#[trigger] out@[b] as int].name@,
                    entries@[#[trigger] out@[a] as int].name@,
                ),
        decreases entries@.len() - i,
    {
        let ghost olds = out@;
        let ghost x = entries@[i as int].name@;
        let mut pos: usize = 0;
        while pos < out.len() && !bytes_less(
            entries[i].name.as_str().as_bytes(),
            entries[out[pos]].name.as_str().as_bytes(),
        )
            invariant
                i < entries@.len(),
                pos <= out@.len(),
                out@ == olds,
                x == entries@[i as int].name@,
                forall|k: int| 0 <= k < olds.len() ==> (#[trigger] olds[k]) < i,
                forall|k: int|
                    0 <= k < pos ==> !name_less(x, entries@[#[trigger] olds[k] as int].name@),
            decreases out@.len() - pos,
        {
            pos = pos + 1;
        }
        out.insert(pos, i);
        proof {
            assert(out@ =~= olds.insert(pos as int, i));
            assert forall|a: int, b: int| 0 <= a < b < out@.len() implies !name_less(
                entries@[#[trigger] out@[b] as int].name@,
                entries@[#[trigger] out@[a] as int].name@,
            ) by {
                let oa: int = if a < pos {
                    a
                } else {
                    a - 1
                };
                let ob: int = if b < pos {
                    b
                } else {
                    b - 1
                };
                if a != pos {
                    assert(out@[a] == olds[oa]);
                }
                if b != pos {
                    assert(out@[b] == olds[ob]);
                }
                if a == pos {
                    let p = entries@[olds[pos as int] as int].name@;
                    let y = entries@[olds[ob] as int].name@;
                    assert(name_less(x, p));
                    if ob != pos {
                        assert(!name_less(y, p));
                    }
                    if name_less(y, x) {
                        crate::text::lemma_lex_transitive(
                            encode_utf8(y),
                            encode_utf8(x),
                            encode_utf8(p),
                        );
                        if ob == pos {
                            crate::text::lemma_lex_total(encode_utf8(y), encode_utf8(p));
                        }
                    }
                }
            }
            assert(out@.no_duplicates());
        }
        i = i + 1;
    }
    out
}

} // verus!
