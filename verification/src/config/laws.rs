//! What holds of configurations: which are accepted, how values from outside
//! overlay them, and how quantities and keys are read.

use vstd::arithmetic::power::{lemma_pow1, lemma_pow_adds, pow};
use vstd::prelude::*;
use vstd::string::*;
use vstd::utf8::encode_utf8;

use crate::config::env::{
    config_merged, hits, last_hit, path_of, prefix, relevant, scalar, section_lines, section_of,
    separator, top_line, ConfigOverlay, EnvView, PathView,
};
use crate::config::node::{config_fault, dmaps_fault, entries_fault, repeats, Config};
use crate::config::sections::{DMapConfig, EvictionPolicy};
use crate::config::size::{unit_bytes, unit_start};
use crate::mode::Mode;
use crate::profile::Profile;
use crate::text::{
    ascii_chars, letter, lower_text, signed_decimal, signed_numeral, starts_with, trimmed,
};

verus! {

/// A configuration is accepted if and only if every section is usable by itself,
/// the quorums can be met by the replicas, a node of its own has neither peers nor
/// replicas, and the production profile has a backup and a majority.
pub proof fn law_accepted_configurations(c: Config)
    ensures
        config_fault(c) is None <==> {
            &&& c.core.partition_count > 0
            &&& c.core.replica_count >= 1
            &&& 1 <= c.core.write_quorum <= c.core.replica_count
            &&& 1 <= c.core.read_quorum <= c.core.replica_count
            &&& c.core.member_count_quorum >= 1
            &&& 0x3ff0_0000_0000_0000 <= c.core.load_factor < 0x7ff0_0000_0000_0000
            &&& c.core.virtual_nodes_per_member >= 1
            &&& c.network.bind_port != 0
            &&& c.mode != Mode::EmbeddedSolo ==> c.discovery.bind_port != 0
            &&& c.swim.probe_timeout < c.swim.probe_interval
            &&& c.swim.indirect_probes >= 1
            &&& c.storage.engine@.len() > 0
            &&& c.storage.table_size.0 > 0
            &&& c.storage.max_garbage_ratio <= 0x3ff0_0000_0000_0000 || c.storage.max_garbage_ratio
                == 0x8000_0000_0000_0000
            &&& c.eviction.num_workers >= 1
            &&& c.eviction.policy == EvictionPolicy::Lru ==> c.eviction.lru_samples >= 1
            &&& c.balancer.trigger_interval > 0
            &&& c.routing.push_interval > 0
            &&& c.hash.function@.len() > 0
            &&& forall|i: int| 0 <= i < c.dmaps@.len() ==> usable(#[trigger] c.dmaps@[i])
            &&& c.mode == Mode::EmbeddedSolo ==> c.discovery.peers@.len() == 0
                && c.core.replica_count == 1 && c.core.member_count_quorum == 1
            &&& c.profile == Profile::Production ==> c.core.replica_count >= 2 && 2
                * c.core.member_count_quorum > c.core.replica_count
        },
{
    lemma_usable_maps(c.dmaps@, 0);
}

/// The settings of a map are usable: it has a name, and where the entries that
/// were not used for long make room, some are compared.
pub open spec fn usable(c: DMapConfig) -> bool {
    &&& c.name@.len() > 0
    &&& c.eviction_policy == Some(EvictionPolicy::Lru) ==> c.lru_samples != Some(0u32)
}

proof fn lemma_usable_maps(s: Seq<DMapConfig>, i: int)
    requires
        0 <= i <= s.len(),
    ensures
        dmaps_fault(s, i) is None <==> forall|k: int| i <= k < s.len() ==> usable(#[trigger] s[k]),
    decreases s.len() - i,
{
    if i < s.len() {
        lemma_usable_maps(s, i + 1);
        if usable(s[i]) && dmaps_fault(s, i + 1) is None {
            assert forall|k: int| i <= k < s.len() implies usable(#[trigger] s[k]) by {
                if k > i {
                    assert(i + 1 <= k);
                }
            }
        }
    }
}

/// A list of maps is accepted if and only if each has a name that no other one
/// has.
pub proof fn law_maps_need_names_of_their_own(s: Seq<DMapConfig>)
    ensures
        entries_fault(s, 0) is None <==> {
            &&& forall|i: int| 0 <= i < s.len() ==> (#[trigger] s[i]).name@.len() > 0
            &&& forall|i: int, j: int|
                0 <= i < j < s.len() ==> (#[trigger] s[i]).name@ != (#[trigger] s[j]).name@
        },
{
    lemma_named_maps(s, 0);
    if entries_fault(s, 0) is None {
        assert forall|i: int, j: int| 0 <= i < j < s.len() implies (#[trigger] s[i]).name@ != (
        #[trigger] s[j]).name@ by {
            assert(!repeats(s, j));
        }
    } else if (forall|i: int| 0 <= i < s.len() ==> (#[trigger] s[i]).name@.len() > 0) && (forall|
        i: int,
        j: int,
    | 0 <= i < j < s.len() ==> (#[trigger] s[i]).name@ != (#[trigger] s[j]).name@) {
        assert forall|i: int| 0 <= i < s.len() implies (#[trigger] s[i]).name@.len() > 0
            && !repeats(s, i) by {
            if repeats(s, i) {
                let j = choose|j: int| 0 <= j < i && (#[trigger] s[j]).name@ == s[i].name@;
                assert(s[j].name@ != s[i].name@);
            }
        }
        assert(false);
    }
}

proof fn lemma_named_maps(s: Seq<DMapConfig>, i: int)
    requires
        0 <= i <= s.len(),
    ensures
        entries_fault(s, i) is None <==> forall|k: int|
            i <= k < s.len() ==> (#[trigger] s[k]).name@.len() > 0 && !repeats(s, k),
    decreases s.len() - i,
{
    if i < s.len() {
        lemma_named_maps(s, i + 1);
        if s[i].name@.len() > 0 && !repeats(s, i) && entries_fault(s, i + 1) is None {
            assert forall|k: int| i <= k < s.len() implies (#[trigger] s[k]).name@.len() > 0
                && !repeats(s, k) by {
                if k > i {
                    assert(i + 1 <= k);
                }
            }
        }
        if entries_fault(s, i) is Some && entries_fault(s, i + 1) is Some {
            let k = choose|k: int|
                i + 1 <= k < s.len() && !((#[trigger] s[k]).name@.len() > 0 && !repeats(s, k));
            assert(i <= k);
        }
    }
}

// ---------------------------------------------------------------------------
// Values from outside
// ---------------------------------------------------------------------------

/// The value that is given, or what was there.
pub open spec fn given_or<T>(given: Option<T>, was: T) -> T {
    match given {
        Some(v) => v,
        None => was,
    }
}

/// Every value that an overlay gives is taken, and every other one stays.
pub proof fn law_given_values_win(o: ConfigOverlay, a: Config, b: Config)
    requires
        config_merged(o, a, b),
    ensures
        b.mode == given_or(o.mode, a.mode),
        b.profile == given_or(o.profile, a.profile),
        b.dmaps == a.dmaps,
        o.core is None ==> b.core == a.core,
        o.core matches Some(v) ==> {
            &&& b.core.partition_count == given_or(v.partition_count, a.core.partition_count)
            &&& b.core.replica_count == given_or(v.replica_count, a.core.replica_count)
            &&& b.core.write_quorum == given_or(v.write_quorum, a.core.write_quorum)
            &&& b.core.read_quorum == given_or(v.read_quorum, a.core.read_quorum)
            &&& b.core.member_count_quorum == given_or(
                v.member_count_quorum,
                a.core.member_count_quorum,
            )
            &&& b.core.replication_mode == given_or(v.replication_mode, a.core.replication_mode)
            &&& b.core.read_repair == given_or(v.read_repair, a.core.read_repair)
            &&& b.core.load_factor == given_or(v.load_factor, a.core.load_factor)
            &&& b.core.virtual_nodes_per_member == a.core.virtual_nodes_per_member
        },
        o.network is None ==> b.network == a.network,
        o.network matches Some(v) ==> {
            &&& b.network.bind_addr == given_or(v.bind_addr, a.network.bind_addr)
            &&& b.network.bind_port == given_or(v.bind_port, a.network.bind_port)
            &&& b.network.keep_alive_period == given_or(
                v.keep_alive_period,
                a.network.keep_alive_period,
            )
            &&& b.network.idle_close == given_or(v.idle_close, a.network.idle_close)
            &&& b.network.internode_pool_size == a.network.internode_pool_size
            &&& b.network.internode_inflight_per_conn == a.network.internode_inflight_per_conn
            &&& b.network.internode_connect_timeout == a.network.internode_connect_timeout
            &&& b.network.internode_request_timeout == a.network.internode_request_timeout
            &&& b.network.internode_reconnect_backoff_min == a.network.internode_reconnect_backoff_min
            &&& b.network.internode_reconnect_backoff_max == a.network.internode_reconnect_backoff_max
            &&& b.network.multi_key_strict == a.network.multi_key_strict
        },
        o.auth is None ==> b.auth == a.auth,
        o.auth matches Some(v) ==> {
            &&& b.auth.password == given_or(v.password, a.auth.password)
            &&& b.auth.cluster_secret == given_or(v.cluster_secret, a.auth.cluster_secret)
        },
        o.discovery is None ==> b.discovery == a.discovery,
        o.discovery matches Some(v) ==> {
            &&& b.discovery.bind_addr == given_or(v.bind_addr, a.discovery.bind_addr)
            &&& b.discovery.bind_port == given_or(v.bind_port, a.discovery.bind_port)
            &&& b.discovery.peers == a.discovery.peers
            &&& b.discovery.max_join_attempts == given_or(
                v.max_join_attempts,
                a.discovery.max_join_attempts,
            )
            &&& b.discovery.join_retry_interval == given_or(
                v.join_retry_interval,
                a.discovery.join_retry_interval,
            )
            &&& b.discovery.bootstrap_timeout == given_or(
                v.bootstrap_timeout,
                a.discovery.bootstrap_timeout,
            )
            &&& b.discovery.leave_timeout == given_or(v.leave_timeout, a.discovery.leave_timeout)
            &&& b.discovery.plugin == (match v.plugin {
                Some(p) => Some(p),
                None => a.discovery.plugin,
            })
            &&& b.discovery.include_not_ready == given_or(
                v.include_not_ready,
                a.discovery.include_not_ready,
            )
        },
        o.swim is None ==> b.swim == a.swim,
        o.swim matches Some(v) ==> {
            &&& b.swim.probe_interval == given_or(v.probe_interval, a.swim.probe_interval)
            &&& b.swim.probe_timeout == given_or(v.probe_timeout, a.swim.probe_timeout)
            &&& b.swim.indirect_probes == given_or(v.indirect_probes, a.swim.indirect_probes)
            &&& b.swim.suspicion_multiplier == given_or(
                v.suspicion_multiplier,
                a.swim.suspicion_multiplier,
            )
        },
        o.storage is None ==> b.storage == a.storage,
        o.storage matches Some(v) ==> {
            &&& b.storage.engine == given_or(v.engine, a.storage.engine)
            &&& b.storage.table_size == given_or(v.table_size, a.storage.table_size)
            &&& b.storage.max_garbage_ratio == given_or(
                v.max_garbage_ratio,
                a.storage.max_garbage_ratio,
            )
            &&& b.storage.trigger_compaction_interval == given_or(
                v.trigger_compaction_interval,
                a.storage.trigger_compaction_interval,
            )
        },
        o.eviction is None ==> b.eviction == a.eviction,
        o.eviction matches Some(v) ==> {
            &&& b.eviction.num_workers == given_or(v.num_workers, a.eviction.num_workers)
            &&& b.eviction.policy == given_or(v.policy, a.eviction.policy)
            &&& b.eviction.lru_samples == given_or(v.lru_samples, a.eviction.lru_samples)
        },
        o.balancer is None ==> b.balancer == a.balancer,
        o.balancer matches Some(v) ==> {
            &&& b.balancer.trigger_interval == given_or(
                v.trigger_interval,
                a.balancer.trigger_interval,
            )
        },
        o.routing is None ==> b.routing == a.routing,
        o.routing matches Some(v) ==> {
            &&& b.routing.push_interval == given_or(v.push_interval, a.routing.push_interval)
            &&& b.routing.check_empty_fragments_interval == given_or(
                v.check_empty_fragments_interval,
                a.routing.check_empty_fragments_interval,
            )
        },
        o.events is None ==> b.events == a.events,
        o.events matches Some(v) ==> {
            &&& b.events.enable_cluster_events_channel == given_or(
                v.enable_cluster_events_channel,
                a.events.enable_cluster_events_channel,
            )
        },
        o.hash is None ==> b.hash == a.hash,
        o.hash matches Some(v) ==> {
            &&& b.hash.function == given_or(v.function, a.hash.function)
        },
{
}

// ---------------------------------------------------------------------------
// Quantities
// ---------------------------------------------------------------------------

/// A unit stands for a power of 1024, in any letter case: no unit, bytes, or one
/// of the letters k, m, g and t, alone or with `b` or `ib` behind it. Nothing else
/// is a unit.
pub proof fn law_units_are_powers(unit: Seq<char>)
    ensures
        ({
            let u = lower_text(unit);
            &&& u == ""@ || u == "b"@ ==> unit_bytes(unit) == Some(1u64)
            &&& u == "k"@ || u == "kb"@ || u == "kib"@ ==> unit_bytes(unit) is Some
                && unit_bytes(unit)->0 == pow(1024, 1)
            &&& u == "m"@ || u == "mb"@ || u == "mib"@ ==> unit_bytes(unit) is Some
                && unit_bytes(unit)->0 == pow(1024, 2)
            &&& u == "g"@ || u == "gb"@ || u == "gib"@ ==> unit_bytes(unit) is Some
                && unit_bytes(unit)->0 == pow(1024, 3)
            &&& u == "t"@ || u == "tb"@ || u == "tib"@ ==> unit_bytes(unit) is Some
                && unit_bytes(unit)->0 == pow(1024, 4)
            &&& unit_bytes(unit) is Some ==> u == ""@ || u == "b"@ || u == "k"@ || u == "kb"@ || u
                == "kib"@ || u == "m"@ || u == "mb"@ || u == "mib"@ || u == "g"@ || u == "gb"@ || u
                == "gib"@ || u == "t"@ || u == "tb"@ || u == "tib"@
        }),
{
    reveal_strlit("");
    reveal_strlit("b");
    reveal_strlit("k");
    reveal_strlit("kb");
    reveal_strlit("kib");
    reveal_strlit("m");
    reveal_strlit("mb");
    reveal_strlit("mib");
    reveal_strlit("g");
    reveal_strlit("gb");
    reveal_strlit("gib");
    reveal_strlit("t");
    reveal_strlit("tb");
    reveal_strlit("tib");
    lemma_pow1(1024);
    lemma_pow_adds(1024, 1, 1);
    let k = pow(1024, 1);
    assert(k * k == 1048576) by (nonlinear_arith)
        requires
            k == 1024,
    ;
    lemma_pow_adds(1024, 2, 1);
    let m = pow(1024, 2);
    assert(m * k == 1073741824) by (nonlinear_arith)
        requires
            k == 1024,
            m == 1048576,
    ;
    lemma_pow_adds(1024, 3, 1);
    let g = pow(1024, 3);
    assert(g * k == 1099511627776) by (nonlinear_arith)
        requires
            k == 1024,
            g == 1073741824,
    ;
    let u = lower_text(unit);
    assert("k"@[0] == 'k' && "kb"@[0] == 'k' && "kib"@[0] == 'k');
    assert("m"@[0] == 'm' && "mb"@[0] == 'm' && "mib"@[0] == 'm');
    assert("g"@[0] == 'g' && "gb"@[0] == 'g' && "gib"@[0] == 'g');
    assert("t"@[0] == 't' && "tb"@[0] == 't' && "tib"@[0] == 't');
    assert("b"@[0] == 'b');
    assert(""@.len() == 0);
    if u == "k"@ || u == "kb"@ || u == "kib"@ {
        assert(u.len() > 0 && u[0] == 'k');
    } else if u == "m"@ || u == "mb"@ || u == "mib"@ {
        assert(u.len() > 0 && u[0] == 'm');
    } else if u == "g"@ || u == "gb"@ || u == "gib"@ {
        assert(u.len() > 0 && u[0] == 'g');
    } else if u == "t"@ || u == "tb"@ || u == "tib"@ {
        assert(u.len() > 0 && u[0] == 't');
    }
}

/// The unit of a quantity starts at its first letter.
pub proof fn law_unit_starts_at_the_first_letter(s: Seq<char>)
    ensures
        0 <= unit_start(s) <= s.len(),
        forall|i: int| 0 <= i < unit_start(s) ==> !letter(#[trigger] s[i]),
        unit_start(s) < s.len() ==> letter(s[unit_start(s)]),
    decreases s.len(),
{
    if s.len() > 0 && !letter(s[0]) {
        law_unit_starts_at_the_first_letter(s.skip(1));
        assert forall|i: int| 0 <= i < unit_start(s) implies !letter(#[trigger] s[i]) by {
            if i > 0 {
                assert(s[i] == s.skip(1)[i - 1]);
            }
        }
        if unit_start(s) < s.len() {
            assert(s[unit_start(s)] == s.skip(1)[unit_start(s) - 1]);
        }
    }
}

// ---------------------------------------------------------------------------
// Keys
// ---------------------------------------------------------------------------

/// No two underscores follow each other.
pub open spec fn single_underscores(s: Seq<char>) -> bool {
    forall|i: int| 0 <= i && i + 1 < s.len() ==> !(#[trigger] s[i] == '_' && s[i + 1] == '_')
}

proof fn lemma_separator_at(s: Seq<char>, at: int)
    requires
        0 <= at,
        at + 1 < s.len(),
        s[at] == '_' && s[at + 1] == '_',
        forall|i: int| 0 <= i < at ==> !(#[trigger] s[i] == '_' && s[i + 1] == '_'),
    ensures
        separator(s) == at,
    decreases s.len(),
{
    if at > 0 {
        assert(!(s[0] == '_' && s[1] == '_'));
        let t = s.skip(1);
        assert forall|i: int| 0 <= i < at - 1 implies !(#[trigger] t[i] == '_' && t[i + 1]
            == '_') by {
            assert(t[i] == s[i + 1]);
            assert(!(s[i + 1] == '_' && s[i + 2] == '_'));
        }
        lemma_separator_at(t, at - 1);
    }
}

proof fn lemma_no_separator(s: Seq<char>)
    requires
        single_underscores(s),
    ensures
        separator(s) == s.len(),
    decreases s.len(),
{
    if s.len() >= 2 {
        assert(!(s[0] == '_' && s[1] == '_'));
        let t = s.skip(1);
        assert forall|i: int| 0 <= i && i + 1 < t.len() implies !(#[trigger] t[i] == '_' && t[i + 1]
            == '_') by {
            assert(t[i] == s[i + 1]);
            assert(!(s[i + 1] == '_' && s[i + 2] == '_'));
        }
        lemma_no_separator(t);
    }
}

/// A key names a section, or a section and a field with two underscores between
/// them, in any letter case.
pub proof fn law_keys_name_sections_and_fields(section: Seq<char>, field: Seq<char>)
    requires
        single_underscores(section),
        single_underscores(field),
        section.len() > 0 ==> section.last() != '_',
    ensures
        section_of(section) == lower_text(section),
        path_of(section) is Nothing,
        section_of(section + seq!['_', '_'] + field) == lower_text(section),
        path_of(section + seq!['_', '_'] + field) == PathView::Field(lower_text(field)),
{
    let key = section + seq!['_', '_'] + field;
    let at = section.len() as int;
    lemma_no_separator(section);
    lemma_no_separator(field);
    assert(section.take(at) =~= section);
    assert forall|i: int| 0 <= i < at implies !(#[trigger] key[i] == '_' && key[i + 1] == '_') by {
        assert(key[i] == section[i]);
        if i + 1 < at {
            assert(key[i + 1] == section[i + 1]);
            assert(!(section[i] == '_' && section[i + 1] == '_'));
        }
    }
    lemma_separator_at(key, at);
    assert(key.take(at) =~= section);
    assert(key.skip(at + 2) =~= field);
}

/// The variables that count are those whose key starts with `KAMINO_`; they keep
/// their order and their values, and lose those seven characters: what is kept
/// stood at the places returned.
pub proof fn law_prefixed_variables_count(vars: Seq<EnvView>) -> (from: Seq<int>)
    ensures
        from.len() == relevant(vars).len(),
        forall|k: int|
            0 <= k < from.len() ==> {
                let v = vars[#[trigger] from[k]];
                &&& 0 <= from[k] < vars.len()
                &&& starts_with(v.key, "KAMINO_"@)
                &&& relevant(vars)[k].key == v.key.skip(7)
                &&& relevant(vars)[k].value == v.value
                &&& relevant(vars)[k].float == v.float
            },
        forall|a: int, b: int| 0 <= a < b < from.len() ==> #[trigger] from[a] < #[trigger] from[b],
        forall|i: int|
            0 <= i < vars.len() && starts_with((#[trigger] vars[i]).key, "KAMINO_"@)
                ==> from.contains(i),
    decreases vars.len(),
{
    assert("KAMINO_"@.len() == 7) by {
        reveal_strlit("KAMINO_");
    }
    if vars.len() == 0 {
        Seq::empty()
    } else {
        let rest = vars.drop_last();
        let front = law_prefixed_variables_count(rest);
        let from = if starts_with(vars.last().key, prefix()) {
            front.push(vars.len() - 1)
        } else {
            front
        };
        assert forall|k: int| 0 <= k < from.len() implies {
            let v = vars[#[trigger] from[k]];
            &&& 0 <= from[k] < vars.len()
            &&& starts_with(v.key, "KAMINO_"@)
            &&& relevant(vars)[k].key == v.key.skip(7)
            &&& relevant(vars)[k].value == v.value
            &&& relevant(vars)[k].float == v.float
        } by {
            if k < front.len() {
                assert(0 <= front[k] < rest.len());
                assert(rest[front[k]] == vars[from[k]]);
            }
        }
        assert forall|i: int|
            0 <= i < vars.len() && starts_with(
                (#[trigger] vars[i]).key,
                "KAMINO_"@,
            ) implies from.contains(i) by {
            if i < rest.len() {
                assert(rest[i] == vars[i]);
                assert(front.contains(i));
                let a = choose|a: int| 0 <= a < front.len() && front[a] == i;
                assert(from[a] == i);
            } else {
                assert(from[front.len() as int] == i);
            }
        }
        from
    }
}

// ---------------------------------------------------------------------------
// Values of variables
// ---------------------------------------------------------------------------

/// A variable that reads as a boolean or as an integer of 64 bits is written as
/// one, without the white space around it. Any other one that has neither a point
/// nor an `e` in it is written as a string, as it is.
pub proof fn law_values_are_written_by_their_kind(v: EnvView, n: int)
    ensures
        ({
            let t = trimmed(v.value);
            let word = lower_text(t) == "true"@ || lower_text(t) == "false"@;
            let number = signed_numeral(encode_utf8(t));
            &&& lower_text(t) == "true"@ ==> scalar(v) == "true"@
            &&& lower_text(t) == "false"@ ==> scalar(v) == "false"@
            &&& !word && number == Some(n) && i64::MIN <= n <= i64::MAX ==> scalar(v)
                == ascii_chars(signed_decimal(n))
            &&& !word && (number is None || number->0 < i64::MIN || number->0 > i64::MAX)
                && !t.contains('.') && !t.contains('e') && !t.contains('E') && (forall|i: int|
                0 <= i < v.value.len() ==> (#[trigger] v.value[i]) as u32 >= 0x20
                    && v.value[i] as u32 != 0x7f && v.value[i] != '"' && v.value[i] != '\\')
                ==> scalar(v) == "\""@ + v.value + "\""@
        }),
{
    let t = trimmed(v.value);
    assert(lower_text(t) == "true"@ && lower_text(t) == "false"@ ==> false) by {
        reveal_strlit("true");
        reveal_strlit("false");
        assert("true"@.len() == 4 && "false"@.len() == 5);
    }
}

/// A section has a line for every variable that names it and a field of it, with
/// the field and the value, in the order of the variables: the lines come from the
/// places returned.
pub proof fn law_sections_have_their_lines(vars: Seq<EnvView>, section: Seq<char>) -> (from: Seq<
    int,
>)
    ensures
        from.len() == section_lines(vars, section).len(),
        forall|k: int|
            0 <= k < from.len() ==> {
                let v = vars[#[trigger] from[k]];
                &&& 0 <= from[k] < vars.len()
                &&& section_of(v.key) == section
                &&& path_of(v.key) matches PathView::Field(f)
                &&& f.len() > 0
                &&& section_lines(vars, section)[k] == f + " = "@ + scalar(v)
            },
        forall|a: int, b: int| 0 <= a < b < from.len() ==> #[trigger] from[a] < #[trigger] from[b],
        forall|i: int|
            0 <= i < vars.len() && section_of((#[trigger] vars[i]).key) == section && (path_of(
                vars[i].key,
            ) matches PathView::Field(f) && f.len() > 0) ==> from.contains(i),
    decreases vars.len(),
{
    if vars.len() == 0 {
        Seq::empty()
    } else {
        let rest = vars.drop_last();
        let front = law_sections_have_their_lines(rest, section);
        let v = vars.last();
        let named = section_of(v.key) == section && (path_of(v.key) matches PathView::Field(f)
            && f.len() > 0);
        let from = if named {
            front.push(vars.len() - 1)
        } else {
            front
        };
        assert forall|k: int| 0 <= k < from.len() implies {
            let v = vars[#[trigger] from[k]];
            &&& 0 <= from[k] < vars.len()
            &&& section_of(v.key) == section
            &&& path_of(v.key) matches PathView::Field(f)
            &&& f.len() > 0
            &&& section_lines(vars, section)[k] == f + " = "@ + scalar(v)
        } by {
            if k < front.len() {
                assert(0 <= front[k] < rest.len());
                assert(rest[front[k]] == vars[from[k]]);
            }
        }
        assert forall|i: int|
            0 <= i < vars.len() && section_of((#[trigger] vars[i]).key) == section && (path_of(
                vars[i].key,
            ) matches PathView::Field(f) && f.len() > 0) implies from.contains(i) by {
            if i < rest.len() {
                assert(rest[i] == vars[i]);
                assert(front.contains(i));
                let a = choose|a: int| 0 <= a < front.len() && front[a] == i;
                assert(from[a] == i);
            } else {
                assert(from[front.len() as int] == i);
            }
        }
        from
    }
}

/// A value of its own is written if and only if one variable alone names it, and
/// nothing below it.
pub proof fn law_single_values_are_written_once(vars: Seq<EnvView>, name: Seq<char>, i: int)
    requires
        0 <= i < vars.len(),
        section_of(vars[i].key) == name,
    ensures
        (forall|j: int| 0 <= j < vars.len() && j != i ==> section_of((#[trigger] vars[j]).key)
            != name) && path_of(vars[i].key) is Nothing ==> top_line(vars, name) == Some(
            name + " = "@ + scalar(vars[i]),
        ),
        (exists|j: int|
            0 <= j < vars.len() && j != i && section_of((#[trigger] vars[j]).key) == name)
            ==> top_line(vars, name) is None,
        (forall|j: int| 0 <= j < vars.len() && j != i ==> section_of((#[trigger] vars[j]).key)
            != name) && !(path_of(vars[i].key) is Nothing) ==> top_line(vars, name) is None,
{
    lemma_hits(vars, name, i);
}

proof fn lemma_hits(vars: Seq<EnvView>, name: Seq<char>, i: int)
    requires
        0 <= i < vars.len(),
        section_of(vars[i].key) == name,
    ensures
        hits(vars, name) >= 1,
        (forall|j: int| 0 <= j < vars.len() && j != i ==> section_of((#[trigger] vars[j]).key)
            != name) ==> hits(vars, name) == 1 && last_hit(vars, name) == vars[i],
        (exists|j: int|
            0 <= j < vars.len() && j != i && section_of((#[trigger] vars[j]).key) == name)
            ==> hits(vars, name) >= 2,
    decreases vars.len(),
{
    let rest = vars.drop_last();
    let n = vars.len() - 1;
    if i < n {
        assert(rest[i] == vars[i]);
        lemma_hits(rest, name, i);
        if forall|j: int| 0 <= j < vars.len() && j != i ==> section_of((#[trigger] vars[j]).key)
            != name {
            assert(section_of(vars[n].key) != name);
            assert forall|j: int| 0 <= j < rest.len() && j != i implies section_of(
                (#[trigger] rest[j]).key,
            ) != name by {
                assert(rest[j] == vars[j]);
            }
        } else {
            let j = choose|j: int|
                0 <= j < vars.len() && j != i && section_of((#[trigger] vars[j]).key) == name;
            if j < n {
                assert(rest[j] == vars[j]);
            }
        }
    } else {
        if forall|j: int| 0 <= j < vars.len() && j != i ==> section_of((#[trigger] vars[j]).key)
            != name {
            assert forall|j: int| 0 <= j < rest.len() implies section_of((#[trigger] rest[j]).key)
                != name by {
                assert(rest[j] == vars[j]);
            }
            lemma_no_hits(rest, name);
        } else {
            let j = choose|j: int|
                0 <= j < vars.len() && j != i && section_of((#[trigger] vars[j]).key) == name;
            assert(rest[j] == vars[j]);
            lemma_hits(rest, name, j);
        }
    }
}

proof fn lemma_no_hits(vars: Seq<EnvView>, name: Seq<char>)
    requires
        forall|j: int| 0 <= j < vars.len() ==> section_of((#[trigger] vars[j]).key) != name,
    ensures
        hits(vars, name) == 0,
    decreases vars.len(),
{
    if vars.len() > 0 {
        let rest = vars.drop_last();
        assert forall|j: int| 0 <= j < rest.len() implies section_of((#[trigger] rest[j]).key)
            != name by {
            assert(rest[j] == vars[j]);
        }
        assert(section_of(vars[vars.len() - 1].key) != name);
        lemma_no_hits(rest, name);
    }
}

} // verus!
