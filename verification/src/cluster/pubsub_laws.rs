//! Who hears what, and what subscribing and unsubscribing leave behind.

use bytes::Bytes;
use vstd::prelude::*;
use vstd::utf8::encode_utf8;

use crate::buffer::bytes_of;
use crate::cluster::glob::glob;
use crate::cluster::pubsub::{
    are_channels, are_targets, has_subscriber, hears, held_by, keys_named, lemma_sub_order, lists,
    names_in, patterns_in, served, served_by, sub_less, subscribe_outcome, subscribers,
    unsubscribe_acks, wanted, with_names, without_names, Delivery, Registry, SubKey,
};
use crate::text::{lemma_lex_total, lex_less};

verus! {

/// One of the first `n` names is `name`.
pub open spec fn named(names: Seq<Seq<char>>, n: int, name: Seq<char>) -> bool {
    exists|i: int| 0 <= i < n && #[trigger] names[i] == name
}

/// A delivery goes to a connection, for its exact subscription.
pub open spec fn goes_to(d: Delivery, conn: u64) -> bool {
    d.conn_id == conn && d.message.pattern is None
}

/// A delivery goes to a connection, for its subscription to a pattern.
pub open spec fn goes_by(d: Delivery, conn: u64, pattern: Seq<char>) -> bool {
    d.conn_id == conn && d.message.pattern is Some && d.message.pattern->0@ == pattern
}

/// A message goes to the connections that subscribe to the very channel, and to
/// those that subscribe to a pattern that stands for it, once for each such
/// subscription; it goes nowhere else.
pub proof fn law_messages_reach_subscribers(
    subs: Set<SubKey>,
    channel: Seq<char>,
    r: Seq<Delivery>,
    conn: u64,
    pattern: Seq<char>,
)
    requires
        lists(served_by(r), subs.filter(|k: SubKey| hears(k, channel))),
        forall|i: int| 0 <= i < r.len() ==> (#[trigger] r[i]).message.channel@ == channel,
    ensures
        subs.contains(SubKey { is_pattern: false, name: channel, conn }) <==> exists|i: int|
            0 <= i < r.len() && goes_to(#[trigger] r[i], conn),
        subs.contains(SubKey { is_pattern: true, name: pattern, conn }) && glob(
            encode_utf8(pattern),
            encode_utf8(channel),
        ) <==> exists|i: int| 0 <= i < r.len() && goes_by(#[trigger] r[i], conn, pattern),
        forall|i: int, j: int|
            0 <= i < j < r.len() ==> !(goes_to(#[trigger] r[i], conn) && goes_to(
                #[trigger] r[j],
                conn,
            )) && !(goes_by(r[i], conn, pattern) && goes_by(r[j], conn, pattern)),
{
    let heard = subs.filter(|k: SubKey| hears(k, channel));
    let s = served_by(r);
    let exact = SubKey { is_pattern: false, name: channel, conn };
    let wide = SubKey { is_pattern: true, name: pattern, conn };
    assert forall|i: int| 0 <= i < r.len() implies (goes_to(#[trigger] r[i], conn) <==> s[i]
        == exact) && (goes_by(r[i], conn, pattern) <==> s[i] == wide) by {
        assert(s[i] == served(r[i]));
    }
    assert(heard.contains(exact) <==> subs.contains(exact));
    if heard.contains(exact) {
        let i = choose|i: int| 0 <= i < s.len() && #[trigger] s[i] == exact;
        assert(goes_to(r[i], conn));
    }
    if exists|i: int| 0 <= i < r.len() && goes_to(#[trigger] r[i], conn) {
        let i = choose|i: int| 0 <= i < r.len() && goes_to(#[trigger] r[i], conn);
        assert(s[i] == exact);
    }
    if heard.contains(wide) {
        let i = choose|i: int| 0 <= i < s.len() && #[trigger] s[i] == wide;
        assert(goes_by(r[i], conn, pattern));
    }
    if exists|i: int| 0 <= i < r.len() && goes_by(#[trigger] r[i], conn, pattern) {
        let i = choose|i: int| 0 <= i < r.len() && goes_by(#[trigger] r[i], conn, pattern);
        assert(s[i] == wide);
        assert(heard.contains(wide));
    }
    assert forall|i: int, j: int| 0 <= i < j < r.len() implies !(goes_to(#[trigger] r[i], conn)
        && goes_to(#[trigger] r[j], conn)) && !(goes_by(r[i], conn, pattern) && goes_by(
        r[j],
        conn,
        pattern,
    )) by {
        assert(sub_less(s[i], s[j]));
        lemma_sub_order(s[i], s[j]);
    }
}

/// Taking names adds them, and giving them up takes them away.
pub proof fn lemma_taken(
    subs: Set<SubKey>,
    conn: u64,
    is_pattern: bool,
    names: Seq<Seq<char>>,
    n: int,
    k: SubKey,
)
    requires
        0 <= n,
    ensures
        with_names(subs, conn, is_pattern, names, n).contains(k) <==> subs.contains(k) || (k.conn
            == conn && k.is_pattern == is_pattern && named(names, n, k.name)),
        without_names(subs, conn, is_pattern, names, n).contains(k) <==> subs.contains(k) && !(
        k.conn == conn && k.is_pattern == is_pattern && named(names, n, k.name)),
    decreases n,
{
    if n > 0 {
        lemma_taken(subs, conn, is_pattern, names, n - 1, k);
        if named(names, n, k.name) {
            let i = choose|i: int| 0 <= i < n && #[trigger] names[i] == k.name;
            assert(i < n - 1 ==> named(names, n - 1, k.name));
        }
        if named(names, n - 1, k.name) {
            let i = choose|i: int| 0 <= i < n - 1 && #[trigger] names[i] == k.name;
            assert(names[i] == k.name);
        }
        assert(names[n - 1] == k.name ==> named(names, n, k.name));
    }
}

/// After a registered connection has subscribed, it holds what it held and the
/// names it gave, of the kind it asked for; nobody else's subscriptions change.
/// Each name is acknowledged as it was sent, with the number of subscriptions that
/// the connection then holds.
pub proof fn law_subscribing_adds_the_names(
    m: Registry,
    conn: u64,
    is_pattern: bool,
    items: Seq<Bytes>,
    k: SubKey,
)
    requires
        m.conns.contains(conn),
    ensures
        ({
            let names = names_in(items);
            let (n, acks) = subscribe_outcome(m, conn, is_pattern, items);
            &&& n.subs.contains(k) <==> m.subs.contains(k) || (k.conn == conn && k.is_pattern
                == is_pattern && named(names, items.len() as int, k.name))
            &&& n.conns == m.conns
            &&& n.next_id == m.next_id
            &&& acks.len() == items.len()
            &&& forall|i: int|
                0 <= i < items.len() ==> {
                    &&& (#[trigger] acks[i]).channel == bytes_of(items[i])
                    &&& acks[i].is_pattern == is_pattern
                    &&& acks[i].total == Set::new(
                        |h: SubKey|
                            h.conn == conn && (m.subs.contains(h) || (h.is_pattern == is_pattern
                                && named(names, i + 1, h.name))),
                    ).len()
                }
        }),
{
    let names = names_in(items);
    let acks = subscribe_outcome(m, conn, is_pattern, items).1;
    lemma_taken(m.subs, conn, is_pattern, names, items.len() as int, k);
    assert forall|i: int| 0 <= i < items.len() implies (#[trigger] acks[i]).total == Set::new(
        |h: SubKey|
            h.conn == conn && (m.subs.contains(h) || (h.is_pattern == is_pattern && named(
                names,
                i + 1,
                h.name,
            ))),
    ).len() by {
        assert forall|h: SubKey| #[trigger]
            held_by(with_names(m.subs, conn, is_pattern, names, i + 1), conn).contains(h) <==> (
            h.conn == conn && (m.subs.contains(h) || (h.is_pattern == is_pattern && named(
                names,
                i + 1,
                h.name,
            )))) by {
            lemma_taken(m.subs, conn, is_pattern, names, i + 1, h);
        }
        assert(held_by(with_names(m.subs, conn, is_pattern, names, i + 1), conn) =~= Set::new(
            |h: SubKey|
                h.conn == conn && (m.subs.contains(h) || (h.is_pattern == is_pattern && named(
                    names,
                    i + 1,
                    h.name,
                ))),
        ));
    }
}

/// A connection that is not registered cannot subscribe.
pub proof fn law_strangers_cannot_subscribe(
    m: Registry,
    conn: u64,
    is_pattern: bool,
    items: Seq<Bytes>,
)
    requires
        !m.conns.contains(conn),
    ensures
        subscribe_outcome(m, conn, is_pattern, items).0 == m,
        subscribe_outcome(m, conn, is_pattern, items).1.len() == 0,
{
}

/// After a connection has given up names, it holds what it held without those
/// names of that kind; nobody else's subscriptions change. Each name is
/// acknowledged with the number of subscriptions that the connection then holds,
/// and giving up nothing is acknowledged once.
pub proof fn law_unsubscribing_removes_the_names(
    m: Registry,
    conn: u64,
    is_pattern: bool,
    names: Seq<Seq<char>>,
    k: SubKey,
)
    ensures
        ({
            let left = without_names(m.subs, conn, is_pattern, names, names.len() as int);
            let acks = unsubscribe_acks(m, conn, is_pattern, names);
            &&& left.contains(k) <==> m.subs.contains(k) && !(k.conn == conn && k.is_pattern
                == is_pattern && named(names, names.len() as int, k.name))
            &&& names.len() > 0 ==> acks.len() == names.len()
            &&& forall|i: int|
                0 <= i < names.len() ==> {
                    &&& (#[trigger] acks[i]).channel == encode_utf8(names[i])
                    &&& acks[i].is_pattern == is_pattern
                    &&& acks[i].total == Set::new(
                        |h: SubKey|
                            h.conn == conn && m.subs.contains(h) && !(h.is_pattern == is_pattern
                                && named(names, i + 1, h.name)),
                    ).len()
                }
            &&& names.len() == 0 ==> {
                &&& acks.len() == 1
                &&& acks[0].channel.len() == 0
                &&& acks[0].is_pattern == is_pattern
                &&& acks[0].total == m.subs.filter(|h: SubKey| h.conn == conn).len()
            }
        }),
{
    let acks = unsubscribe_acks(m, conn, is_pattern, names);
    lemma_taken(m.subs, conn, is_pattern, names, names.len() as int, k);
    assert forall|i: int| 0 <= i < names.len() implies (#[trigger] acks[i]).total == Set::new(
        |h: SubKey|
            h.conn == conn && m.subs.contains(h) && !(h.is_pattern == is_pattern && named(
                names,
                i + 1,
                h.name,
            )),
    ).len() by {
        assert forall|h: SubKey| #[trigger]
            held_by(without_names(m.subs, conn, is_pattern, names, i + 1), conn).contains(h)
            <==> (h.conn == conn && m.subs.contains(h) && !(h.is_pattern == is_pattern && named(
            names,
            i + 1,
            h.name,
        ))) by {
            lemma_taken(m.subs, conn, is_pattern, names, i + 1, h);
        }
        assert(held_by(without_names(m.subs, conn, is_pattern, names, i + 1), conn) =~= Set::new(
            |h: SubKey|
                h.conn == conn && m.subs.contains(h) && !(h.is_pattern == is_pattern && named(
                    names,
                    i + 1,
                    h.name,
                )),
        ));
    }
}

/// A connection that unsubscribes without naming anything gives up all that it
/// holds of that kind, and keeps what it holds of the other.
pub proof fn law_unsubscribing_from_all(
    m: Registry,
    conn: u64,
    is_pattern: bool,
    names: Seq<Seq<char>>,
    k: SubKey,
)
    requires
        are_targets(m, conn, is_pattern, None, names),
    ensures
        without_names(m.subs, conn, is_pattern, names, names.len() as int).contains(k)
            <==> m.subs.contains(k) && !(k.conn == conn && k.is_pattern == is_pattern),
{
    let s = keys_named(names, is_pattern, conn);
    let mine = m.subs.filter(|k: SubKey| k.conn == conn && k.is_pattern == is_pattern);
    lemma_taken(m.subs, conn, is_pattern, names, names.len() as int, k);
    if k.conn == conn && k.is_pattern == is_pattern && m.subs.contains(k) {
        assert(mine.contains(k));
        let i = choose|i: int| 0 <= i < s.len() && #[trigger] s[i] == k;
        assert(names[i] == k.name);
        assert(named(names, names.len() as int, k.name));
    }
}

/// The channels that are listed are those that somebody subscribes to by their very
/// name and that the pattern, where one is given, stands for; none is listed twice.
pub proof fn law_channels_are_listed(
    subs: Set<SubKey>,
    pattern: Option<Seq<char>>,
    names: Seq<Seq<char>>,
    name: Seq<char>,
)
    requires
        are_channels(subs, pattern, names),
    ensures
        names.contains(name) <==> (exists|conn: u64| #[trigger]
            subs.contains(SubKey { is_pattern: false, name, conn })) && (pattern matches Some(p)
            ==> glob(encode_utf8(p), encode_utf8(name))),
        names.no_duplicates(),
{
    assert forall|i: int, j: int|
        0 <= i < names.len() && 0 <= j < names.len() && i != j implies names[i] != names[j] by {
        lemma_lex_total(encode_utf8(names[i]), encode_utf8(names[i]));
        if i < j {
            assert(lex_less(encode_utf8(names[i]), encode_utf8(names[j])));
        } else {
            assert(lex_less(encode_utf8(names[j]), encode_utf8(names[i])));
        }
    }
    assert(names.contains(name) <==> (has_subscriber(subs, false, name) && (pattern matches Some(p)
        ==> wanted(p, name))));
}

/// The subscribers of a channel that are counted hold it by its very name, and the
/// patterns that are counted are held by somebody.
pub proof fn law_subscribers_are_counted(subs: Set<SubKey>, name: Seq<char>, k: SubKey)
    ensures
        subscribers(subs, name).contains(k) <==> subs.contains(k) && !k.is_pattern && k.name
            == name,
        patterns_in(subs).contains(name) <==> exists|conn: u64| #[trigger]
            subs.contains(SubKey { is_pattern: true, name, conn }),
{
}

} // verus!
