//! Registry of pub/sub subscriptions.
//!
//! A subscription is an exact channel or a glob pattern, held by a connection.
//! The registry works out who hears a message; handing the message to a
//! connection's queue, and skipping a queue that is full, is up to the caller.

use bytes::Bytes;
use vstd::prelude::*;
use vstd::string::*;
use vstd::utf8::{decode_utf8, encode_utf8, encode_utf8_decode_utf8, valid_utf8};

use crate::buffer::{bytes_clone, bytes_from_slice, bytes_from_vec, bytes_of, bytes_slice};
use crate::cluster::glob::{glob, pattern_matches};
use crate::text::{
    bytes_less, lemma_lex_total, lemma_lex_transitive, lex_less, lossy_text, str_equal,
    string_from_utf8_lossy,
};

verus! {

/// A message on its way to a subscriber.
#[derive(Debug)]
pub struct DeliveredMessage {
    /// Channel that the publisher named.
    pub channel: String,
    /// Pattern that the channel matched; `None` for an exact subscription.
    pub pattern: Option<String>,
    /// The payload.
    pub payload: Bytes,
}

/// A message, and the connection that it goes to.
#[derive(Debug)]
pub struct Delivery {
    pub conn_id: u64,
    pub message: DeliveredMessage,
}

/// Acknowledgement of a subscribe or unsubscribe.
#[derive(Debug, PartialEq, Eq)]
pub struct SubAck {
    /// Channel or pattern.
    pub channel: Bytes,
    /// Whether it is a pattern.
    pub is_pattern: bool,
    /// Subscriptions that the connection holds afterwards, of both kinds.
    pub total_subscriptions: usize,
}

/// Mathematical value of a [`SubAck`].
pub ghost struct AckView {
    pub channel: Seq<u8>,
    pub is_pattern: bool,
    pub total: nat,
}

impl View for SubAck {
    type V = AckView;

    open spec fn view(&self) -> AckView {
        AckView {
            channel: bytes_of(self.channel),
            is_pattern: self.is_pattern,
            total: self.total_subscriptions as nat,
        }
    }
}

/// A subscription.
pub ghost struct SubKey {
    pub is_pattern: bool,
    pub name: Seq<char>,
    pub conn: u64,
}

/// Mathematical value of a [`PubSubService`].
#[verifier::ext_equal]
pub ghost struct Registry {
    /// The subscriptions.
    pub subs: Set<SubKey>,
    /// Connections that messages can be handed to.
    pub conns: Set<u64>,
    /// The next connection id.
    pub next_id: u64,
}

/// Order of subscriptions: exact channels first, then by name, then by
/// connection.
pub open spec fn sub_less(a: SubKey, b: SubKey) -> bool {
    if a.is_pattern != b.is_pattern {
        !a.is_pattern
    } else if a.name != b.name {
        lex_less(encode_utf8(a.name), encode_utf8(b.name))
    } else {
        a.conn < b.conn
    }
}

/// `s` lists the members of `set` in order, each once.
pub open spec fn lists(s: Seq<SubKey>, set: Set<SubKey>) -> bool {
    &&& forall|i: int, j: int|
        0 <= i < j < s.len() ==> sub_less(#[trigger] s[i], #[trigger] s[j])
    &&& forall|k: SubKey| #[trigger]
        set.contains(k) <==> exists|i: int| 0 <= i < s.len() && #[trigger] s[i] == k
}

/// The subscriptions that a connection holds.
pub open spec fn held_by(set: Set<SubKey>, conn: u64) -> Set<SubKey> {
    set.filter(|k: SubKey| k.conn == conn)
}

/// Whether a subscription hears what is published on `channel`.
pub open spec fn hears(k: SubKey, channel: Seq<char>) -> bool {
    if k.is_pattern {
        glob(encode_utf8(k.name), encode_utf8(channel))
    } else {
        k.name == channel
    }
}

/// The subscription that a delivery serves.
pub open spec fn served(d: Delivery) -> SubKey {
    SubKey {
        is_pattern: d.message.pattern is Some,
        name: match d.message.pattern {
            Some(p) => p@,
            None => d.message.channel@,
        },
        conn: d.conn_id,
    }
}

pub proof fn lemma_sub_order(a: SubKey, b: SubKey)
    ensures
        !sub_less(a, a),
        sub_less(a, b) ==> !sub_less(b, a),
        sub_less(a, b) || sub_less(b, a) || a == b,
{
    lemma_lex_total(encode_utf8(a.name), encode_utf8(b.name));
    lemma_lex_total(encode_utf8(a.name), encode_utf8(a.name));
    encode_utf8_decode_utf8(a.name);
    encode_utf8_decode_utf8(b.name);
}

proof fn lemma_sub_transitive(a: SubKey, b: SubKey, c: SubKey)
    requires
        sub_less(a, b),
        sub_less(b, c),
    ensures
        sub_less(a, c),
{
    if a.is_pattern == b.is_pattern && b.is_pattern == c.is_pattern {
        if a.name != b.name && b.name != c.name {
            lemma_lex_transitive(
                encode_utf8(a.name),
                encode_utf8(b.name),
                encode_utf8(c.name),
            );
            lemma_lex_total(encode_utf8(a.name), encode_utf8(b.name));
        }
    }
}

/// How many members of `s` the predicate holds of.
pub open spec fn count_where(s: Seq<SubKey>, f: spec_fn(SubKey) -> bool) -> nat
    decreases s.len(),
{
    if s.len() == 0 {
        0
    } else {
        count_where(s.drop_last(), f) + if f(s.last()) {
            1nat
        } else {
            0nat
        }
    }
}

/// Counting along a list of a set counts the set.
proof fn lemma_count(s: Seq<SubKey>, set: Set<SubKey>, f: spec_fn(SubKey) -> bool)
    requires
        lists(s, set),
    ensures
        set.filter(f).finite(),
        set.filter(f).len() == count_where(s, f),
    decreases s.len(),
{
    if s.len() == 0 {
        assert(set.filter(f) =~= Set::<SubKey>::empty());
    } else {
        let last = s.last();
        let rest = set.remove(last);
        let front = s.drop_last();
        assert forall|k: SubKey| #[trigger] rest.contains(k) <==> exists|i: int|
            0 <= i < front.len() && #[trigger] front[i] == k by {
            if rest.contains(k) {
                let i = choose|i: int| 0 <= i < s.len() && #[trigger] s[i] == k;
                assert(i < s.len() - 1);
                assert(front[i] == k);
            }
            if exists|i: int| 0 <= i < front.len() && #[trigger] front[i] == k {
                let i = choose|i: int| 0 <= i < front.len() && #[trigger] front[i] == k;
                assert(s[i] == k);
                assert(sub_less(s[i], s[s.len() - 1]));
                lemma_sub_order(k, last);
            }
        }
        assert(lists(front, rest));
        lemma_count(front, rest, f);
        assert(s[s.len() - 1] == last);
        if f(last) {
            assert(set.filter(f) =~= rest.filter(f).insert(last));
            assert(!rest.filter(f).contains(last));
        } else {
            assert(set.filter(f) =~= rest.filter(f));
        }
    }
}

#[derive(Debug)]
struct Entry {
    is_pattern: bool,
    name: String,
    conn: u64,
}

impl Entry {
    spec fn key(&self) -> SubKey {
        SubKey { is_pattern: self.is_pattern, name: self.name@, conn: self.conn }
    }
}

spec fn keys(s: Seq<Entry>) -> Seq<SubKey> {
    Seq::new(s.len(), |i: int| s[i].key())
}

/// Registry of subscriptions.
#[derive(Debug)]
pub struct PubSubService {
    entries: Vec<Entry>,
    conns: Vec<u64>,
    next_id: u64,
}

impl View for PubSubService {
    type V = Registry;

    closed spec fn view(&self) -> Registry {
        Registry {
            subs: keys(self.entries@).to_set(),
            conns: self.conns@.to_set(),
            next_id: self.next_id,
        }
    }
}

fn entry_less(
    p1: bool,
    n1: &str,
    c1: u64,
    p2: bool,
    n2: &str,
    c2: u64,
) -> (r: bool)
    ensures
        r == sub_less(
            SubKey { is_pattern: p1, name: n1@, conn: c1 },
            SubKey { is_pattern: p2, name: n2@, conn: c2 },
        ),
{
    if p1 != p2 {
        !p1
    } else if !str_equal(n1, n2) {
        bytes_less(n1.as_bytes(), n2.as_bytes())
    } else {
        c1 < c2
    }
}

impl PubSubService {
    /// Subscriptions are kept in order, each once; no connection is registered
    /// twice.
    pub closed spec fn wf(&self) -> bool {
        &&& lists(keys(self.entries@), self@.subs)
        &&& self.conns@.no_duplicates()
    }

    /// A registry without subscribers.
    pub fn new() -> (r: Self)
        ensures
            r.wf(),
            r@ == (Registry { subs: Set::empty(), conns: Set::empty(), next_id: 1 }),
    {
        let r: PubSubService = PubSubService {
            entries: Vec::new(),
            conns: Vec::new(),
            next_id: 1,
        };
        proof {
            assert(r@.subs =~= Set::<SubKey>::empty());
            assert(r@.conns =~= Set::<u64>::empty());
        }
        r
    }

    /// A fresh connection id. Ids count up from one, and start over at zero
    /// when all have been given out.
    pub fn next_conn_id(&mut self) -> (r: u64)
        requires
            old(self).wf(),
        ensures
            final(self).wf(),
            r == old(self)@.next_id,
            final(self)@ == (Registry {
                next_id: if r == u64::MAX {
                    0
                } else {
                    (r + 1) as u64
                },
                ..old(self)@
            }),
    {
        let id: u64 = self.next_id;
        self.next_id = if id == u64::MAX {
            0
        } else {
            id + 1
        };
        id
    }

    fn conn_position(&self, conn_id: u64) -> (r: Option<usize>)
        ensures
            match r {
                Some(i) => i < self.conns@.len() && self.conns@[i as int] == conn_id,
                None => !self@.conns.contains(conn_id),
            },
    {
        let mut i: usize = 0;
        while i < self.conns.len()
            invariant
                i <= self.conns@.len(),
                forall|j: int| 0 <= j < i ==> #[trigger] self.conns@[j] != conn_id,
            decreases self.conns@.len() - i,
        {
            if self.conns[i] == conn_id {
                return Some(i);
            }
            i = i + 1;
        }
        None
    }

    /// Makes a connection known, so that it can subscribe. Registering it again
    /// changes nothing here: the caller replaces the sink.
    pub fn register_conn(&mut self, conn_id: u64)
        requires
            old(self).wf(),
        ensures
            final(self).wf(),
            final(self)@ == (Registry {
                conns: old(self)@.conns.insert(conn_id),
                ..old(self)@
            }),
    {
        match self.conn_position(conn_id) {
            Some(i) => {
                assert(self@.conns.insert(conn_id) =~= self@.conns);
            },
            None => {
                let ghost was = self.conns@;
                self.conns.push(conn_id);
                proof {
                    assert(self.conns@.to_set() =~= was.to_set().insert(conn_id)) by {
                        assert forall|c: u64| self.conns@.to_set().contains(c)
                            <==> #[trigger] was.to_set().insert(conn_id).contains(c) by {
                            if was.contains(c) {
                                let j = choose|j: int| 0 <= j < was.len() && was[j] == c;
                                assert(self.conns@[j] == c);
                            }
                            if self.conns@.contains(c) && c != conn_id {
                                let j = choose|j: int|
                                    0 <= j < self.conns@.len() && self.conns@[j] == c;
                                assert(was[j] == c);
                            }
                            assert(self.conns@[was.len() as int] == conn_id);
                        }
                    }
                    assert(self.conns@.no_duplicates()) by {
                        assert forall|a: int, b: int|
                            0 <= a < self.conns@.len() && 0 <= b < self.conns@.len() && a
                                != b implies self.conns@[a] != self.conns@[b] by {
                            if a < was.len() && b < was.len() {
                                assert(was[a] != was[b]);
                            } else if a < was.len() {
                                assert(was.contains(was[a]));
                            } else {
                                assert(was.contains(was[b]));
                            }
                        }
                    }
                }
            },
        }
    }
}

proof fn lemma_inserted(s: Seq<SubKey>, pos: int, k: SubKey)
    requires
        lists(s, s.to_set()),
        0 <= pos <= s.len(),
        forall|j: int| 0 <= j < pos ==> sub_less(#[trigger] s[j], k),
        pos < s.len() ==> !sub_less(s[pos], k) && s[pos] != k,
    ensures
        lists(s.insert(pos, k), s.insert(pos, k).to_set()),
        s.insert(pos, k).to_set() == s.to_set().insert(k),
{
    let t = s.insert(pos, k);
    assert forall|a: int, b: int| 0 <= a < b < t.len() implies sub_less(
        #[trigger] t[a],
        #[trigger] t[b],
    ) by {
        let sa: int = if a < pos {
            a
        } else {
            a - 1
        };
        let sb: int = if b < pos {
            b
        } else {
            b - 1
        };
        if a == pos {
            assert(t[b] == s[sb]);
            lemma_sub_order(s[pos], k);
            if sb > pos {
                assert(sub_less(s[pos], s[sb]));
                lemma_sub_transitive(k, s[pos], s[sb]);
            }
        } else if b == pos {
            assert(t[a] == s[sa]);
        } else {
            assert(t[a] == s[sa] && t[b] == s[sb]);
        }
    }
    assert forall|x: SubKey| #[trigger] t.to_set().contains(x) <==> s.to_set().insert(k).contains(
        x,
    ) by {
        if t.contains(x) {
            let i = choose|i: int| 0 <= i < t.len() && t[i] == x;
            if i != pos {
                let j: int = if i < pos {
                    i
                } else {
                    i - 1
                };
                assert(s[j] == x);
            }
        }
        if s.contains(x) {
            let i = choose|i: int| 0 <= i < s.len() && s[i] == x;
            let j: int = if i < pos {
                i
            } else {
                i + 1
            };
            assert(t[j] == x);
        }
        assert(t[pos] == k);
    }
    assert(t.to_set() =~= s.to_set().insert(k));
}

proof fn lemma_removed(s: Seq<SubKey>, pos: int)
    requires
        lists(s, s.to_set()),
        0 <= pos < s.len(),
    ensures
        lists(s.remove(pos), s.remove(pos).to_set()),
        s.remove(pos).to_set() == s.to_set().remove(s[pos]),
{
    let t = s.remove(pos);
    assert forall|a: int, b: int| 0 <= a < b < t.len() implies sub_less(
        #[trigger] t[a],
        #[trigger] t[b],
    ) by {
        let sa: int = if a < pos {
            a
        } else {
            a + 1
        };
        let sb: int = if b < pos {
            b
        } else {
            b + 1
        };
        assert(t[a] == s[sa] && t[b] == s[sb]);
    }
    assert forall|x: SubKey| #[trigger] t.to_set().contains(x) <==> s.to_set().remove(
        s[pos],
    ).contains(x) by {
        if t.contains(x) {
            let i = choose|i: int| 0 <= i < t.len() && t[i] == x;
            let j: int = if i < pos {
                i
            } else {
                i + 1
            };
            assert(s[j] == x);
            lemma_sub_order(s[j], s[pos]);
            if j < pos {
                assert(sub_less(s[j], s[pos]));
            } else {
                assert(sub_less(s[pos], s[j]));
            }
        }
        if s.contains(x) && x != s[pos] {
            let i = choose|i: int| 0 <= i < s.len() && s[i] == x;
            let j: int = if i < pos {
                i
            } else {
                i - 1
            };
            assert(t[j] == x);
        }
    }
    assert(t.to_set() =~= s.to_set().remove(s[pos]));
}

impl PubSubService {
    /// Position at which a subscription stands, or would stand.
    fn place(&self, is_pattern: bool, name: &str, conn: u64) -> (r: (usize, bool))
        requires
            self.wf(),
        ensures
            ({
                let k = SubKey { is_pattern, name: name@, conn };
                let s = keys(self.entries@);
                &&& r.0 <= s.len()
                &&& r.1 == self@.subs.contains(k)
                &&& r.1 ==> r.0 < s.len() && s[r.0 as int] == k
                &&& forall|j: int| 0 <= j < r.0 ==> sub_less(#[trigger] s[j], k)
                &&& r.0 < s.len() ==> !sub_less(s[r.0 as int], k)
                &&& !r.1 && r.0 < s.len() ==> s[r.0 as int] != k
            }),
    {
        let ghost k = SubKey { is_pattern, name: name@, conn };
        let ghost s = keys(self.entries@);
        let mut pos: usize = 0;
        while pos < self.entries.len() && entry_less(
            self.entries[pos].is_pattern,
            self.entries[pos].name.as_str(),
            self.entries[pos].conn,
            is_pattern,
            name,
            conn,
        )
            invariant
                pos <= self.entries@.len(),
                s == keys(self.entries@),
                k == (SubKey { is_pattern, name: name@, conn }),
                forall|j: int| 0 <= j < pos ==> sub_less(#[trigger] s[j], k),
            decreases self.entries@.len() - pos,
        {
            assert(s[pos as int] == self.entries@[pos as int].key());
            pos = pos + 1;
        }
        let present: bool = pos < self.entries.len() && self.entries[pos].is_pattern == is_pattern
            && self.entries[pos].conn == conn && str_equal(self.entries[pos].name.as_str(), name);
        proof {
            if pos < s.len() {
                assert(s[pos as int] == self.entries@[pos as int].key());
            }
            if self@.subs.contains(k) {
                let i = choose|i: int| 0 <= i < s.len() && #[trigger] s[i] == k;
                lemma_sub_order(k, k);
                if i < pos {
                    assert(sub_less(s[i], k));
                }
                if i > pos {
                    assert(sub_less(s[pos as int], s[i]));
                }
                assert(i == pos);
            }
            if present {
                assert(s[pos as int] == k);
            }
        }
        (pos, present)
    }

    fn add(&mut self, is_pattern: bool, name: String, conn: u64)
        requires
            old(self).wf(),
        ensures
            final(self).wf(),
            final(self)@ == (Registry {
                subs: old(self)@.subs.insert(SubKey { is_pattern, name: name@, conn }),
                ..old(self)@
            }),
    {
        let ghost k = SubKey { is_pattern, name: name@, conn };
        let ghost s = keys(self.entries@);
        let (pos, present): (usize, bool) = self.place(is_pattern, name.as_str(), conn);
        if !present {
            proof {
                lemma_inserted(s, pos as int, k);
            }
            self.entries.insert(pos, Entry { is_pattern, name, conn });
            assert(keys(self.entries@) =~= s.insert(pos as int, k));
        } else {
            assert(self@.subs.insert(k) =~= self@.subs);
        }
    }

    fn drop_sub(&mut self, is_pattern: bool, name: &str, conn: u64)
        requires
            old(self).wf(),
        ensures
            final(self).wf(),
            final(self)@ == (Registry {
                subs: old(self)@.subs.remove(SubKey { is_pattern, name: name@, conn }),
                ..old(self)@
            }),
    {
        let ghost k = SubKey { is_pattern, name: name@, conn };
        let ghost s = keys(self.entries@);
        let (pos, present): (usize, bool) = self.place(is_pattern, name, conn);
        if present {
            proof {
                lemma_removed(s, pos as int);
            }
            self.entries.remove(pos);
            assert(keys(self.entries@) =~= s.remove(pos as int));
        } else {
            assert(self@.subs.remove(k) =~= self@.subs);
        }
    }

    /// How many subscriptions a connection holds.
    fn total_for_conn(&self, conn_id: u64) -> (r: usize)
        requires
            self.wf(),
        ensures
            held_by(self@.subs, conn_id).finite(),
            r == held_by(self@.subs, conn_id).len(),
    {
        let ghost s = keys(self.entries@);
        let ghost f = |k: SubKey| k.conn == conn_id;
        let mut count: usize = 0;
        let mut i: usize = 0;
        while i < self.entries.len()
            invariant
                i <= self.entries@.len(),
                s == keys(self.entries@),
                f == (|k: SubKey| k.conn == conn_id),
                count <= i,
                count == count_where(s.take(i as int), f),
            decreases self.entries@.len() - i,
        {
            assert(s.take(i + 1).drop_last() =~= s.take(i as int));
            assert(s.take(i + 1).last() == self.entries@[i as int].key());
            if self.entries[i].conn == conn_id {
                count = count + 1;
            }
            i = i + 1;
        }
        proof {
            assert(s.take(i as int) =~= s);
            lemma_count(s, self@.subs, f);
        }
        count
    }

    /// Drops a connection and all it subscribed to.
    pub fn cleanup_conn(&mut self, conn_id: u64)
        requires
            old(self).wf(),
        ensures
            final(self).wf(),
            final(self)@ == (Registry {
                subs: old(self)@.subs.filter(|k: SubKey| k.conn != conn_id),
                conns: old(self)@.conns.remove(conn_id),
                next_id: old(self)@.next_id,
            }),
    {
        let ghost all = self@.subs;
        let mut i: usize = 0;
        while i < self.entries.len()
            invariant
                self.wf(),
                all == old(self)@.subs,
                i <= self.entries@.len(),
                self@.conns == old(self)@.conns,
                self@.next_id == old(self)@.next_id,
                forall|j: int| 0 <= j < i ==> (#[trigger] keys(self.entries@)[j]).conn != conn_id,
                forall|k: SubKey| #[trigger] self@.subs.contains(k) ==> all.contains(k),
                forall|k: SubKey| #[trigger]
                    all.contains(k) && k.conn != conn_id ==> self@.subs.contains(k),
            decreases self.entries@.len() - i,
        {
            let ghost s = keys(self.entries@);
            assert(s[i as int] == self.entries@[i as int].key());
            if self.entries[i].conn == conn_id {
                proof {
                    lemma_removed(s, i as int);
                }
                self.entries.remove(i);
                proof {
                    let t = keys(self.entries@);
                    assert(t =~= s.remove(i as int));
                    assert forall|j: int| 0 <= j < i implies (#[trigger] t[j]).conn != conn_id by {
                        assert(t[j] == s[j]);
                    }
                }
            } else {
                i = i + 1;
            }
        }
        proof {
            let s = keys(self.entries@);
            assert forall|k: SubKey| #[trigger] self@.subs.contains(k) <==> all.filter(
                |k: SubKey| k.conn != conn_id,
            ).contains(k) by {
                if self@.subs.contains(k) {
                    let i = choose|i: int| 0 <= i < s.len() && #[trigger] s[i] == k;
                    assert(s[i].conn != conn_id);
                }
            }
            assert(self@.subs =~= all.filter(|k: SubKey| k.conn != conn_id));
        }
        match self.conn_position(conn_id) {
            Some(p) => {
                let ghost was = self.conns@;
                self.conns.remove(p);
                proof {
                    assert forall|c: u64| #[trigger] self.conns@.to_set().contains(c)
                        <==> was.to_set().remove(conn_id).contains(c) by {
                        if self.conns@.contains(c) {
                            let j = choose|j: int|
                                0 <= j < self.conns@.len() && self.conns@[j] == c;
                            let w: int = if j < p {
                                j
                            } else {
                                j + 1
                            };
                            assert(was[w] == c);
                            assert(was[w] != was[p as int]);
                        }
                        if was.contains(c) && c != conn_id {
                            let w = choose|w: int| 0 <= w < was.len() && was[w] == c;
                            let j: int = if w < p {
                                w
                            } else {
                                w - 1
                            };
                            assert(self.conns@[j] == c);
                        }
                    }
                    assert(self.conns@.to_set() =~= was.to_set().remove(conn_id));
                }
            },
            None => {
                assert(self@.conns.remove(conn_id) =~= self@.conns);
            },
        }
    }
}

// ---------------------------------------------------------------------------
// Subscribing and unsubscribing
// ---------------------------------------------------------------------------

/// Values of a list of acknowledgements.
pub open spec fn acks_view(s: Seq<SubAck>) -> Seq<AckView> {
    Seq::new(s.len(), |i: int| s[i]@)
}

/// Names that a list of byte strings stands for.
pub open spec fn names_in(items: Seq<Bytes>) -> Seq<Seq<char>> {
    Seq::new(items.len(), |i: int| lossy_text(bytes_of(items[i])))
}

/// Names that were sent as well-formed text are that text.
pub open spec fn names_as_sent(items: Seq<Bytes>) -> bool {
    forall|i: int|
        0 <= i < items.len() && valid_utf8(bytes_of(#[trigger] items[i])) ==> names_in(items)[i]
            == decode_utf8(bytes_of(items[i]))
}

/// The subscriptions once a connection has taken the first `n` of `names`.
pub open spec fn with_names(
    subs: Set<SubKey>,
    conn: u64,
    is_pattern: bool,
    names: Seq<Seq<char>>,
    n: int,
) -> Set<SubKey>
    decreases n,
{
    if n <= 0 {
        subs
    } else {
        with_names(subs, conn, is_pattern, names, n - 1).insert(
            SubKey { is_pattern, name: names[n - 1], conn },
        )
    }
}

/// The subscriptions once a connection has given up the first `n` of `names`.
pub open spec fn without_names(
    subs: Set<SubKey>,
    conn: u64,
    is_pattern: bool,
    names: Seq<Seq<char>>,
    n: int,
) -> Set<SubKey>
    decreases n,
{
    if n <= 0 {
        subs
    } else {
        without_names(subs, conn, is_pattern, names, n - 1).remove(
            SubKey { is_pattern, name: names[n - 1], conn },
        )
    }
}

/// What subscribing to `items` does: one acknowledgement for each, with the
/// total that the connection then holds. A connection that is not registered
/// gets none, and nothing changes.
pub open spec fn subscribe_outcome(
    m: Registry,
    conn: u64,
    is_pattern: bool,
    items: Seq<Bytes>,
) -> (Registry, Seq<AckView>) {
    if m.conns.contains(conn) {
        let names = names_in(items);
        (
            Registry {
                subs: with_names(m.subs, conn, is_pattern, names, items.len() as int),
                ..m
            },
            Seq::new(
                items.len(),
                |i: int|
                    AckView {
                        channel: bytes_of(items[i]),
                        is_pattern,
                        total: held_by(
                            with_names(m.subs, conn, is_pattern, names, i + 1),
                            conn,
                        ).len(),
                    },
            ),
        )
    } else {
        (m, Seq::empty())
    }
}

/// The subscriptions of one kind that carry these names.
pub open spec fn keys_named(names: Seq<Seq<char>>, is_pattern: bool, conn: u64) -> Seq<SubKey> {
    Seq::new(names.len(), |i: int| SubKey { is_pattern, name: names[i], conn })
}

/// The names that an unsubscribe is about: those given, or, where none are,
/// all that the connection holds of that kind, in order.
pub open spec fn are_targets(
    m: Registry,
    conn: u64,
    is_pattern: bool,
    items: Option<&[Bytes]>,
    names: Seq<Seq<char>>,
) -> bool {
    match items {
        Some(given) if given@.len() > 0 => names == names_in(given@),
        _ => lists(
            keys_named(names, is_pattern, conn),
            m.subs.filter(|k: SubKey| k.conn == conn && k.is_pattern == is_pattern),
        ),
    }
}

/// What giving up `names` does: one acknowledgement for each; a single one
/// without a channel where there is no name.
pub open spec fn unsubscribe_acks(
    m: Registry,
    conn: u64,
    is_pattern: bool,
    names: Seq<Seq<char>>,
) -> Seq<AckView> {
    if names.len() == 0 {
        seq![
            AckView {
                channel: Seq::empty(),
                is_pattern,
                total: held_by(m.subs, conn).len(),
            },
        ]
    } else {
        Seq::new(
            names.len(),
            |i: int|
                AckView {
                    channel: encode_utf8(names[i]),
                    is_pattern,
                    total: held_by(
                        without_names(m.subs, conn, is_pattern, names, i + 1),
                        conn,
                    ).len(),
                },
        )
    }
}

impl PubSubService {
    fn subscribe_inner(&mut self, conn_id: u64, items: &[Bytes], is_pattern: bool) -> (r: Vec<
        SubAck,
    >)
        requires
            old(self).wf(),
        ensures
            final(self).wf(),
            (final(self)@, acks_view(r@)) == subscribe_outcome(
                old(self)@,
                conn_id,
                is_pattern,
                items@,
            ),
            old(self)@.conns.contains(conn_id) ==> names_as_sent(items@),
    {
        let ghost m = self@;
        let mut out: Vec<SubAck> = Vec::new();
        match self.conn_position(conn_id) {
            Some(p) => {
                assert(self.conns@[p as int] == conn_id);
                assert(m.conns.contains(conn_id));
            },
            None => {
                assert(acks_view(out@) =~= Seq::<AckView>::empty());
                return out;
            },
        }
        let ghost names = names_in(items@);
        let ghost expected = subscribe_outcome(m, conn_id, is_pattern, items@).1;
        let mut i: usize = 0;
        while i < items.len()
            invariant
                self.wf(),
                i <= items@.len(),
                names == names_in(items@),
                expected == subscribe_outcome(m, conn_id, is_pattern, items@).1,
                m.conns.contains(conn_id),
                self@ == (Registry {
                    subs: with_names(m.subs, conn_id, is_pattern, names, i as int),
                    ..m
                }),
                out@.len() == i,
                forall|j: int| 0 <= j < i ==> (#[trigger] out@[j])@ == expected[j],
                forall|j: int|
                    0 <= j < i && valid_utf8(bytes_of(#[trigger] items@[j])) ==> names[j]
                        == decode_utf8(bytes_of(items@[j])),
            decreases items@.len() - i,
        {
            let name: String = string_from_utf8_lossy(bytes_slice(&items[i]));
            assert(name@ == names[i as int]);
            self.add(is_pattern, name, conn_id);
            let total: usize = self.total_for_conn(conn_id);
            out.push(
                SubAck { channel: bytes_clone(&items[i]), is_pattern, total_subscriptions: total },
            );
            i = i + 1;
        }
        assert(acks_view(out@) =~= expected);
        out
    }

    /// Subscribes a connection to channels.
    pub fn subscribe(&mut self, conn_id: u64, channels: &[Bytes]) -> (r: Vec<SubAck>)
        requires
            old(self).wf(),
        ensures
            final(self).wf(),
            (final(self)@, acks_view(r@)) == subscribe_outcome(
                old(self)@,
                conn_id,
                false,
                channels@,
            ),
            old(self)@.conns.contains(conn_id) ==> names_as_sent(channels@),
    {
        self.subscribe_inner(conn_id, channels, false)
    }

    /// Subscribes a connection to patterns.
    pub fn psubscribe(&mut self, conn_id: u64, patterns: &[Bytes]) -> (r: Vec<SubAck>)
        requires
            old(self).wf(),
        ensures
            final(self).wf(),
            (final(self)@, acks_view(r@)) == subscribe_outcome(
                old(self)@,
                conn_id,
                true,
                patterns@,
            ),
            old(self)@.conns.contains(conn_id) ==> names_as_sent(patterns@),
    {
        self.subscribe_inner(conn_id, patterns, true)
    }

    /// The names of one kind that a connection holds, in order.
    fn names_held(&self, conn_id: u64, is_pattern: bool) -> (r: Vec<String>)
        requires
            self.wf(),
        ensures
            ({
                let names = Seq::new(r@.len(), |i: int| r@[i]@);
                lists(
                    keys_named(names, is_pattern, conn_id),
                    self@.subs.filter(
                        |k: SubKey| k.conn == conn_id && k.is_pattern == is_pattern,
                    ),
                )
            }),
    {
        let ghost s = keys(self.entries@);
        let mut out: Vec<String> = Vec::new();
        let ghost mut from: Seq<int> = Seq::empty();
        let mut i: usize = 0;
        while i < self.entries.len()
            invariant
                i <= self.entries@.len(),
                s == keys(self.entries@),
                from.len() == out@.len(),
                forall|a: int|
                    0 <= a < from.len() ==> 0 <= #[trigger] from[a] < i && s[from[a]] == (SubKey {
                        is_pattern,
                        name: out@[a]@,
                        conn: conn_id,
                    }),
                forall|a: int, b: int|
                    0 <= a < b < from.len() ==> #[trigger] from[a] < #[trigger] from[b],
                forall|j: int|
                    0 <= j < i && (#[trigger] s[j]).conn == conn_id && s[j].is_pattern
                        == is_pattern ==> exists|a: int|
                        0 <= a < from.len() && #[trigger] from[a] == j,
            decreases self.entries@.len() - i,
        {
            let ghost before = from;
            assert(s[i as int] == self.entries@[i as int].key());
            if self.entries[i].conn == conn_id && self.entries[i].is_pattern == is_pattern {
                out.push(self.entries[i].name.clone());
                proof {
                    from = from.push(i as int);
                    assert(from[before.len() as int] == i);
                }
            }
            proof {
                assert forall|j: int|
                    0 <= j < i + 1 && (#[trigger] s[j]).conn == conn_id && s[j].is_pattern
                        == is_pattern implies exists|a: int|
                    0 <= a < from.len() && #[trigger] from[a] == j by {
                    if j < i {
                        let a = choose|a: int| 0 <= a < before.len() && #[trigger] before[a] == j;
                        assert(from[a] == j);
                    }
                }
            }
            i = i + 1;
        }
        proof {
            let names = Seq::new(out@.len(), |i: int| out@[i]@);
            let t = keys_named(names, is_pattern, conn_id);
            let set = self@.subs.filter(|k: SubKey| k.conn == conn_id && k.is_pattern == is_pattern);
            assert forall|a: int| 0 <= a < t.len() implies #[trigger] t[a] == s[from[a]] by {
                assert(0 <= from[a] < i);
            }
            assert forall|a: int, b: int| 0 <= a < b < t.len() implies sub_less(
                #[trigger] t[a],
                #[trigger] t[b],
            ) by {
                assert(from[a] < from[b]);
                assert(sub_less(s[from[a]], s[from[b]]));
            }
            assert forall|k: SubKey| #[trigger] set.contains(k) <==> exists|a: int|
                0 <= a < t.len() && #[trigger] t[a] == k by {
                if set.contains(k) {
                    let j = choose|j: int| 0 <= j < s.len() && #[trigger] s[j] == k;
                    let a = choose|a: int| 0 <= a < from.len() && #[trigger] from[a] == j;
                    assert(t[a] == k);
                }
                if exists|a: int| 0 <= a < t.len() && #[trigger] t[a] == k {
                    let a = choose|a: int| 0 <= a < t.len() && #[trigger] t[a] == k;
                    assert(s[from[a]] == k);
                }
            }
        }
        out
    }

    fn unsubscribe_inner(
        &mut self,
        conn_id: u64,
        items: Option<&[Bytes]>,
        is_pattern: bool,
    ) -> (r: Vec<SubAck>)
        requires
            old(self).wf(),
        ensures
            final(self).wf(),
            exists|names: Seq<Seq<char>>|
                {
                    &&& #[trigger] are_targets(old(self)@, conn_id, is_pattern, items, names)
                    &&& acks_view(r@) == unsubscribe_acks(old(self)@, conn_id, is_pattern, names)
                    &&& final(self)@ == (Registry {
                        subs: without_names(
                            old(self)@.subs,
                            conn_id,
                            is_pattern,
                            names,
                            names.len() as int,
                        ),
                        ..old(self)@
                    })
                },
    {
        let ghost m = self@;
        let mut targets: Vec<String> = Vec::new();
        let mut given: bool = false;
        if let Some(list) = items {
            if list.len() > 0 {
                given = true;
                let mut i: usize = 0;
                while i < list.len()
                    invariant
                        i <= list@.len(),
                        targets@.len() == i,
                        forall|j: int|
                            0 <= j < i ==> (#[trigger] targets@[j])@ == names_in(list@)[j],
                    decreases list@.len() - i,
                {
                    let name: String = string_from_utf8_lossy(bytes_slice(&list[i]));
                    assert(name@ == names_in(list@)[i as int]);
                    targets.push(name);
                    i = i + 1;
                }
                assert(Seq::new(targets@.len(), |i: int| targets@[i]@) =~= names_in(list@));
            }
        }
        if !given {
            targets = self.names_held(conn_id, is_pattern);
        }
        let ghost names = Seq::new(targets@.len(), |i: int| targets@[i]@);
        assert(are_targets(m, conn_id, is_pattern, items, names));
        let mut out: Vec<SubAck> = Vec::new();
        if targets.len() == 0 {
            let total: usize = self.total_for_conn(conn_id);
            out.push(
                SubAck {
                    channel: bytes_from_vec(Vec::new()),
                    is_pattern,
                    total_subscriptions: total,
                },
            );
            assert(acks_view(out@) =~= unsubscribe_acks(m, conn_id, is_pattern, names));
            return out;
        }
        let ghost expected = unsubscribe_acks(m, conn_id, is_pattern, names);
        let mut i: usize = 0;
        while i < targets.len()
            invariant
                self.wf(),
                i <= targets@.len(),
                targets@.len() > 0,
                names == Seq::new(targets@.len(), |i: int| targets@[i]@),
                expected == unsubscribe_acks(m, conn_id, is_pattern, names),
                self@ == (Registry {
                    subs: without_names(m.subs, conn_id, is_pattern, names, i as int),
                    ..m
                }),
                out@.len() == i,
                forall|j: int| 0 <= j < i ==> (#[trigger] out@[j])@ == expected[j],
            decreases targets@.len() - i,
        {
            let name: &str = targets[i].as_str();
            assert(name@ == names[i as int]);
            self.drop_sub(is_pattern, name, conn_id);
            let total: usize = self.total_for_conn(conn_id);
            out.push(
                SubAck {
                    channel: bytes_from_slice(name.as_bytes()),
                    is_pattern,
                    total_subscriptions: total,
                },
            );
            i = i + 1;
        }
        assert(acks_view(out@) =~= expected);
        out
    }

    /// Unsubscribes a connection from channels; from all of them where none are
    /// given.
    pub fn unsubscribe(&mut self, conn_id: u64, channels: Option<&[Bytes]>) -> (r: Vec<SubAck>)
        requires
            old(self).wf(),
        ensures
            final(self).wf(),
            exists|names: Seq<Seq<char>>|
                {
                    &&& #[trigger] are_targets(old(self)@, conn_id, false, channels, names)
                    &&& acks_view(r@) == unsubscribe_acks(old(self)@, conn_id, false, names)
                    &&& final(self)@ == (Registry {
                        subs: without_names(
                            old(self)@.subs,
                            conn_id,
                            false,
                            names,
                            names.len() as int,
                        ),
                        ..old(self)@
                    })
                },
    {
        self.unsubscribe_inner(conn_id, channels, false)
    }

    /// Unsubscribes a connection from patterns; from all of them where none are
    /// given.
    pub fn punsubscribe(&mut self, conn_id: u64, patterns: Option<&[Bytes]>) -> (r: Vec<SubAck>)
        requires
            old(self).wf(),
        ensures
            final(self).wf(),
            exists|names: Seq<Seq<char>>|
                {
                    &&& #[trigger] are_targets(old(self)@, conn_id, true, patterns, names)
                    &&& acks_view(r@) == unsubscribe_acks(old(self)@, conn_id, true, names)
                    &&& final(self)@ == (Registry {
                        subs: without_names(
                            old(self)@.subs,
                            conn_id,
                            true,
                            names,
                            names.len() as int,
                        ),
                        ..old(self)@
                    })
                },
    {
        self.unsubscribe_inner(conn_id, patterns, true)
    }
}

// ---------------------------------------------------------------------------
// Publishing and asking
// ---------------------------------------------------------------------------

/// The subscriptions that a list of deliveries serves.
pub open spec fn served_by(s: Seq<Delivery>) -> Seq<SubKey> {
    Seq::new(s.len(), |i: int| served(s[i]))
}

/// Texts of a list of strings.
pub open spec fn names_of(s: Seq<String>) -> Seq<Seq<char>> {
    Seq::new(s.len(), |i: int| s[i]@)
}

/// Names in order, each once.
pub open spec fn ordered_names(names: Seq<Seq<char>>) -> bool {
    forall|i: int, j: int|
        0 <= i < j < names.len() ==> lex_less(
            encode_utf8(#[trigger] names[i]),
            encode_utf8(#[trigger] names[j]),
        )
}

/// Whether one of the first `n` subscriptions carries this name.
spec fn named_before(s: Seq<SubKey>, n: int, name: Seq<char>) -> bool {
    exists|j: int| 0 <= j < n && (#[trigger] s[j]).name == name
}

/// Whether `pattern` stands for `name`.
pub open spec fn wanted(pattern: Seq<char>, name: Seq<char>) -> bool {
    glob(encode_utf8(pattern), encode_utf8(name))
}

/// `names` are the channels with a subscriber that `pattern`, where one is
/// given, stands for: in order, each once.
pub open spec fn are_channels(
    subs: Set<SubKey>,
    pattern: Option<Seq<char>>,
    names: Seq<Seq<char>>,
) -> bool {
    &&& ordered_names(names)
    &&& forall|n: Seq<char>| #[trigger]
        names.contains(n) <==> (has_subscriber(subs, false, n) && (pattern matches Some(p)
            ==> wanted(p, n)))
}

/// Whether anybody subscribes to the channel, or the pattern, `name`.
pub open spec fn has_subscriber(subs: Set<SubKey>, is_pattern: bool, name: Seq<char>) -> bool {
    exists|conn: u64| #[trigger] subs.contains(SubKey { is_pattern, name, conn })
}

/// The subscriptions to the channel `name`.
pub open spec fn subscribers(subs: Set<SubKey>, name: Seq<char>) -> Set<SubKey> {
    subs.filter(|k: SubKey| !k.is_pattern && k.name == name)
}

/// The patterns that somebody subscribes to.
pub open spec fn patterns_in(subs: Set<SubKey>) -> Set<Seq<char>> {
    Set::new(|name: Seq<char>| has_subscriber(subs, true, name))
}

impl PubSubService {
    /// Works out who hears `message` on the channel that `channel` names.
    pub fn publish(&self, channel: &Bytes, message: &Bytes) -> (r: Vec<Delivery>)
        requires
            self.wf(),
        ensures
            lists(
                served_by(r@),
                self@.subs.filter(|k: SubKey| hears(k, lossy_text(bytes_of(*channel)))),
            ),
            forall|i: int|
                0 <= i < r@.len() ==> (#[trigger] r@[i]).message.channel@ == lossy_text(
                    bytes_of(*channel),
                ) && bytes_of(r@[i].message.payload) == bytes_of(*message),
    {
        let name: String = string_from_utf8_lossy(bytes_slice(channel));
        self.publish_local(name.as_str(), message)
    }

    /// Works out who hears `payload` on `channel`: one delivery for each
    /// subscription that matches, exact ones first.
    pub fn publish_local(&self, channel: &str, payload: &Bytes) -> (r: Vec<Delivery>)
        requires
            self.wf(),
        ensures
            lists(served_by(r@), self@.subs.filter(|k: SubKey| hears(k, channel@))),
            forall|i: int|
                0 <= i < r@.len() ==> (#[trigger] r@[i]).message.channel@ == channel@ && bytes_of(
                    r@[i].message.payload,
                ) == bytes_of(*payload),
    {
        let ghost s = keys(self.entries@);
        let mut out: Vec<Delivery> = Vec::new();
        let ghost mut from: Seq<int> = Seq::empty();
        let mut i: usize = 0;
        while i < self.entries.len()
            invariant
                i <= self.entries@.len(),
                s == keys(self.entries@),
                from.len() == out@.len(),
                forall|a: int|
                    0 <= a < from.len() ==> 0 <= #[trigger] from[a] < i && served(out@[a])
                        == s[from[a]] && hears(s[from[a]], channel@),
                forall|a: int, b: int|
                    0 <= a < b < from.len() ==> #[trigger] from[a] < #[trigger] from[b],
                forall|j: int|
                    0 <= j < i && hears(#[trigger] s[j], channel@) ==> exists|a: int|
                        0 <= a < from.len() && #[trigger] from[a] == j,
                forall|a: int|
                    0 <= a < out@.len() ==> (#[trigger] out@[a]).message.channel@ == channel@
                        && bytes_of(out@[a].message.payload) == bytes_of(*payload),
            decreases self.entries@.len() - i,
        {
            let ghost before = from;
            assert(s[i as int] == self.entries@[i as int].key());
            let e: &Entry = &self.entries[i];
            let matched: bool = if e.is_pattern {
                pattern_matches(e.name.as_str(), channel)
            } else {
                str_equal(e.name.as_str(), channel)
            };
            if matched {
                let pattern: Option<String> = if e.is_pattern {
                    Some(e.name.clone())
                } else {
                    None
                };
                out.push(
                    Delivery {
                        conn_id: e.conn,
                        message: DeliveredMessage {
                            channel: channel.to_owned(),
                            pattern,
                            payload: bytes_clone(payload),
                        },
                    },
                );
                proof {
                    from = from.push(i as int);
                    assert(from[before.len() as int] == i);
                }
            }
            proof {
                assert forall|j: int|
                    0 <= j < i + 1 && hears(#[trigger] s[j], channel@) implies exists|a: int|
                    0 <= a < from.len() && #[trigger] from[a] == j by {
                    if j < i {
                        let a = choose|a: int| 0 <= a < before.len() && #[trigger] before[a] == j;
                        assert(from[a] == j);
                    }
                }
            }
            i = i + 1;
        }
        proof {
            let t = served_by(out@);
            let set = self@.subs.filter(|k: SubKey| hears(k, channel@));
            assert forall|a: int| 0 <= a < t.len() implies #[trigger] t[a] == s[from[a]] by {
                assert(0 <= from[a] < i);
            }
            assert forall|a: int, b: int| 0 <= a < b < t.len() implies sub_less(
                #[trigger] t[a],
                #[trigger] t[b],
            ) by {
                assert(from[a] < from[b]);
                assert(sub_less(s[from[a]], s[from[b]]));
            }
            assert forall|k: SubKey| #[trigger] set.contains(k) <==> exists|a: int|
                0 <= a < t.len() && #[trigger] t[a] == k by {
                if set.contains(k) {
                    let j = choose|j: int| 0 <= j < s.len() && #[trigger] s[j] == k;
                    let a = choose|a: int| 0 <= a < from.len() && #[trigger] from[a] == j;
                    assert(t[a] == k);
                }
                if exists|a: int| 0 <= a < t.len() && #[trigger] t[a] == k {
                    let a = choose|a: int| 0 <= a < t.len() && #[trigger] t[a] == k;
                    assert(hears(s[from[a]], channel@));
                    assert(s[from[a]] == k);
                }
            }
        }
        out
    }

    /// The names of exact subscriptions, in order, each once.
    fn channel_names(&self) -> (r: Vec<String>)
        requires
            self.wf(),
        ensures
            ordered_names(names_of(r@)),
            forall|n: Seq<char>| #[trigger]
                names_of(r@).contains(n) <==> has_subscriber(self@.subs, false, n),
    {
        let ghost s = keys(self.entries@);
        let mut out: Vec<String> = Vec::new();
        let mut i: usize = 0;
        while i < self.entries.len() && !self.entries[i].is_pattern
            invariant
                lists(s, self@.subs),
                i <= self.entries@.len(),
                s == keys(self.entries@),
                ordered_names(names_of(out@)),
                i > 0 ==> out@.len() > 0 && names_of(out@).last() == s[i - 1].name,
                forall|j: int| 0 <= j < i ==> !(#[trigger] s[j]).is_pattern,
                forall|j: int| 0 <= j < i ==> names_of(out@).contains((#[trigger] s[j]).name),
                forall|a: int|
                    0 <= a < out@.len() ==> named_before(s, i as int, #[trigger] names_of(out@)[a]),
            decreases self.entries@.len() - i,
        {
            let ghost names = names_of(out@);
            assert(s[i as int] == self.entries@[i as int].key());
            let n: usize = out.len();
            let repeated: bool = n > 0 && str_equal(
                out[n - 1].as_str(),
                self.entries[i].name.as_str(),
            );
            if !repeated {
                out.push(self.entries[i].name.clone());
                proof {
                    let name = s[i as int].name;
                    let now = names_of(out@);
                    assert(now =~= names.push(name));
                    if i > 0 {
                        assert(sub_less(s[i - 1], s[i as int]));
                        assert forall|a: int| 0 <= a < names.len() implies lex_less(
                            encode_utf8(#[trigger] names[a]),
                            encode_utf8(name),
                        ) by {
                            if a < names.len() - 1 {
                                lemma_lex_transitive(
                                    encode_utf8(names[a]),
                                    encode_utf8(names.last()),
                                    encode_utf8(name),
                                );
                            }
                        }
                    }
                    assert(now[names.len() as int] == name);
                    assert(named_before(s, i + 1, name));
                    assert forall|j: int| 0 <= j < i implies now.contains(
                        (#[trigger] s[j]).name,
                    ) by {
                        let a = choose|a: int| 0 <= a < names.len() && names[a] == s[j].name;
                        assert(now[a] == s[j].name);
                    }
                }
            }
            proof {
                let now = names_of(out@);
                assert forall|a: int| 0 <= a < out@.len() implies named_before(
                    s,
                    i + 1,
                    #[trigger] now[a],
                ) by {
                    if a < names.len() {
                        assert(now[a] == names[a]);
                        let j = choose|j: int| 0 <= j < i && (#[trigger] s[j]).name == names[a];
                        assert(0 <= j < i + 1 && s[j].name == now[a]);
                    }
                }
            }
            i = i + 1;
        }
        proof {
            let names = names_of(out@);
            assert forall|n: Seq<char>| #[trigger] names.contains(n) <==> has_subscriber(
                self@.subs,
                false,
                n,
            ) by {
                if names.contains(n) {
                    let a = choose|a: int| 0 <= a < names.len() && names[a] == n;
                    let j = choose|j: int| 0 <= j < i && (#[trigger] s[j]).name == names[a];
                    assert(self@.subs.contains(s[j]));
                    assert(s[j] == SubKey { is_pattern: false, name: n, conn: s[j].conn });
                }
                if has_subscriber(self@.subs, false, n) {
                    let conn = choose|conn: u64| #[trigger]
                        self@.subs.contains(SubKey { is_pattern: false, name: n, conn });
                    let k = SubKey { is_pattern: false, name: n, conn };
                    let j = choose|j: int| 0 <= j < s.len() && #[trigger] s[j] == k;
                    if j >= i {
                        assert(s[i as int] == self.entries@[i as int].key());
                        if j > i {
                            assert(sub_less(s[i as int], s[j]));
                        }
                    }
                }
            }
        }
        out
    }

    /// The channels that somebody subscribes to, in order; only those that
    /// `pattern` stands for, where one is given.
    pub fn pubsub_channels(&self, pattern: Option<&str>) -> (r: Vec<String>)
        requires
            self.wf(),
        ensures
            are_channels(
                self@.subs,
                match pattern {
                    Some(p) => Some(p@),
                    None => None,
                },
                names_of(r@),
            ),
    {
        let all: Vec<String> = self.channel_names();
        let p: &str = match pattern {
            Some(p) => p,
            None => {
                return all;
            },
        };
        let ghost names = names_of(all@);
        let mut out: Vec<String> = Vec::new();
        let ghost mut from: Seq<int> = Seq::empty();
        let mut i: usize = 0;
        while i < all.len()
            invariant
                i <= all@.len(),
                names == names_of(all@),
                from.len() == out@.len(),
                forall|a: int|
                    0 <= a < from.len() ==> 0 <= #[trigger] from[a] < i && names[from[a]]
                        == out@[a]@ && wanted(p@, names[from[a]]),
                forall|a: int, b: int|
                    0 <= a < b < from.len() ==> #[trigger] from[a] < #[trigger] from[b],
                forall|j: int|
                    0 <= j < i && wanted(p@, #[trigger] names[j]) ==> exists|a: int|
                        0 <= a < from.len() && #[trigger] from[a] == j,
            decreases all@.len() - i,
        {
            let ghost before = from;
            assert(names[i as int] == all@[i as int]@);
            if pattern_matches(p, all[i].as_str()) {
                out.push(all[i].clone());
                proof {
                    from = from.push(i as int);
                    assert(from[before.len() as int] == i);
                }
            }
            proof {
                assert forall|j: int|
                    0 <= j < i + 1 && wanted(p@, #[trigger] names[j]) implies exists|a: int|
                    0 <= a < from.len() && #[trigger] from[a] == j by {
                    if j < i {
                        let a = choose|a: int| 0 <= a < before.len() && #[trigger] before[a] == j;
                        assert(from[a] == j);
                    }
                }
            }
            i = i + 1;
        }
        proof {
            let kept = names_of(out@);
            assert forall|a: int, b: int| 0 <= a < b < kept.len() implies lex_less(
                encode_utf8(#[trigger] kept[a]),
                encode_utf8(#[trigger] kept[b]),
            ) by {
                assert(from[a] < from[b]);
                assert(names[from[a]] == kept[a] && names[from[b]] == kept[b]);
            }
            assert forall|n: Seq<char>| #[trigger] kept.contains(n) <==> (has_subscriber(
                self@.subs,
                false,
                n,
            ) && wanted(p@, n)) by {
                if kept.contains(n) {
                    let a = choose|a: int| 0 <= a < kept.len() && kept[a] == n;
                    assert(names[from[a]] == n);
                    assert(names.contains(n));
                }
                if has_subscriber(self@.subs, false, n) && wanted(p@, n) {
                    assert(names.contains(n));
                    let j = choose|j: int| 0 <= j < names.len() && names[j] == n;
                    let a = choose|a: int| 0 <= a < from.len() && #[trigger] from[a] == j;
                    assert(kept[a] == n);
                }
            }
        }
        out
    }

    fn count_subscribers(&self, name: &str) -> (r: usize)
        requires
            self.wf(),
        ensures
            subscribers(self@.subs, name@).finite(),
            r == subscribers(self@.subs, name@).len(),
    {
        let ghost s = keys(self.entries@);
        let ghost f = |k: SubKey| !k.is_pattern && k.name == name@;
        let mut count: usize = 0;
        let mut i: usize = 0;
        while i < self.entries.len()
            invariant
                i <= self.entries@.len(),
                s == keys(self.entries@),
                f == (|k: SubKey| !k.is_pattern && k.name == name@),
                count <= i,
                count == count_where(s.take(i as int), f),
            decreases self.entries@.len() - i,
        {
            assert(s.take(i + 1).drop_last() =~= s.take(i as int));
            assert(s.take(i + 1).last() == self.entries@[i as int].key());
            if !self.entries[i].is_pattern && str_equal(self.entries[i].name.as_str(), name) {
                count = count + 1;
            }
            i = i + 1;
        }
        proof {
            assert(s.take(i as int) =~= s);
            lemma_count(s, self@.subs, f);
        }
        count
    }

    /// How many subscribers each of the channels has. Patterns do not count.
    pub fn pubsub_numsub(&self, channels: &[Bytes]) -> (r: Vec<(Bytes, usize)>)
        requires
            self.wf(),
        ensures
            r@.len() == channels@.len(),
            forall|i: int|
                0 <= i < r@.len() ==> bytes_of((#[trigger] r@[i]).0) == bytes_of(channels@[i])
                    && r@[i].1 == subscribers(self@.subs, names_in(channels@)[i]).len(),
    {
        let mut out: Vec<(Bytes, usize)> = Vec::new();
        let mut i: usize = 0;
        while i < channels.len()
            invariant
                self.wf(),
                i <= channels@.len(),
                out@.len() == i,
                forall|j: int|
                    0 <= j < i ==> bytes_of((#[trigger] out@[j]).0) == bytes_of(channels@[j])
                        && out@[j].1 == subscribers(self@.subs, names_in(channels@)[j]).len(),
            decreases channels@.len() - i,
        {
            let name: String = string_from_utf8_lossy(bytes_slice(&channels[i]));
            let count: usize = self.count_subscribers(name.as_str());
            out.push((bytes_clone(&channels[i]), count));
            i = i + 1;
        }
        out
    }

    /// How many different patterns are subscribed to.
    pub fn pubsub_numpat(&self) -> (r: usize)
        requires
            self.wf(),
        ensures
            patterns_in(self@.subs).finite(),
            r == patterns_in(self@.subs).len(),
    {
        let ghost s = keys(self.entries@);
        let ghost mut seen: Set<Seq<char>> = Set::empty();
        let mut count: usize = 0;
        let mut last: Option<usize> = None;
        let mut i: usize = 0;
        while i < self.entries.len()
            invariant
                self.wf(),
                i <= self.entries@.len(),
                s == keys(self.entries@),
                count <= i,
                seen.finite(),
                seen.len() == count,
                forall|n: Seq<char>| #[trigger]
                    seen.contains(n) <==> exists|j: int|
                        0 <= j < i && (#[trigger] s[j]).is_pattern && s[j].name == n,
                match last {
                    Some(l) => l < i && s[l as int].is_pattern && forall|j: int|
                        l < j < i ==> (#[trigger] s[j]).name == s[l as int].name,
                    None => forall|j: int| 0 <= j < i ==> !(#[trigger] s[j]).is_pattern,
                },
            decreases self.entries@.len() - i,
        {
            assert(s[i as int] == self.entries@[i as int].key());
            let ghost was = seen;
            if self.entries[i].is_pattern {
                let repeated: bool = match last {
                    Some(l) => {
                        assert(s[l as int] == self.entries@[l as int].key());
                        str_equal(self.entries[l].name.as_str(), self.entries[i].name.as_str())
                    },
                    None => false,
                };
                if !repeated {
                    proof {
                        let n = s[i as int].name;
                        if seen.contains(n) {
                            let j = choose|j: int|
                                0 <= j < i && (#[trigger] s[j]).is_pattern && s[j].name == n;
                            let l = last->0 as int;
                            if j > l {
                                assert(s[j].name == s[l].name);
                            } else if j < l {
                                assert(sub_less(s[j], s[l]));
                                assert(sub_less(s[l], s[i as int]));
                                lemma_lex_total(encode_utf8(s[j].name), encode_utf8(s[l].name));
                            }
                        }
                        seen = seen.insert(n);
                    }
                    count = count + 1;
                }
                last = Some(i);
            } else {
                assert(last is None) by {
                    if last is Some {
                        assert(sub_less(s[last->0 as int], s[i as int]));
                    }
                }
            }
            proof {
                assert forall|n: Seq<char>| #[trigger] seen.contains(n) <==> exists|j: int|
                    0 <= j < i + 1 && (#[trigger] s[j]).is_pattern && s[j].name == n by {
                    if was.contains(n) {
                        let j = choose|j: int|
                            0 <= j < i && (#[trigger] s[j]).is_pattern && s[j].name == n;
                        assert(0 <= j < i + 1 && s[j].is_pattern);
                    }
                    if exists|j: int|
                        0 <= j < i + 1 && (#[trigger] s[j]).is_pattern && s[j].name == n {
                        let j = choose|j: int|
                            0 <= j < i + 1 && (#[trigger] s[j]).is_pattern && s[j].name == n;
                        if j == i && seen == was {
                            assert(s[last->0 as int].is_pattern);
                        }
                    }
                }
            }
            i = i + 1;
        }
        proof {
            assert forall|n: Seq<char>| #[trigger] seen.contains(n) <==> patterns_in(
                self@.subs,
            ).contains(n) by {
                if seen.contains(n) {
                    let j = choose|j: int|
                        0 <= j < i && (#[trigger] s[j]).is_pattern && s[j].name == n;
                    assert(self@.subs.contains(s[j]));
                    assert(s[j] == SubKey { is_pattern: true, name: n, conn: s[j].conn });
                }
                if has_subscriber(self@.subs, true, n) {
                    let conn = choose|conn: u64| #[trigger]
                        self@.subs.contains(SubKey { is_pattern: true, name: n, conn });
                    let k = SubKey { is_pattern: true, name: n, conn };
                    let j = choose|j: int| 0 <= j < s.len() && #[trigger] s[j] == k;
                    assert(s[j].is_pattern && s[j].name == n);
                }
            }
            assert(seen =~= patterns_in(self@.subs));
        }
        count
    }
}

impl Default for PubSubService {
    fn default() -> (r: Self)
        ensures
            r.wf(),
            r@ == (Registry { subs: Set::empty(), conns: Set::empty(), next_id: 1 }),
    {
        PubSubService::new()
    }
}

/// Pub/sub of a single node: publishing reaches the local subscribers only.
#[derive(Debug)]
pub struct LocalPubSubProvider {
    service: PubSubService,
}

impl LocalPubSubProvider {
    /// The registry behind the provider.
    pub closed spec fn registry(&self) -> PubSubService {
        self.service
    }

    /// Wraps a registry.
    pub fn new(service: PubSubService) -> (r: Self)
        ensures
            r.registry() == service,
    {
        LocalPubSubProvider { service }
    }

    /// The registry.
    pub fn service(&self) -> (r: &PubSubService)
        ensures
            *r == self.registry(),
    {
        &self.service
    }

    /// The registry, to subscribe through.
    pub fn into_service(self) -> (r: PubSubService)
        ensures
            r == self.registry(),
    {
        self.service
    }

    /// Works out who hears `message` on the channel that `channel` names.
    pub fn publish(&self, channel: &Bytes, message: &Bytes) -> (r: Vec<Delivery>)
        requires
            self.registry().wf(),
        ensures
            lists(
                served_by(r@),
                self.registry()@.subs.filter(
                    |k: SubKey| hears(k, lossy_text(bytes_of(*channel))),
                ),
            ),
            forall|i: int|
                0 <= i < r@.len() ==> (#[trigger] r@[i]).message.channel@ == lossy_text(
                    bytes_of(*channel),
                ) && bytes_of(r@[i].message.payload) == bytes_of(*message),
    {
        self.service.publish(channel, message)
    }
}

// ---------------------------------------------------------------------------
// What holds of every registry
// ---------------------------------------------------------------------------

proof fn lemma_with_names(
    subs: Set<SubKey>,
    conn: u64,
    is_pattern: bool,
    names: Seq<Seq<char>>,
    n: int,
    i: int,
)
    requires
        0 <= i < n <= names.len(),
    ensures
        with_names(subs, conn, is_pattern, names, n).contains(
            SubKey { is_pattern, name: names[i], conn },
        ),
    decreases n,
{
    if i < n - 1 {
        lemma_with_names(subs, conn, is_pattern, names, n - 1, i);
    }
}

/// A connection that subscribed to a channel hears what is published on it.
pub proof fn law_subscriber_hears(m: Registry, conn: u64, items: Seq<Bytes>, i: int)
    requires
        m.conns.contains(conn),
        0 <= i < items.len(),
    ensures
        ({
            let name = names_in(items)[i];
            let after = subscribe_outcome(m, conn, false, items).0;
            after.subs.filter(|k: SubKey| hears(k, name)).contains(
                SubKey { is_pattern: false, name, conn },
            )
        }),
{
    lemma_with_names(m.subs, conn, false, names_in(items), items.len() as int, i);
}

/// A connection that subscribed to a pattern hears what is published on every
/// channel that the pattern stands for.
pub proof fn law_pattern_subscriber_hears(
    m: Registry,
    conn: u64,
    items: Seq<Bytes>,
    i: int,
    channel: Seq<char>,
)
    requires
        m.conns.contains(conn),
        0 <= i < items.len(),
        wanted(names_in(items)[i], channel),
    ensures
        subscribe_outcome(m, conn, true, items).0.subs.filter(
            |k: SubKey| hears(k, channel),
        ).contains(SubKey { is_pattern: true, name: names_in(items)[i], conn }),
{
    lemma_with_names(m.subs, conn, true, names_in(items), items.len() as int, i);
}

/// Unsubscribing takes back a subscription that was not held before.
pub proof fn law_unsubscribe_undoes_subscribe(
    subs: Set<SubKey>,
    conn: u64,
    is_pattern: bool,
    name: Seq<char>,
)
    requires
        !subs.contains(SubKey { is_pattern, name, conn }),
    ensures
        without_names(
            with_names(subs, conn, is_pattern, seq![name], 1),
            conn,
            is_pattern,
            seq![name],
            1,
        ) == subs,
{
    reveal_with_fuel(with_names, 2);
    reveal_with_fuel(without_names, 2);
    let k = SubKey { is_pattern, name, conn };
    assert(with_names(subs, conn, is_pattern, seq![name], 1) == subs.insert(k));
    assert(subs.insert(k).remove(k) =~= subs);
}

/// A connection that was cleaned up hears nothing more.
pub proof fn law_cleanup_silences(subs: Set<SubKey>, conn: u64, channel: Seq<char>, k: SubKey)
    ensures
        subs.filter(|k: SubKey| k.conn != conn).filter(
            |k: SubKey| hears(k, channel),
        ).contains(k) ==> k.conn != conn,
{
}

} // verus!
