//! Events of the cluster, and how they are published.

use bytes::Bytes;
use vstd::prelude::*;
use vstd::string::*;

use crate::buffer::{bytes_from_slice, bytes_of};
use crate::cluster::pubsub::{hears, lists, served_by, Delivery, PubSubService, SubKey};
use crate::ids::MemberId;
use crate::member::{members_view, Member, MemberView};
use crate::net::{addr_text, number_text, SocketAddr};
use crate::text::{ascii_chars, chars_of, hex, push_decimal, push_hex};

verus! {

/// An event of the cluster.
#[derive(Debug)]
pub enum ClusterEvent {
    /// A fragment was sent to `peer`.
    FragmentMigration { dmap: String, partition_id: u32, peer: SocketAddr, entries: u32 },
    /// A fragment was taken over from `peer`.
    FragmentReceived { dmap: String, partition_id: u32, peer: SocketAddr, applied: u32 },
    /// A member has joined.
    NodeJoin { member: String, addr: SocketAddr },
    /// A member has left, or died.
    NodeLeft { member: String, addr: SocketAddr },
}

/// Mathematical value of a [`ClusterEvent`].
pub ghost enum ClusterEventView {
    FragmentMigration { dmap: Seq<char>, partition_id: u32, peer: SocketAddr, entries: u32 },
    FragmentReceived { dmap: Seq<char>, partition_id: u32, peer: SocketAddr, applied: u32 },
    NodeJoin { member: Seq<char>, addr: SocketAddr },
    NodeLeft { member: Seq<char>, addr: SocketAddr },
}

impl View for ClusterEvent {
    type V = ClusterEventView;

    open spec fn view(&self) -> ClusterEventView {
        match self {
            ClusterEvent::FragmentMigration { dmap, partition_id, peer, entries } =>
                ClusterEventView::FragmentMigration {
                    dmap: dmap@,
                    partition_id: *partition_id,
                    peer: *peer,
                    entries: *entries,
                },
            ClusterEvent::FragmentReceived { dmap, partition_id, peer, applied } =>
                ClusterEventView::FragmentReceived {
                    dmap: dmap@,
                    partition_id: *partition_id,
                    peer: *peer,
                    applied: *applied,
                },
            ClusterEvent::NodeJoin { member, addr } => ClusterEventView::NodeJoin {
                member: member@,
                addr: *addr,
            },
            ClusterEvent::NodeLeft { member, addr } => ClusterEventView::NodeLeft {
                member: member@,
                addr: *addr,
            },
        }
    }
}

// ---------------------------------------------------------------------------
// JSON
// ---------------------------------------------------------------------------

/// A character inside a JSON string.
pub open spec fn json_char(c: char) -> Seq<char> {
    if c == '"' {
        "\\\""@
    } else if c == '\\' {
        "\\\\"@
    } else if c == '\n' {
        "\\n"@
    } else if c == '\r' {
        "\\r"@
    } else if c == '\t' {
        "\\t"@
    } else if ' ' > c {
        "\\u"@ + ascii_chars(hex(c as u8 as nat, 4))
    } else {
        seq![c]
    }
}

/// Text inside a JSON string.
pub open spec fn json_text(s: Seq<char>) -> Seq<char>
    decreases s.len(),
{
    if s.len() == 0 {
        Seq::empty()
    } else {
        json_text(s.drop_last()) + json_char(s.last())
    }
}

/// Escapes text for a JSON string.
pub fn escape_json(input: &str) -> (r: String)
    ensures
        r@ == json_text(input@),
{
    let c: Vec<char> = chars_of(input);
    let mut out: String = String::new();
    let mut i: usize = 0;
    assert(out@ =~= json_text(c@.take(0)));
    while i < c.len()
        invariant
            i <= c@.len(),
            c@ == input@,
            out@ == json_text(c@.take(i as int)),
        decreases c@.len() - i,
    {
        let x: char = c[i];
        let ghost before = out@;
        proof {
            assert(c@.take(i + 1).drop_last() =~= c@.take(i as int));
            assert(c@.take(i + 1).last() == x);
        }
        if x == '"' {
            out.append("\\\"");
        } else if x == '\\' {
            out.append("\\\\");
        } else if x == '\n' {
            out.append("\\n");
        } else if x == '\r' {
            out.append("\\r");
        } else if x == '\t' {
            out.append("\\t");
        } else if ' ' > x {
            out.append("\\u");
            push_hex(&mut out, x as u8 as u64, 4);
        } else {
            out.push(x);
        }
        assert(out@ =~= before + json_char(x));
        i = i + 1;
    }
    assert(c@.take(i as int) =~= c@);
    out
}

/// An event in JSON, as the node `local` publishes it.
pub open spec fn event_json(e: ClusterEventView, local: Seq<char>) -> Seq<char> {
    match e {
        ClusterEventView::FragmentMigration { dmap, partition_id, peer, entries } =>
            "{\"type\":\"fragment-migration\",\"dmap\":\""@ + json_text(dmap) + "\",\"partition\":"@
            + number_text(partition_id as int) + ",\"from\":\""@ + json_text(local)
            + "\",\"to\":\""@ + addr_text(peer) + "\",\"entries\":"@ + number_text(entries as int)
            + "}"@,
        ClusterEventView::FragmentReceived { dmap, partition_id, peer, applied } =>
            "{\"type\":\"fragment-received\",\"dmap\":\""@ + json_text(dmap) + "\",\"partition\":"@
            + number_text(partition_id as int) + ",\"from\":\""@ + addr_text(peer)
            + "\",\"to\":\""@ + json_text(local) + "\",\"applied\":"@ + number_text(applied as int)
            + "}"@,
        ClusterEventView::NodeJoin { member, addr } => "{\"type\":\"node-join\",\"member\":\""@
            + json_text(member) + "\",\"addr\":\""@ + addr_text(addr) + "\"}"@,
        ClusterEventView::NodeLeft { member, addr } => "{\"type\":\"node-left\",\"member\":\""@
            + json_text(member) + "\",\"addr\":\""@ + addr_text(addr) + "\"}"@,
    }
}

/// An event in JSON. The sender of a fragment is its origin, the receiver its
/// destination; the local node goes by its name, a peer by its address.
pub fn render_event(event: &ClusterEvent, local_name: &str) -> (r: String)
    ensures
        r@ == event_json(event@, local_name@),
{
    let local: String = escape_json(local_name);
    let mut s: String = String::new();
    match event {
        ClusterEvent::FragmentMigration { dmap, partition_id, peer, entries } => {
            s = "{\"type\":\"fragment-migration\",\"dmap\":\"".to_owned();
            s.append(escape_json(dmap.as_str()).as_str());
            s.append("\",\"partition\":");
            push_decimal(&mut s, *partition_id as u64);
            s.append(",\"from\":\"");
            s.append(local.as_str());
            s.append("\",\"to\":\"");
            s.append(peer.to_text().as_str());
            s.append("\",\"entries\":");
            push_decimal(&mut s, *entries as u64);
            s.append("}");
        },
        ClusterEvent::FragmentReceived { dmap, partition_id, peer, applied } => {
            s = "{\"type\":\"fragment-received\",\"dmap\":\"".to_owned();
            s.append(escape_json(dmap.as_str()).as_str());
            s.append("\",\"partition\":");
            push_decimal(&mut s, *partition_id as u64);
            s.append(",\"from\":\"");
            s.append(peer.to_text().as_str());
            s.append("\",\"to\":\"");
            s.append(local.as_str());
            s.append("\",\"applied\":");
            push_decimal(&mut s, *applied as u64);
            s.append("}");
        },
        ClusterEvent::NodeJoin { member, addr } => {
            s = "{\"type\":\"node-join\",\"member\":\"".to_owned();
            s.append(escape_json(member.as_str()).as_str());
            s.append("\",\"addr\":\"");
            s.append(addr.to_text().as_str());
            s.append("\"}");
        },
        ClusterEvent::NodeLeft { member, addr } => {
            s = "{\"type\":\"node-left\",\"member\":\"".to_owned();
            s.append(escape_json(member.as_str()).as_str());
            s.append("\",\"addr\":\"");
            s.append(addr.to_text().as_str());
            s.append("\"}");
        },
    }
    s
}

/// Channel of the events.
pub open spec fn events_channel() -> Seq<char> {
    "cluster.events"@
}

/// Publishes events on the channel of the cluster.
#[derive(Debug)]
pub struct PubSubEventsSink {
    local_name: String,
}

impl PubSubEventsSink {
    /// The name of the local node.
    pub closed spec fn local(&self) -> Seq<char> {
        self.local_name@
    }

    /// A sink of the node with this name.
    pub fn new(local_name: String) -> (r: Self)
        ensures
            r.local() == local_name@,
    {
        PubSubEventsSink { local_name }
    }

    /// Works out who hears of an event: every subscriber of the channel, with
    /// the event in JSON.
    pub fn publish(&self, service: &PubSubService, event: &ClusterEvent) -> (r: Vec<Delivery>)
        requires
            service.wf(),
        ensures
            lists(
                served_by(r@),
                service@.subs.filter(|k: SubKey| hears(k, events_channel())),
            ),
            forall|i: int|
                0 <= i < r@.len() ==> (#[trigger] r@[i]).message.channel@ == events_channel()
                    && bytes_of(r@[i].message.payload) == vstd::utf8::encode_utf8(
                    event_json(event@, self.local()),
                ),
    {
        let payload: String = render_event(event, self.local_name.as_str());
        let body: Bytes = bytes_from_slice(payload.as_str().as_bytes());
        service.publish_local("cluster.events", &body)
    }
}

// ---------------------------------------------------------------------------
// Who came and who went
// ---------------------------------------------------------------------------

/// What is known of a peer.
#[derive(Debug)]
pub struct PeerInfo {
    pub id: MemberId,
    pub name: String,
    pub addr: SocketAddr,
}

/// Mathematical value of a [`PeerInfo`].
pub ghost struct PeerView {
    pub id: MemberId,
    pub name: Seq<char>,
    pub addr: SocketAddr,
}

impl View for PeerInfo {
    type V = PeerView;

    open spec fn view(&self) -> PeerView {
        PeerView { id: self.id, name: self.name@, addr: self.addr }
    }
}

/// Values of a list of peers.
pub open spec fn peers_view(s: Seq<PeerInfo>) -> Seq<PeerView> {
    Seq::new(s.len(), |i: int| s[i]@)
}

/// The peers are ordered by id, and none occurs twice.
pub open spec fn by_peer_id(r: Seq<PeerView>) -> bool {
    forall|i: int, j: int|
        0 <= i < j < r.len() ==> (#[trigger] r[i]).id.0 < (#[trigger] r[j]).id.0
}

/// The peer is one of the members.
pub open spec fn is_one_of(p: PeerView, members: Seq<MemberView>) -> bool {
    exists|k: int|
        0 <= k < members.len() && (#[trigger] members[k]).id == p.id && members[k].name == p.name
            && members[k].addr == p.addr
}

/// `r` lists the members but `local`, once each, by id.
pub open spec fn is_peer_list(members: Seq<MemberView>, local: MemberId, r: Seq<PeerView>) -> bool {
    &&& by_peer_id(r)
    &&& forall|i: int|
        0 <= i < r.len() ==> (#[trigger] r[i]).id != local && is_one_of(r[i], members)
    &&& forall|k: int|
        0 <= k < members.len() && (#[trigger] members[k]).id != local ==> is_listed(
            r,
            members[k].id,
        )
}

/// The peers among the live members, by id.
pub fn peer_list(snapshot: &Vec<Member>, local: MemberId) -> (r: Vec<PeerInfo>)
    ensures
        is_peer_list(members_view(snapshot@), local, peers_view(r@)),
{
    let ghost all = members_view(snapshot@);
    let mut out: Vec<PeerInfo> = Vec::new();
    let mut n: usize = 0;
    while n < snapshot.len()
        invariant
            n <= snapshot@.len(),
            all == members_view(snapshot@),
            is_peer_list(all.take(n as int), local, peers_view(out@)),
        decreases snapshot@.len() - n,
    {
        let ghost front = all.take(n as int);
        let ghost olds = peers_view(out@);
        let m: &Member = &snapshot[n];
        assert(all.take(n + 1) =~= front.push(m@));
        if m.id != local {
            let mut pos: usize = 0;
            while pos < out.len() && out[pos].id.0 < m.id.0
                invariant
                    pos <= out@.len(),
                    olds == peers_view(out@),
                    forall|k: int| 0 <= k < pos ==> (#[trigger] olds[k]).id.0 < m.id.0,
                decreases out@.len() - pos,
            {
                assert(olds[pos as int] == out@[pos as int]@);
                pos = pos + 1;
            }
            assert(pos < olds.len() ==> olds[pos as int] == out@[pos as int]@);
            let info: PeerInfo = PeerInfo { id: m.id, name: m.name.clone(), addr: m.addr };
            let ghost added = info@;
            if pos < out.len() && out[pos].id == m.id {
                out.set(pos, info);
                assert(peers_view(out@) =~= olds.update(pos as int, added));
            } else {
                out.insert(pos, info);
                assert(peers_view(out@) =~= olds.insert(pos as int, added));
            }
            proof {
                lemma_peer_added(front, local, olds, m@, pos as int);
                assert(peers_view(out@) == placed(olds, added, pos as int));
            }
        } else {
            proof {
                lemma_peer_skipped(front, local, olds, m@);
            }
        }
        n = n + 1;
    }
    assert(all.take(n as int) =~= all);
    out
}

proof fn lemma_one_of(p: PeerView, front: Seq<MemberView>, m: MemberView)
    requires
        is_one_of(p, front),
    ensures
        is_one_of(p, front.push(m)),
{
    let k = choose|k: int|
        0 <= k < front.len() && (#[trigger] front[k]).id == p.id && front[k].name == p.name
            && front[k].addr == p.addr;
    assert(front.push(m)[k] == front[k]);
}

proof fn lemma_peer_skipped(
    front: Seq<MemberView>,
    local: MemberId,
    olds: Seq<PeerView>,
    m: MemberView,
)
    requires
        is_peer_list(front, local, olds),
        m.id == local,
    ensures
        is_peer_list(front.push(m), local, olds),
{
    let members = front.push(m);
    assert forall|i: int| 0 <= i < olds.len() implies (#[trigger] olds[i]).id != local && is_one_of(
        olds[i],
        members,
    ) by {
        lemma_one_of(olds[i], front, m);
    }
    assert forall|k: int|
        0 <= k < members.len() && (#[trigger] members[k]).id != local implies is_listed(
        olds,
        members[k].id,
    ) by {
        assert(members[k] == front[k]);
    }
}

/// `news` is `olds` with `p` at `pos`, in place of an entry of the same peer.
spec fn placed(olds: Seq<PeerView>, p: PeerView, pos: int) -> Seq<PeerView> {
    if pos < olds.len() && olds[pos].id == p.id {
        olds.update(pos, p)
    } else {
        olds.insert(pos, p)
    }
}

proof fn lemma_placed_order(olds: Seq<PeerView>, p: PeerView, pos: int)
    requires
        by_peer_id(olds),
        0 <= pos <= olds.len(),
        forall|k: int| 0 <= k < pos ==> (#[trigger] olds[k]).id.0 < p.id.0,
        pos < olds.len() ==> olds[pos].id.0 >= p.id.0,
    ensures
        by_peer_id(placed(olds, p, pos)),
{
    let news = placed(olds, p, pos);
    let replaced = pos < olds.len() && olds[pos].id == p.id;
    assert forall|i: int, j: int| 0 <= i < j < news.len() implies (#[trigger] news[i]).id.0 < (
    #[trigger] news[j]).id.0 by {
        let oi: int = if replaced || i < pos {
            i
        } else {
            i - 1
        };
        let oj: int = if replaced || j < pos {
            j
        } else {
            j - 1
        };
        if i != pos {
            assert(news[i] == olds[oi]);
        }
        if j != pos {
            assert(news[j] == olds[oj]);
        }
        if i == pos && oj != pos {
            assert(olds[pos].id.0 < olds[oj].id.0);
        }
    }
}

proof fn lemma_placed_listed(olds: Seq<PeerView>, p: PeerView, pos: int, id: MemberId)
    requires
        0 <= pos <= olds.len(),
        is_listed(olds, id) || id == p.id,
    ensures
        is_listed(placed(olds, p, pos), id),
{
    let news = placed(olds, p, pos);
    let replaced = pos < olds.len() && olds[pos].id == p.id;
    if id == p.id {
        assert(news[pos].id == id);
    } else {
        let oi = choose|i: int| 0 <= i < olds.len() && (#[trigger] olds[i]).id == id;
        let i: int = if replaced || oi < pos {
            oi
        } else {
            oi + 1
        };
        assert(news[i] == olds[oi]);
    }
}

proof fn lemma_peer_added(
    front: Seq<MemberView>,
    local: MemberId,
    olds: Seq<PeerView>,
    m: MemberView,
    pos: int,
)
    requires
        is_peer_list(front, local, olds),
        m.id != local,
        0 <= pos <= olds.len(),
        forall|k: int| 0 <= k < pos ==> (#[trigger] olds[k]).id.0 < m.id.0,
        pos < olds.len() ==> olds[pos].id.0 >= m.id.0,
    ensures
        is_peer_list(
            front.push(m),
            local,
            placed(olds, PeerView { id: m.id, name: m.name, addr: m.addr }, pos),
        ),
{
    let p = PeerView { id: m.id, name: m.name, addr: m.addr };
    let members = front.push(m);
    let news = placed(olds, p, pos);
    let replaced = pos < olds.len() && olds[pos].id == p.id;
    lemma_placed_order(olds, p, pos);
    assert(members[front.len() as int] == m);
    assert forall|i: int| 0 <= i < news.len() implies (#[trigger] news[i]).id != local && is_one_of(
        news[i],
        members,
    ) by {
        if i == pos {
            assert(members[front.len() as int].id == news[i].id);
        } else {
            let oi: int = if replaced || i < pos {
                i
            } else {
                i - 1
            };
            assert(news[i] == olds[oi]);
            lemma_one_of(olds[oi], front, m);
        }
    }
    assert forall|k: int|
        0 <= k < members.len() && (#[trigger] members[k]).id != local implies is_listed(
        news,
        members[k].id,
    ) by {
        if k < front.len() {
            assert(members[k] == front[k]);
        }
        lemma_placed_listed(olds, p, pos, members[k].id);
    }
}

/// A peer with this id is listed.
pub open spec fn is_listed(s: Seq<PeerView>, id: MemberId) -> bool {
    exists|i: int| 0 <= i < s.len() && (#[trigger] s[i]).id == id
}

/// The peers of `s` that are not listed in `other`, in order.
pub open spec fn not_in(s: Seq<PeerView>, other: Seq<PeerView>) -> Seq<PeerView>
    decreases s.len(),
{
    if s.len() == 0 {
        Seq::empty()
    } else {
        let front = not_in(s.drop_last(), other);
        if is_listed(other, s.last().id) {
            front
        } else {
            front.push(s.last())
        }
    }
}

/// What happened between two lists of peers: those that joined, then those that
/// left.
pub open spec fn changes(last: Seq<PeerView>, now: Seq<PeerView>) -> Seq<ClusterEventView> {
    let joined = not_in(now, last);
    let left = not_in(last, now);
    Seq::new(
        joined.len(),
        |i: int| ClusterEventView::NodeJoin { member: joined[i].name, addr: joined[i].addr },
    ) + Seq::new(
        left.len(),
        |i: int| ClusterEventView::NodeLeft { member: left[i].name, addr: left[i].addr },
    )
}

/// Values of a list of events.
pub open spec fn cluster_events_view(s: Seq<ClusterEvent>) -> Seq<ClusterEventView> {
    Seq::new(s.len(), |i: int| s[i]@)
}

fn contains_peer(s: &Vec<PeerInfo>, id: MemberId) -> (r: bool)
    ensures
        r == is_listed(peers_view(s@), id),
{
    let mut i: usize = 0;
    while i < s.len()
        invariant
            i <= s@.len(),
            forall|k: int| 0 <= k < i ==> (#[trigger] peers_view(s@)[k]).id != id,
        decreases s@.len() - i,
    {
        assert(peers_view(s@)[i as int] == s@[i as int]@);
        if s[i].id == id {
            return true;
        }
        i = i + 1;
    }
    false
}

fn missing(s: &Vec<PeerInfo>, other: &Vec<PeerInfo>) -> (r: Vec<usize>)
    ensures
        r@.len() == not_in(peers_view(s@), peers_view(other@)).len(),
        forall|i: int|
            0 <= i < r@.len() ==> (#[trigger] r@[i]) < s@.len() && s@[r@[i] as int]@ == not_in(
                peers_view(s@),
                peers_view(other@),
            )[i],
{
    let ghost all = peers_view(s@);
    let ghost others = peers_view(other@);
    let mut out: Vec<usize> = Vec::new();
    let mut n: usize = 0;
    assert(all.take(0) =~= Seq::empty());
    while n < s.len()
        invariant
            n <= s@.len(),
            all == peers_view(s@),
            others == peers_view(other@),
            out@.len() == not_in(all.take(n as int), others).len(),
            forall|i: int|
                0 <= i < out@.len() ==> (#[trigger] out@[i]) < n && s@[out@[i] as int]@ == not_in(
                    all.take(n as int),
                    others,
                )[i],
        decreases s@.len() - n,
    {
        assert(all.take(n + 1).drop_last() =~= all.take(n as int));
        assert(all.take(n + 1).last() == all[n as int]);
        if !contains_peer(other, s[n].id) {
            out.push(n);
        }
        n = n + 1;
    }
    assert(all.take(n as int) =~= all);
    out
}

/// The events between two lists of peers.
pub fn membership_changes(last: &Vec<PeerInfo>, now: &Vec<PeerInfo>) -> (r: Vec<ClusterEvent>)
    ensures
        cluster_events_view(r@) == changes(peers_view(last@), peers_view(now@)),
{
    let ghost was = peers_view(last@);
    let ghost is_now = peers_view(now@);
    let joined: Vec<usize> = missing(now, last);
    let left: Vec<usize> = missing(last, now);
    let ghost all = changes(was, is_now);
    let mut out: Vec<ClusterEvent> = Vec::new();
    let mut i: usize = 0;
    while i < joined.len()
        invariant
            i <= joined@.len(),
            is_now == peers_view(now@),
            was == peers_view(last@),
            all == changes(was, is_now),
            joined@.len() == not_in(is_now, was).len(),
            forall|k: int|
                0 <= k < joined@.len() ==> (#[trigger] joined@[k]) < now@.len()
                    && now@[joined@[k] as int]@ == not_in(is_now, was)[k],
            out@.len() == i,
            forall|k: int| 0 <= k < i ==> (#[trigger] out@[k])@ == all[k],
        decreases joined@.len() - i,
    {
        let p: &PeerInfo = &now[joined[i]];
        out.push(ClusterEvent::NodeJoin { member: p.name.clone(), addr: p.addr });
        i = i + 1;
    }
    let ghost base = joined@.len();
    let mut j: usize = 0;
    while j < left.len()
        invariant
            j <= left@.len(),
            is_now == peers_view(now@),
            was == peers_view(last@),
            all == changes(was, is_now),
            base == not_in(is_now, was).len(),
            left@.len() == not_in(was, is_now).len(),
            forall|k: int|
                0 <= k < left@.len() ==> (#[trigger] left@[k]) < last@.len()
                    && last@[left@[k] as int]@ == not_in(was, is_now)[k],
            out@.len() == base + j,
            forall|k: int| 0 <= k < out@.len() ==> (#[trigger] out@[k])@ == all[k],
        decreases left@.len() - j,
    {
        let p: &PeerInfo = &last[left[j]];
        out.push(ClusterEvent::NodeLeft { member: p.name.clone(), addr: p.addr });
        j = j + 1;
    }
    assert(cluster_events_view(out@) =~= all);
    out
}

/// Where nobody came or went there is nothing to tell.
pub proof fn law_no_change_no_event(s: Seq<PeerView>)
    ensures
        changes(s, s) == Seq::<ClusterEventView>::empty(),
{
    lemma_not_in_self(s, s);
    assert(changes(s, s) =~= Seq::<ClusterEventView>::empty());
}

proof fn lemma_not_in_self(s: Seq<PeerView>, all: Seq<PeerView>)
    requires
        forall|i: int| 0 <= i < s.len() ==> is_listed(all, (#[trigger] s[i]).id) || all == s,
    ensures
        (forall|i: int| 0 <= i < s.len() ==> is_listed(all, (#[trigger] s[i]).id)) ==> not_in(
            s,
            all,
        ).len() == 0,
        all == s ==> not_in(s, all).len() == 0,
    decreases s.len(),
{
    assert forall|i: int| all == s && 0 <= i < s.len() implies is_listed(
        all,
        (#[trigger] s[i]).id,
    ) by {
        assert(all[i].id == s[i].id);
    }
    if s.len() > 0 {
        let front = s.drop_last();
        assert forall|i: int| 0 <= i < front.len() implies is_listed(
            all,
            (#[trigger] front[i]).id,
        ) by {
            assert(front[i] == s[i]);
            assert(is_listed(all, s[i].id));
        }
        lemma_not_in_self(front, all);
        assert(s.last() == s[s.len() - 1]);
        assert(is_listed(all, s[s.len() - 1].id));
    }
}

/// The peers of one list that are missing in another are those whose id it does not
/// hold, in their order: they stood at the places returned.
pub proof fn law_missing_peers_are_found(s: Seq<PeerView>, other: Seq<PeerView>) -> (from: Seq<int>)
    ensures
        from.len() == not_in(s, other).len(),
        forall|k: int|
            0 <= k < from.len() ==> 0 <= #[trigger] from[k] < s.len() && not_in(s, other)[k]
                == s[from[k]],
        forall|k: int, j: int|
            0 <= k < from.len() && 0 <= j < other.len() ==> s[#[trigger] from[k]].id != (
            #[trigger] other[j]).id,
        forall|a: int, b: int| 0 <= a < b < from.len() ==> #[trigger] from[a] < #[trigger] from[b],
        forall|i: int|
            0 <= i < s.len() && (forall|j: int|
                0 <= j < other.len() ==> (#[trigger] other[j]).id != s[i].id)
                ==> #[trigger] from.contains(i),
    decreases s.len(),
{
    if s.len() == 0 {
        Seq::empty()
    } else {
        let rest = s.drop_last();
        let front = law_missing_peers_are_found(rest, other);
        let from = if is_listed(other, s.last().id) {
            front
        } else {
            front.push(s.len() - 1)
        };
        assert forall|k: int| 0 <= k < from.len() implies 0 <= #[trigger] from[k] < s.len()
            && not_in(s, other)[k] == s[from[k]] by {
            if k < front.len() {
                assert(0 <= front[k] < rest.len());
                assert(rest[front[k]] == s[front[k]]);
            }
        }
        assert forall|k: int, j: int|
            0 <= k < from.len() && 0 <= j < other.len() implies s[#[trigger] from[k]].id != (
        #[trigger] other[j]).id by {
            if k < front.len() {
                assert(0 <= front[k] < rest.len());
                assert(rest[front[k]].id != other[j].id);
            } else {
                assert(!is_listed(other, s.last().id));
            }
        }
        assert forall|i: int|
            0 <= i < s.len() && (forall|j: int|
                0 <= j < other.len() ==> (#[trigger] other[j]).id
                    != s[i].id) implies #[trigger] from.contains(i) by {
            if i < rest.len() {
                assert(rest[i] == s[i]);
                assert(front.contains(i));
                let a = choose|a: int| 0 <= a < front.len() && front[a] == i;
                assert(from[a] == i);
            } else {
                if is_listed(other, s[i].id) {
                    let j = choose|j: int| 0 <= j < other.len() && (#[trigger] other[j]).id
                        == s[i].id;
                    assert(other[j].id != s[i].id);
                }
                assert(from[front.len() as int] == i);
            }
        }
        from
    }
}

/// Between two lists of peers, those have joined that only the later one holds,
/// and those have left that only the earlier one holds; the former are told first,
/// each with its name and address.
pub proof fn law_changes_tell_who_came_and_went(last: Seq<PeerView>, now: Seq<PeerView>)
    ensures
        ({
            let came = not_in(now, last);
            let went = not_in(last, now);
            let told = changes(last, now);
            &&& told.len() == came.len() + went.len()
            &&& forall|i: int|
                0 <= i < came.len() ==> #[trigger] told[i] == (ClusterEventView::NodeJoin {
                    member: came[i].name,
                    addr: came[i].addr,
                })
            &&& forall|i: int|
                0 <= i < went.len() ==> told[came.len() + i] == (ClusterEventView::NodeLeft {
                    member: (#[trigger] went[i]).name,
                    addr: went[i].addr,
                })
        }),
{
}

/// The peers are the members but the local one, by ascending id, each as one of
/// the members describes it.
pub proof fn law_peers_are_the_other_members(
    members: Seq<MemberView>,
    local: MemberId,
    r: Seq<PeerView>,
    id: MemberId,
)
    requires
        is_peer_list(members, local, r),
    ensures
        (exists|i: int| 0 <= i < r.len() && (#[trigger] r[i]).id == id) <==> id != local && exists|
            k: int,
        | 0 <= k < members.len() && (#[trigger] members[k]).id == id,
        forall|i: int, j: int|
            0 <= i < j < r.len() ==> (#[trigger] r[i]).id.0 < (#[trigger] r[j]).id.0,
        forall|i: int|
            0 <= i < r.len() ==> exists|k: int|
                0 <= k < members.len() && (#[trigger] members[k]).id == (#[trigger] r[i]).id
                    && members[k].name == r[i].name && members[k].addr == r[i].addr,
{
    if exists|i: int| 0 <= i < r.len() && (#[trigger] r[i]).id == id {
        let i = choose|i: int| 0 <= i < r.len() && (#[trigger] r[i]).id == id;
        assert(is_one_of(r[i], members));
    }
    if id != local && exists|k: int| 0 <= k < members.len() && (#[trigger] members[k]).id == id {
        let k = choose|k: int| 0 <= k < members.len() && (#[trigger] members[k]).id == id;
        assert(is_listed(r, members[k].id));
    }
    assert forall|i: int| 0 <= i < r.len() implies exists|k: int|
        0 <= k < members.len() && (#[trigger] members[k]).id == (#[trigger] r[i]).id
            && members[k].name == r[i].name && members[k].addr == r[i].addr by {
        assert(is_one_of(r[i], members));
    }
}

/// Text keeps its characters inside a JSON string, one behind the other: a quote
/// and a backslash get a backslash in front of them, and whatever is neither of
/// these nor a control character stands for itself.
pub proof fn law_json_keeps_characters(s: Seq<char>, c: char)
    ensures
        json_text(Seq::empty()) == Seq::<char>::empty(),
        json_text(s.push('"')) == json_text(s) + seq!['\\', '"'],
        json_text(s.push('\\')) == json_text(s) + seq!['\\', '\\'],
        c >= ' ' && c != '"' && c != '\\' ==> json_text(s.push(c)) == json_text(s).push(c),
{
    reveal_strlit("\\\"");
    reveal_strlit("\\\\");
    assert(s.push('"').drop_last() =~= s);
    assert(s.push('\\').drop_last() =~= s);
    assert(s.push(c).drop_last() =~= s);
    assert("\\\""@ =~= seq!['\\', '"']);
    assert("\\\\"@ =~= seq!['\\', '\\']);
    if c >= ' ' && c != '"' && c != '\\' {
        assert(json_char(c) =~= seq![c]);
        assert(json_text(s) + seq![c] =~= json_text(s).push(c));
    }
}

} // verus!
