//! Messages of the membership protocol, and their framing in datagrams.
//!
//! A datagram is a four-byte header (two magic bytes, a version, a reserved
//! byte) followed by an encoded [`Envelope`].

use vstd::prelude::*;
use vstd::slice::slice_subrange;
use vstd::string::*;

use crate::cluster::error::{ClusterError, ClusterErrorView};
use crate::ids::MemberId;
use crate::member::{Member, MemberView};
use crate::net::{number_text, SocketAddr};
use crate::text::{ascii_chars, hex, push_bytes, push_decimal, push_hex, str_equal};

verus! {

/// Bytes of the header.
pub const HEADER_LEN: usize = 4;

/// First magic byte, `K`.
pub const MAGIC_0: u8 = 0x4b;

/// Second magic byte, `m`.
pub const MAGIC_1: u8 = 0x6d;

/// Version of the protocol.
pub const WIRE_VERSION: u8 = 1;

/// Largest datagram, header included.
pub const MAX_DATAGRAM: usize = 1400;

/// Number that a member raises to refute a suspicion against it.
pub type Incarnation = u64;

/// News about a member, spread by gossip.
#[derive(Debug, PartialEq, Eq)]
pub enum GossipEvent {
    /// The member is alive; carries all that a node needs to learn of it.
    Alive {
        id: MemberId,
        name: String,
        addr: SocketAddr,
        discovery_addr: SocketAddr,
        birthdate: u64,
        incarnation: Incarnation,
    },
    /// The member is suspected.
    Suspect { id: MemberId, incarnation: Incarnation, from: MemberId },
    /// The member has been declared dead. Final for that incarnation.
    Dead { id: MemberId, incarnation: Incarnation, from: MemberId },
    /// The member leaves of its own accord.
    Leave { id: MemberId, incarnation: Incarnation },
}

/// Mathematical value of a [`GossipEvent`].
pub ghost enum EventView {
    Alive { member: MemberView, incarnation: Incarnation },
    Suspect { id: MemberId, incarnation: Incarnation, from: MemberId },
    Dead { id: MemberId, incarnation: Incarnation, from: MemberId },
    Leave { id: MemberId, incarnation: Incarnation },
}

impl View for GossipEvent {
    type V = EventView;

    open spec fn view(&self) -> EventView {
        match self {
            GossipEvent::Alive { id, name, addr, discovery_addr, birthdate, incarnation } =>
                EventView::Alive {
                    member: MemberView {
                        id: *id,
                        name: name@,
                        addr: *addr,
                        discovery_addr: *discovery_addr,
                        birthdate: *birthdate,
                        is_coordinator: false,
                    },
                    incarnation: *incarnation,
                },
            GossipEvent::Suspect { id, incarnation, from } => EventView::Suspect {
                id: *id,
                incarnation: *incarnation,
                from: *from,
            },
            GossipEvent::Dead { id, incarnation, from } => EventView::Dead {
                id: *id,
                incarnation: *incarnation,
                from: *from,
            },
            GossipEvent::Leave { id, incarnation } => EventView::Leave {
                id: *id,
                incarnation: *incarnation,
            },
        }
    }
}

impl Clone for GossipEvent {
    fn clone(&self) -> (r: Self)
        ensures
            r@ == self@,
    {
        match self {
            GossipEvent::Alive { id, name, addr, discovery_addr, birthdate, incarnation } =>
                GossipEvent::Alive {
                    id: *id,
                    name: name.clone(),
                    addr: *addr,
                    discovery_addr: *discovery_addr,
                    birthdate: *birthdate,
                    incarnation: *incarnation,
                },
            GossipEvent::Suspect { id, incarnation, from } => GossipEvent::Suspect {
                id: *id,
                incarnation: *incarnation,
                from: *from,
            },
            GossipEvent::Dead { id, incarnation, from } => GossipEvent::Dead {
                id: *id,
                incarnation: *incarnation,
                from: *from,
            },
            GossipEvent::Leave { id, incarnation } => GossipEvent::Leave {
                id: *id,
                incarnation: *incarnation,
            },
        }
    }
}

impl GossipEvent {
    /// Whether two events say the same.
    pub fn same_as(&self, other: &GossipEvent) -> (r: bool)
        ensures
            r == (self@ == other@),
    {
        match (self, other) {
            (
                GossipEvent::Alive { id, name, addr, discovery_addr, birthdate, incarnation },
                GossipEvent::Alive {
                    id: id2,
                    name: name2,
                    addr: addr2,
                    discovery_addr: discovery_addr2,
                    birthdate: birthdate2,
                    incarnation: incarnation2,
                },
            ) => *id == *id2 && *name == *name2 && *addr == *addr2 && *discovery_addr
                == *discovery_addr2 && *birthdate == *birthdate2 && *incarnation == *incarnation2,
            (
                GossipEvent::Suspect { id, incarnation, from },
                GossipEvent::Suspect { id: id2, incarnation: incarnation2, from: from2 },
            ) => *id == *id2 && *incarnation == *incarnation2 && *from == *from2,
            (
                GossipEvent::Dead { id, incarnation, from },
                GossipEvent::Dead { id: id2, incarnation: incarnation2, from: from2 },
            ) => *id == *id2 && *incarnation == *incarnation2 && *from == *from2,
            (
                GossipEvent::Leave { id, incarnation },
                GossipEvent::Leave { id: id2, incarnation: incarnation2 },
            ) => *id == *id2 && *incarnation == *incarnation2,
            _ => false,
        }
    }
}

/// Values of a list of events.
pub open spec fn events_view(s: Seq<GossipEvent>) -> Seq<EventView> {
    Seq::new(s.len(), |i: int| s[i]@)
}

/// Messages of the failure detector.
#[derive(Debug, Clone, Copy, PartialEq, Eq, Structural)]
pub enum SwimMessage {
    /// Direct probe. The receiver echoes `seq`; it ignores a probe whose
    /// `target` is another node.
    Ping { seq: u64, target: MemberId },
    /// Answer to a direct probe.
    Ack { seq: u64, from: MemberId },
    /// Asks the receiver to probe `target` on the sender's behalf.
    PingReq { seq: u64, target: MemberId, target_addr: SocketAddr },
    /// Answer to a probe on another node's behalf.
    IndirectAck { seq: u64, target: MemberId, from: MemberId },
}

/// What travels in a datagram: a message, its sender, and gossip that rides
/// along.
#[derive(Debug, PartialEq, Eq)]
pub struct Envelope {
    /// Secret shared by the cluster. A node whose own secret is empty does not
    /// check that of others.
    pub cluster_secret: String,
    /// The sender.
    pub from: MemberId,
    /// The message.
    pub msg: SwimMessage,
    /// Gossip that rides along.
    pub gossip: Vec<GossipEvent>,
}

/// Mathematical value of an [`Envelope`].
pub ghost struct EnvelopeView {
    pub cluster_secret: Seq<char>,
    pub from: MemberId,
    pub msg: SwimMessage,
    pub gossip: Seq<EventView>,
}

impl View for Envelope {
    type V = EnvelopeView;

    open spec fn view(&self) -> EnvelopeView {
        EnvelopeView {
            cluster_secret: self.cluster_secret@,
            from: self.from,
            msg: self.msg,
            gossip: events_view(self.gossip@),
        }
    }
}

impl Envelope {
    /// Checks the sender's secret against the local one. An empty local secret
    /// disables the check.
    pub fn check_secret(&self, expected: &str) -> (r: Result<(), ClusterError>)
        ensures
            r is Ok <==> expected@.len() == 0 || self@.cluster_secret == expected@,
            r matches Err(e) ==> e@ == ClusterErrorView::Handshake("cluster_secret mismatch"@),
    {
        if expected.unicode_len() == 0 || str_equal(self.cluster_secret.as_str(), expected) {
            Ok(())
        } else {
            Err(ClusterError::Handshake("cluster_secret mismatch".to_owned()))
        }
    }
}

/// An `Alive` event that announces `member`.
pub fn alive_for(member: &Member, incarnation: Incarnation) -> (r: GossipEvent)
    ensures
        r@ == (EventView::Alive {
            member: MemberView { is_coordinator: false, ..member@ },
            incarnation,
        }),
{
    GossipEvent::Alive {
        id: member.id,
        name: member.name.clone(),
        addr: member.addr,
        discovery_addr: member.discovery_addr,
        birthdate: member.birthdate,
        incarnation,
    }
}

// ---------------------------------------------------------------------------
// Datagrams
// ---------------------------------------------------------------------------

/// The header in front of every encoded envelope.
pub open spec fn header() -> Seq<u8> {
    seq![MAGIC_0, MAGIC_1, WIRE_VERSION, 0u8]
}

/// Puts the header in front of an encoded envelope. Refused where the datagram
/// would be too large.
pub fn seal_datagram(body: &[u8]) -> (r: Result<Vec<u8>, ClusterError>)
    requires
        body@.len() <= usize::MAX - HEADER_LEN,
    ensures
        match r {
            Ok(v) => HEADER_LEN + body@.len() <= MAX_DATAGRAM && v@ == header() + body@,
            Err(e) => HEADER_LEN + body@.len() > MAX_DATAGRAM && e@ == ClusterErrorView::Codec(
                "envelope too large: "@ + number_text(HEADER_LEN + body@.len()) + " > "@
                    + number_text(MAX_DATAGRAM as int),
            ),
        },
{
    let total: usize = HEADER_LEN + body.len();
    if total > MAX_DATAGRAM {
        let mut m: String = "envelope too large: ".to_owned();
        push_decimal(&mut m, total as u64);
        m.append(" > ");
        push_decimal(&mut m, MAX_DATAGRAM as u64);
        return Err(ClusterError::Codec(m));
    }
    let mut out: Vec<u8> = Vec::new();
    out.push(MAGIC_0);
    out.push(MAGIC_1);
    out.push(WIRE_VERSION);
    out.push(0);
    push_bytes(&mut out, body);
    assert(out@ =~= header() + body@);
    Ok(out)
}

/// Why a datagram is refused before its body is looked at; `None` where it is
/// not.
pub open spec fn datagram_fault(b: Seq<u8>) -> Option<Seq<char>> {
    if b.len() < HEADER_LEN {
        Some("short datagram"@)
    } else if b[0] != MAGIC_0 || b[1] != MAGIC_1 {
        Some("bad magic: "@ + ascii_chars(hex(b[0] as nat, 2)) + ascii_chars(hex(b[1] as nat, 2)))
    } else if b[2] != WIRE_VERSION {
        Some("unsupported swim version: "@ + number_text(b[2] as int))
    } else {
        None
    }
}

/// The encoded envelope of a datagram, once its header has been checked.
pub fn open_datagram(bytes: &[u8]) -> (r: Result<&[u8], ClusterError>)
    ensures
        match datagram_fault(bytes@) {
            None => r is Ok && r->Ok_0@ == bytes@.skip(HEADER_LEN as int),
            Some(m) => r is Err && r->Err_0@ == ClusterErrorView::Codec(m),
        },
{
    if bytes.len() < HEADER_LEN {
        return Err(ClusterError::Codec("short datagram".to_owned()));
    }
    if bytes[0] != MAGIC_0 || bytes[1] != MAGIC_1 {
        let mut m: String = "bad magic: ".to_owned();
        push_hex(&mut m, bytes[0] as u64, 2);
        push_hex(&mut m, bytes[1] as u64, 2);
        return Err(ClusterError::Codec(m));
    }
    if bytes[2] != WIRE_VERSION {
        let mut m: String = "unsupported swim version: ".to_owned();
        push_decimal(&mut m, bytes[2] as u64);
        return Err(ClusterError::Codec(m));
    }
    let body: &[u8] = slice_subrange(bytes, HEADER_LEN, bytes.len());
    assert(body@ =~= bytes@.skip(HEADER_LEN as int));
    Ok(body)
}

/// Opening a sealed datagram gives back what was sealed.
pub proof fn law_open_inverts_seal(body: Seq<u8>)
    ensures
        datagram_fault(header() + body) is None,
        (header() + body).skip(HEADER_LEN as int) == body,
{
    assert((header() + body).skip(HEADER_LEN as int) =~= body);
}

/// A datagram is opened if and only if it starts with `K`, `m` and the version 1,
/// and has a fourth byte; one may hold 1396 bytes behind those four.
pub proof fn law_datagrams_are_recognised(b: Seq<u8>, n: nat)
    ensures
        datagram_fault(b) is None <==> b.len() >= 4 && b[0] == 0x4b && b[1] == 0x6d && b[2] == 1,
        header() == seq![0x4bu8, 0x6du8, 1u8, 0u8],
        HEADER_LEN + n <= MAX_DATAGRAM <==> n <= 1396,
{
}

} // verus!
