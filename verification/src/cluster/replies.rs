//! What the answers of peers mean.
//!
//! Where an answer is of no expected kind, the error quotes it; `shown` is the
//! answer as it is quoted.

use bytes::Bytes;
use vstd::prelude::*;
use vstd::string::*;
use vstd::utf8::*;

use crate::buffer::bytes_from_slice;
use crate::cluster::error::{ClusterError, ClusterErrorView};
use crate::net::{addr_text, SocketAddr};
use crate::protocol::command::{Command, CommandView, PartitionType};
use crate::protocol::frame::{Frame, FrameView};
use crate::protocol::hello::{HelloArgs, HelloView};
use crate::text::{
    ascii_chars, chars_of, find_char, parse_signed, position_of, push_signed_decimal,
    signed_decimal, signed_numeral, starts_with, str_equal, strip_prefix, text_between,
};

verus! {

fn with_text(front: &str, text: &str) -> (r: String)
    ensures
        r@ == front@ + text@,
{
    let mut m: String = front.to_owned();
    m.append(text);
    m
}

/// Turns a redirection into an error; every other answer is handed on.
pub fn map_reply(frame: Frame) -> (r: Result<Frame, ClusterError>)
    ensures
        match frame@ {
            FrameView::Error(e) if starts_with(e, "MOVED "@) => r is Err && r->Err_0@
                == ClusterErrorView::Moved(e.skip("MOVED "@.len() as int)),
            _ => r == Ok::<Frame, ClusterError>(frame),
        },
{
    if let Frame::Error(e) = &frame {
        if let Some(rest) = strip_prefix(e.as_str(), "MOVED ") {
            return Err(ClusterError::Moved(rest));
        }
    }
    Ok(frame)
}

/// The command that opens a connection between nodes.
pub fn hello_command(cluster_secret: &str) -> (r: Command)
    ensures
        r@ == CommandView::Hello(
            HelloView {
                protocol_version: Some(2u32),
                auth: if cluster_secret@.len() == 0 {
                    None
                } else {
                    Some((None, encode_utf8(cluster_secret@)))
                },
                client_name: Some(encode_utf8("kamino-internode"@)),
            },
        ),
{
    let auth: Option<(Option<Bytes>, Bytes)> = if cluster_secret.unicode_len() == 0 {
        None
    } else {
        Some((None, bytes_from_slice(cluster_secret.as_bytes())))
    };
    Command::Hello(
        HelloArgs {
            protocol_version: Some(2),
            auth,
            client_name: Some(bytes_from_slice("kamino-internode".as_bytes())),
        },
    )
}

/// What the answer to the opening command means.
pub fn handshake_reply(reply: &Frame, shown: &str) -> (r: Result<(), ClusterError>)
    ensures
        match reply@ {
            FrameView::MapFrame(_) => r is Ok,
            FrameView::Array(Some(_)) => r is Ok,
            FrameView::SimpleString(_) => r is Ok,
            FrameView::Error(e) => r is Err && r->Err_0@ == ClusterErrorView::Handshake(e),
            _ => r is Err && r->Err_0@ == ClusterErrorView::Codec(
                "handshake unexpected reply: "@ + shown@,
            ),
        },
{
    match reply {
        Frame::MapFrame(_) => Ok(()),
        Frame::Array(Some(_)) => Ok(()),
        Frame::SimpleString(_) => Ok(()),
        Frame::Error(e) => Err(ClusterError::Handshake(e.clone())),
        _ => Err(ClusterError::Codec(with_text("handshake unexpected reply: ", shown))),
    }
}

/// A peer has taken note of a routing table, whether it keeps it or not.
pub open spec fn acknowledges_push(s: Seq<char>) -> bool {
    s == "OK"@ || s == "STALE"@ || s == "SCHEMA"@
}

/// What the answer to a pushed routing table means.
pub fn routing_push_reply(reply: &Frame, shown: &str) -> (r: Result<(), ClusterError>)
    ensures
        match reply@ {
            FrameView::SimpleString(s) if acknowledges_push(s) => r is Ok,
            FrameView::Error(e) => r is Err && r->Err_0@ == ClusterErrorView::Codec(
                "peer rejected routing push: "@ + e,
            ),
            _ => r is Err && r->Err_0@ == ClusterErrorView::Codec(
                "unexpected routing-push reply: "@ + shown@,
            ),
        },
{
    match reply {
        Frame::SimpleString(s) => {
            if str_equal(s.as_str(), "OK") || str_equal(s.as_str(), "STALE") || str_equal(
                s.as_str(),
                "SCHEMA",
            ) {
                Ok(())
            } else {
                Err(ClusterError::Codec(with_text("unexpected routing-push reply: ", shown)))
            }
        },
        Frame::Error(e) => Err(
            ClusterError::Codec(with_text("peer rejected routing push: ", e.as_str())),
        ),
        _ => Err(ClusterError::Codec(with_text("unexpected routing-push reply: ", shown))),
    }
}

/// The command that hands a routing table to a peer.
pub fn routing_push_command(table: &[u8]) -> (r: Command)
    ensures
        r@ == (CommandView::InternalNodeUpdateRouting { table: table@ }),
{
    Command::InternalNodeUpdateRouting { table: bytes_from_slice(table) }
}

/// The command that hands the entries of a partition to a peer.
pub fn move_fragment_command(
    partition_id: u32,
    partition_type: PartitionType,
    dmap: &str,
    payload: &[u8],
) -> (r: Command)
    ensures
        r@ == (CommandView::InternalNodeMoveFragment {
            partition_id,
            partition_type,
            dmap: encode_utf8(dmap@),
            payload: payload@,
        }),
{
    Command::InternalNodeMoveFragment {
        partition_id,
        partition_type,
        dmap: bytes_from_slice(dmap.as_bytes()),
        payload: bytes_from_slice(payload),
    }
}

/// What the answer to a moved fragment means.
pub fn move_fragment_reply(peer: SocketAddr, reply: &Frame, shown: &str) -> (r: Result<
    (),
    ClusterError,
>)
    ensures
        match reply@ {
            FrameView::SimpleString(s) if s == "OK"@ => r is Ok,
            FrameView::Error(e) => r is Err && r->Err_0@ == ClusterErrorView::ServerGone(
                "MOVEFRAGMENT rejected by "@ + addr_text(peer) + ": "@ + e,
            ),
            _ => r is Err && r->Err_0@ == ClusterErrorView::Codec(
                "unexpected MOVEFRAGMENT reply from "@ + addr_text(peer) + ": "@ + shown@,
            ),
        },
{
    match reply {
        Frame::SimpleString(s) => {
            if str_equal(s.as_str(), "OK") {
                return Ok(());
            }
        },
        Frame::Error(e) => {
            let mut m: String = with_text("MOVEFRAGMENT rejected by ", peer.to_text().as_str());
            m.append(": ");
            m.append(e.as_str());
            return Err(ClusterError::ServerGone(m));
        },
        _ => {},
    }
    let mut m: String = with_text("unexpected MOVEFRAGMENT reply from ", peer.to_text().as_str());
    m.append(": ");
    m.append(shown);
    Err(ClusterError::Codec(m))
}

/// The count in a partial answer, which stands up to the next space; 0 where it
/// is no number.
pub open spec fn partial_count(body: Seq<char>) -> int {
    match signed_numeral(encode_utf8(body.take(find_char(body, ' ', 0)))) {
        Some(n) => if i64::MIN <= n <= i64::MAX {
            n
        } else {
            0
        },
        None => 0,
    }
}

/// What follows the count in a partial answer.
pub open spec fn partial_rest(body: Seq<char>) -> Seq<char> {
    let at = find_char(body, ' ', 0);
    if at < body.len() {
        body.skip(at + 1)
    } else {
        Seq::empty()
    }
}

/// What the answer to a forwarded deletion means: how many keys went, or why it
/// failed. A peer that could do only a part of it counts as failed.
pub fn delete_reply(reply: &Frame, shown: &str) -> (r: Result<i64, ClusterError>)
    ensures
        match reply@ {
            FrameView::Integer(n) => r is Ok && r->Ok_0 == n,
            FrameView::SimpleString(s) if starts_with(s, "PARTIAL "@) => {
                let body = s.skip("PARTIAL "@.len() as int);
                r is Err && r->Err_0@ == ClusterErrorView::ServerGone(
                    "downstream partial: count="@ + ascii_chars(
                        signed_decimal(partial_count(body)),
                    ) + ", err="@ + partial_rest(body),
                )
            },
            FrameView::Error(e) => r is Err && r->Err_0@ == ClusterErrorView::ServerGone(e),
            _ => r is Err && r->Err_0@ == ClusterErrorView::Codec(
                "unexpected DM.DEL reply: "@ + shown@,
            ),
        },
{
    match reply {
        Frame::Integer(n) => {
            return Ok(*n);
        },
        Frame::SimpleString(s) => {
            if let Some(body) = strip_prefix(s.as_str(), "PARTIAL ") {
                let c: Vec<char> = chars_of(body.as_str());
                let at: usize = position_of(&c, ' ', 0);
                let digits: String = text_between(&c, 0, at);
                assert(digits@ =~= body@.take(at as int));
                let count: i64 = match parse_signed(digits.as_str().as_bytes()) {
                    Some(n) => n,
                    None => 0,
                };
                let rest: String = if at < c.len() {
                    text_between(&c, at + 1, c.len())
                } else {
                    String::new()
                };
                assert(rest@ =~= partial_rest(body@));
                let mut m: String = "downstream partial: count=".to_owned();
                push_signed_decimal(&mut m, count);
                m.append(", err=");
                m.append(rest.as_str());
                return Err(ClusterError::ServerGone(m));
            }
        },
        Frame::Error(e) => {
            return Err(ClusterError::ServerGone(e.clone()));
        },
        _ => {},
    }
    Err(ClusterError::Codec(with_text("unexpected DM.DEL reply: ", shown)))
}

/// How many subscribers a peer reached: what it answered, where that is a count.
pub open spec fn reached(reply: Result<Frame, ClusterError>) -> int {
    match reply {
        Ok(f) => match f@ {
            FrameView::Integer(n) => if n >= 0 {
                n
            } else {
                0
            },
            _ => 0,
        },
        Err(_) => 0,
    }
}

/// Sum of the subscribers that were reached, up to the largest size.
pub open spec fn reached_total(local: int, replies: Seq<Result<Frame, ClusterError>>, n: int) -> int
    decreases n,
{
    if n <= 0 {
        local
    } else {
        let sum = reached_total(local, replies, n - 1) + reached(replies[n - 1]);
        if sum > usize::MAX {
            usize::MAX as int
        } else {
            sum
        }
    }
}

/// How many subscribers a message reached: the local ones and those of the peers
/// that answered.
pub fn publish_total(local: usize, replies: &Vec<Result<Frame, ClusterError>>) -> (r: usize)
    ensures
        r == reached_total(local as int, replies@, replies@.len() as int),
{
    let mut total: usize = local;
    let mut i: usize = 0;
    while i < replies.len()
        invariant
            i <= replies@.len(),
            total == reached_total(local as int, replies@, i as int),
        decreases replies@.len() - i,
    {
        match &replies[i] {
            Ok(frame) => {
                if let Frame::Integer(n) = frame {
                    if *n >= 0 {
                        let m: u64 = *n as u64;
                        if m > (usize::MAX - total) as u64 {
                            total = usize::MAX;
                        } else {
                            total = total + m as usize;
                        }
                    }
                }
            },
            Err(_) => {},
        }
        i = i + 1;
    }
    total
}

/// A peer's answer counts where it is a number that is not negative.
pub open spec fn counted(replies: Seq<Result<Frame, ClusterError>>) -> int
    decreases replies.len(),
{
    if replies.len() == 0 {
        0
    } else {
        counted(replies.drop_last()) + (match replies.last() {
            Ok(f) => match f@ {
                FrameView::Integer(n) => if n >= 0 {
                    n
                } else {
                    0
                },
                _ => 0,
            },
            Err(_) => 0,
        })
    }
}

/// A message reached the local subscribers and all those that peers have counted,
/// as far as a machine word can tell.
pub proof fn law_reached_subscribers_add_up(
    local: usize,
    replies: Seq<Result<Frame, ClusterError>>,
)
    ensures
        counted(replies) >= 0,
        local + counted(replies) <= usize::MAX ==> reached_total(
            local as int,
            replies,
            replies.len() as int,
        ) == local + counted(replies),
        local + counted(replies) > usize::MAX ==> reached_total(
            local as int,
            replies,
            replies.len() as int,
        ) == usize::MAX,
{
    lemma_reached_upto(local, replies, replies.len() as int);
    assert(replies.take(replies.len() as int) =~= replies);
}

proof fn lemma_reached_upto(local: usize, replies: Seq<Result<Frame, ClusterError>>, n: int)
    requires
        0 <= n <= replies.len(),
    ensures
        counted(replies.take(n)) >= 0,
        local + counted(replies.take(n)) <= usize::MAX ==> reached_total(local as int, replies, n)
            == local + counted(replies.take(n)),
        local + counted(replies.take(n)) > usize::MAX ==> reached_total(local as int, replies, n)
            == usize::MAX,
    decreases n,
{
    if n > 0 {
        lemma_reached_upto(local, replies, n - 1);
        assert(replies.take(n).drop_last() =~= replies.take(n - 1));
        assert(replies.take(n).last() == replies[n - 1]);
    }
}

} // verus!
