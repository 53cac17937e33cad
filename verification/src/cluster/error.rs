//! Errors of the cluster subsystems.

use vstd::prelude::*;
use vstd::string::*;

use crate::net::{addr_text, number_text, SocketAddr};
use crate::text::push_decimal;

verus! {

/// Failures of membership, discovery, routing and inter-node traffic.
#[derive(Debug, PartialEq, Eq)]
pub enum ClusterError {
    /// Socket failure, as the operating system words it.
    Io(String),
    /// Malformed bytes.
    Codec(String),
    /// The inter-node handshake was refused.
    Handshake(String),
    /// A discovery plugin failed.
    Discovery(String),
    /// No peer could be joined.
    JoinFailed { attempts: u32, last: String },
    /// The peer is not known to the local view.
    UnknownPeer(SocketAddr),
    /// The configuration does not fit the operation.
    Config(String),
    /// The runtime has shut down.
    Shutdown,
    /// The connection to a peer is gone.
    ServerGone(String),
    /// A peer did not answer in time.
    Timeout(String),
    /// The peer redirects to another node.
    Moved(String),
}

/// Mathematical value of a [`ClusterError`].
pub ghost enum ClusterErrorView {
    Io(Seq<char>),
    Codec(Seq<char>),
    Handshake(Seq<char>),
    Discovery(Seq<char>),
    JoinFailed { attempts: u32, last: Seq<char> },
    UnknownPeer(SocketAddr),
    Config(Seq<char>),
    Shutdown,
    ServerGone(Seq<char>),
    Timeout(Seq<char>),
    Moved(Seq<char>),
}

impl View for ClusterError {
    type V = ClusterErrorView;

    open spec fn view(&self) -> ClusterErrorView {
        match self {
            ClusterError::Io(m) => ClusterErrorView::Io(m@),
            ClusterError::Codec(m) => ClusterErrorView::Codec(m@),
            ClusterError::Handshake(m) => ClusterErrorView::Handshake(m@),
            ClusterError::Discovery(m) => ClusterErrorView::Discovery(m@),
            ClusterError::JoinFailed { attempts, last } => ClusterErrorView::JoinFailed {
                attempts: *attempts,
                last: last@,
            },
            ClusterError::UnknownPeer(a) => ClusterErrorView::UnknownPeer(*a),
            ClusterError::Config(m) => ClusterErrorView::Config(m@),
            ClusterError::Shutdown => ClusterErrorView::Shutdown,
            ClusterError::ServerGone(m) => ClusterErrorView::ServerGone(m@),
            ClusterError::Timeout(m) => ClusterErrorView::Timeout(m@),
            ClusterError::Moved(m) => ClusterErrorView::Moved(m@),
        }
    }
}

/// Text of a cluster error.
pub open spec fn cluster_message(e: ClusterErrorView) -> Seq<char> {
    match e {
        ClusterErrorView::Io(m) => "transport I/O error: "@ + m,
        ClusterErrorView::Codec(m) => "malformed SWIM message: "@ + m,
        ClusterErrorView::Handshake(m) => "cluster handshake rejected: "@ + m,
        ClusterErrorView::Discovery(m) => "discovery failed: "@ + m,
        ClusterErrorView::JoinFailed { attempts, last } => "join failed after "@ + number_text(
            attempts as int,
        ) + " attempts (last error: "@ + last + ")"@,
        ClusterErrorView::UnknownPeer(a) => "unknown peer: "@ + addr_text(a),
        ClusterErrorView::Config(m) => "invalid cluster configuration: "@ + m,
        ClusterErrorView::Shutdown => "cluster runtime shut down"@,
        ClusterErrorView::ServerGone(m) => "server gone: "@ + m,
        ClusterErrorView::Timeout(m) => "timeout: "@ + m,
        ClusterErrorView::Moved(m) => "moved: "@ + m,
    }
}

fn with_prefix(prefix: &str, m: &str) -> (r: String)
    ensures
        r@ == prefix@ + m@,
{
    let mut s: String = prefix.to_owned();
    s.append(m);
    s
}

impl ClusterError {
    /// The error as a line of text.
    pub fn message(&self) -> (r: String)
        ensures
            r@ == cluster_message(self@),
    {
        match self {
            ClusterError::Io(m) => with_prefix("transport I/O error: ", m.as_str()),
            ClusterError::Codec(m) => with_prefix("malformed SWIM message: ", m.as_str()),
            ClusterError::Handshake(m) => with_prefix("cluster handshake rejected: ", m.as_str()),
            ClusterError::Discovery(m) => with_prefix("discovery failed: ", m.as_str()),
            ClusterError::JoinFailed { attempts, last } => {
                let mut s: String = "join failed after ".to_owned();
                push_decimal(&mut s, *attempts as u64);
                s.append(" attempts (last error: ");
                s.append(last.as_str());
                s.append(")");
                s
            },
            ClusterError::UnknownPeer(a) => with_prefix("unknown peer: ", a.to_text().as_str()),
            ClusterError::Config(m) => with_prefix("invalid cluster configuration: ", m.as_str()),
            ClusterError::Shutdown => "cluster runtime shut down".to_owned(),
            ClusterError::ServerGone(m) => with_prefix("server gone: ", m.as_str()),
            ClusterError::Timeout(m) => with_prefix("timeout: ", m.as_str()),
            ClusterError::Moved(m) => with_prefix("moved: ", m.as_str()),
        }
    }
}

} // verus!
