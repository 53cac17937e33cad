//! Finding peers.

use vstd::prelude::*;
use vstd::string::*;

use crate::cluster::error::{ClusterError, ClusterErrorView};
use crate::net::{number_text, SocketAddr};
use crate::text::push_decimal;

verus! {

/// A configured peer: its text, and the address that it stands for or why it
/// stands for none.
#[derive(Debug)]
pub struct PeerText {
    pub raw: String,
    pub parsed: Result<SocketAddr, String>,
}

/// Peers from the configuration.
#[derive(Debug)]
pub struct StaticDiscovery {
    peers: Vec<SocketAddr>,
}

/// What is wrong with the first bad peer, from the `i`-th on.
pub open spec fn bad_peer(peers: Seq<PeerText>, i: int) -> Option<Seq<char>>
    decreases peers.len() - i,
{
    if i >= peers.len() {
        None
    } else {
        match peers[i].parsed {
            Err(e) => Some("invalid peer '"@ + peers[i].raw@ + "': "@ + e@),
            Ok(_) => bad_peer(peers, i + 1),
        }
    }
}

impl StaticDiscovery {
    /// The peers.
    pub closed spec fn addrs(&self) -> Seq<SocketAddr> {
        self.peers@
    }

    /// Takes the configured peers; the first one that is no address is
    /// reported.
    pub fn new(peers: &Vec<PeerText>) -> (r: Result<Self, ClusterError>)
        ensures
            match bad_peer(peers@, 0) {
                Some(m) => r is Err && r->Err_0@ == ClusterErrorView::Config(m),
                None => {
                    &&& r is Ok
                    &&& r->Ok_0.addrs().len() == peers@.len()
                    &&& forall|i: int|
                        0 <= i < peers@.len() ==> (#[trigger] peers@[i]).parsed is Ok
                            && r->Ok_0.addrs()[i] == peers@[i].parsed->Ok_0
                },
            },
    {
        let mut out: Vec<SocketAddr> = Vec::new();
        let mut i: usize = 0;
        while i < peers.len()
            invariant
                i <= peers@.len(),
                bad_peer(peers@, 0) == bad_peer(peers@, i as int),
                out@.len() == i,
                forall|k: int|
                    0 <= k < i ==> (#[trigger] peers@[k]).parsed is Ok && out@[k]
                        == peers@[k].parsed->Ok_0,
            decreases peers@.len() - i,
        {
            match &peers[i].parsed {
                Ok(a) => {
                    out.push(*a);
                },
                Err(e) => {
                    let mut m: String = "invalid peer '".to_owned();
                    m.append(peers[i].raw.as_str());
                    m.append("': ");
                    m.append(e.as_str());
                    return Err(ClusterError::Config(m));
                },
            }
            i = i + 1;
        }
        Ok(StaticDiscovery { peers: out })
    }

    /// Takes addresses as they are.
    pub fn from_addrs(peers: Vec<SocketAddr>) -> (r: Self)
        ensures
            r.addrs() == peers@,
    {
        StaticDiscovery { peers }
    }

    /// The peers.
    pub fn discover(&self) -> (r: Vec<SocketAddr>)
        ensures
            r@ == self.addrs(),
    {
        let mut out: Vec<SocketAddr> = Vec::new();
        let mut i: usize = 0;
        while i < self.peers.len()
            invariant
                i <= self.peers@.len(),
                out@ == self.peers@.take(i as int),
            decreases self.peers@.len() - i,
        {
            out.push(self.peers[i]);
            assert(out@ =~= self.peers@.take(i + 1));
            i = i + 1;
        }
        assert(out@ =~= self.peers@);
        out
    }

    /// Name for logs.
    pub fn name(&self) -> (r: &'static str)
        ensures
            r@ == "static"@,
    {
        "static"
    }
}

/// Peers behind a host name.
#[derive(Debug)]
pub struct DnsDiscovery {
    hostname: String,
    port: u16,
}

impl DnsDiscovery {
    /// The host and port that are looked up.
    pub closed spec fn host_port(&self) -> Seq<char> {
        self.hostname@ + ":"@ + number_text(self.port as int)
    }

    /// Looks peers up behind a host name; all of them listen on `port`.
    pub fn new(hostname: &str, port: u16) -> (r: Self)
        ensures
            r.host_port() == hostname@ + ":"@ + number_text(port as int),
    {
        DnsDiscovery { hostname: hostname.to_owned(), port }
    }

    /// What is looked up.
    pub fn query(&self) -> (r: String)
        ensures
            r@ == self.host_port(),
    {
        let mut s: String = self.hostname.clone();
        s.append(":");
        push_decimal(&mut s, self.port as u64);
        s
    }

    /// The error of a failed lookup.
    pub fn lookup_failed(&self, reason: &str) -> (r: ClusterError)
        ensures
            r@ == ClusterErrorView::Discovery(
                "dns lookup '"@ + self.host_port() + "': "@ + reason@,
            ),
    {
        let mut m: String = "dns lookup '".to_owned();
        m.append(self.query().as_str());
        m.append("': ");
        m.append(reason);
        ClusterError::Discovery(m)
    }

    /// Name for logs.
    pub fn name(&self) -> (r: &'static str)
        ensures
            r@ == "dns"@,
    {
        "dns"
    }
}

/// A list of peers is accepted if and only if each of them is an address.
pub proof fn law_peers_are_addresses(peers: Seq<PeerText>, i: int)
    requires
        0 <= i <= peers.len(),
    ensures
        bad_peer(peers, i) is None <==> forall|k: int|
            i <= k < peers.len() ==> (#[trigger] peers[k]).parsed is Ok,
    decreases peers.len() - i,
{
    if i < peers.len() {
        law_peers_are_addresses(peers, i + 1);
        if peers[i].parsed is Ok && bad_peer(peers, i + 1) is None {
            assert forall|k: int|
                i <= k < peers.len() implies (#[trigger] peers[k]).parsed is Ok by {
                if k > i {
                    assert(i + 1 <= k);
                }
            }
        }
    }
}

} // verus!
