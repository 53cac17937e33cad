//! Connections to peers: which one a request goes out on, and whom an answer
//! belongs to.

use std::collections::VecDeque;

use vstd::arithmetic::power2::{lemma2_to64, lemma_pow2_unfold, pow2};
use vstd::prelude::*;
use vstd::string::*;

use crate::cluster::error::{ClusterError, ClusterErrorView};
use crate::cluster::replies::map_reply;
use crate::config::node::Config;
use crate::net::{addr_text, SocketAddr};
use crate::protocol::frame::{Frame, FrameView};
use crate::text::starts_with;

verus! {

/// Settings of the connections to peers. Durations are in nanoseconds.
#[derive(Debug)]
pub struct ForwarderConfig {
    /// Connections to each peer.
    pub pool_size: u32,
    /// Requests in flight on one connection.
    pub inflight_per_conn: u32,
    /// How long connecting may take.
    pub connect_timeout: u64,
    /// How long a peer may take to answer.
    pub request_timeout: u64,
    /// First pause before connecting again.
    pub reconnect_backoff_min: u64,
    /// Longest pause before connecting again.
    pub reconnect_backoff_max: u64,
    /// Secret of the cluster.
    pub cluster_secret: String,
}

impl Default for ForwarderConfig {
    fn default() -> (r: Self)
        ensures
            r.pool_size == 4,
            r.inflight_per_conn == 256,
            r.connect_timeout == 500_000_000,
            r.request_timeout == 2_000_000_000,
            r.reconnect_backoff_min == 100_000_000,
            r.reconnect_backoff_max == 5_000_000_000,
            r.cluster_secret@ == ""@,
    {
        ForwarderConfig {
            pool_size: 4,
            inflight_per_conn: 256,
            connect_timeout: 500_000_000,
            request_timeout: 2_000_000_000,
            reconnect_backoff_min: 100_000_000,
            reconnect_backoff_max: 5_000_000_000,
            cluster_secret: "".to_owned(),
        }
    }
}

/// The settings of the connections to peers, out of those of the node.
pub fn forwarder_config_from(cfg: &Config) -> (r: ForwarderConfig)
    ensures
        r.pool_size == cfg.network.internode_pool_size,
        r.inflight_per_conn == cfg.network.internode_inflight_per_conn,
        r.connect_timeout == cfg.network.internode_connect_timeout,
        r.request_timeout == cfg.network.internode_request_timeout,
        r.reconnect_backoff_min == cfg.network.internode_reconnect_backoff_min,
        r.reconnect_backoff_max == cfg.network.internode_reconnect_backoff_max,
        r.cluster_secret@ == cfg.auth.cluster_secret@,
{
    ForwarderConfig {
        pool_size: cfg.network.internode_pool_size,
        inflight_per_conn: cfg.network.internode_inflight_per_conn,
        connect_timeout: cfg.network.internode_connect_timeout,
        request_timeout: cfg.network.internode_request_timeout,
        reconnect_backoff_min: cfg.network.internode_reconnect_backoff_min,
        reconnect_backoff_max: cfg.network.internode_reconnect_backoff_max,
        cluster_secret: cfg.auth.cluster_secret.clone(),
    }
}

/// Pause before the connection attempt that follows `failures` failed ones: it
/// doubles from the shortest on, up to the longest.
pub open spec fn backoff(min: u64, max: u64, failures: nat) -> int
    decreases failures,
{
    if failures == 0 {
        if min < max {
            min as int
        } else {
            max as int
        }
    } else {
        let twice = 2 * backoff(min, max, (failures - 1) as nat);
        if twice < max {
            twice
        } else {
            max as int
        }
    }
}

/// Pause before the connection attempt that follows `failures` failed ones.
pub fn reconnect_backoff(config: &ForwarderConfig, failures: u32) -> (r: u64)
    ensures
        r == backoff(
            config.reconnect_backoff_min,
            config.reconnect_backoff_max,
            failures as nat,
        ),
        r <= config.reconnect_backoff_max,
{
    let max: u64 = config.reconnect_backoff_max;
    let mut pause: u64 = if config.reconnect_backoff_min < max {
        config.reconnect_backoff_min
    } else {
        max
    };
    let mut i: u32 = 0;
    while i < failures
        invariant
            i <= failures,
            max == config.reconnect_backoff_max,
            pause <= max,
            pause == backoff(config.reconnect_backoff_min, max, i as nat),
        decreases failures - i,
    {
        if pause < max - pause {
            pause = 2 * pause;
        } else {
            pause = max;
        }
        i = i + 1;
    }
    pause
}

// ---------------------------------------------------------------------------
// The pool of a peer
// ---------------------------------------------------------------------------

/// What a request to a peer does next.
#[derive(Debug, Clone, Copy, PartialEq, Eq, Structural)]
pub enum PoolStep {
    /// It goes out on this connection.
    Use(u64),
    /// It waits for one more connection.
    Dial,
}

/// The connections to one peer.
#[derive(Debug)]
pub struct PeerPool {
    addr: SocketAddr,
    size: usize,
    conns: Vec<u64>,
    next: usize,
    closed: bool,
}

/// Mathematical value of a [`PeerPool`].
#[verifier::ext_equal]
pub ghost struct PoolView {
    pub addr: SocketAddr,
    /// How many connections the pool wants; at least one.
    pub size: nat,
    /// The connections, oldest first.
    pub conns: Seq<u64>,
    /// Number of requests so far; it starts over at 0.
    pub next: usize,
    /// Whether the peer is gone for good.
    pub closed: bool,
}

impl View for PeerPool {
    type V = PoolView;

    closed spec fn view(&self) -> PoolView {
        PoolView {
            addr: self.addr,
            size: self.size as nat,
            conns: self.conns@,
            next: self.next,
            closed: self.closed,
        }
    }
}

/// The connections that are still open, in order. `open[i]` says so of the
/// `i`-th.
pub open spec fn still_open(conns: Seq<u64>, open: Seq<bool>, n: int) -> Seq<u64>
    decreases n,
{
    if n <= 0 {
        Seq::empty()
    } else {
        let front = still_open(conns, open, n - 1);
        if open[n - 1] {
            front.push(conns[n - 1])
        } else {
            front
        }
    }
}

impl PeerPool {
    /// A pool without connections.
    pub fn new(addr: SocketAddr, pool_size: u32) -> (r: Self)
        ensures
            r@ == (PoolView {
                addr,
                size: if pool_size == 0 {
                    1
                } else {
                    pool_size as nat
                },
                conns: Seq::empty(),
                next: 0,
                closed: false,
            }),
    {
        let size: usize = if pool_size == 0 {
            1
        } else {
            pool_size as usize
        };
        PeerPool { addr, size, conns: Vec::new(), next: 0, closed: false }
    }

    /// The connections, oldest first.
    pub fn connections(&self) -> (r: &Vec<u64>)
        ensures
            r@ == self@.conns,
    {
        &self.conns
    }

    /// Decides what a request does next. Connections that have ended leave the
    /// pool; once it is full, the connections take turns. Requests to a peer
    /// that is gone fail.
    pub fn pick(&mut self, open: &Vec<bool>) -> (r: Result<PoolStep, ClusterError>)
        requires
            open@.len() == old(self)@.conns.len(),
            old(self)@.size > 0,
        ensures
            ({
                let s = old(self)@;
                let live = still_open(s.conns, open@, s.conns.len() as int);
                if s.closed {
                    &&& r is Err
                    &&& r->Err_0@ == ClusterErrorView::ServerGone(
                        "peer "@ + addr_text(s.addr) + " evicted"@,
                    )
                    &&& final(self)@ == s
                } else if live.len() >= s.size {
                    &&& r == Ok::<PoolStep, ClusterError>(
                        PoolStep::Use(live[s.next as int % live.len() as int]),
                    )
                    &&& final(self)@ == (PoolView {
                        conns: live,
                        next: if s.next == usize::MAX {
                            0
                        } else {
                            (s.next + 1) as usize
                        },
                        ..s
                    })
                } else {
                    &&& r == Ok::<PoolStep, ClusterError>(PoolStep::Dial)
                    &&& final(self)@ == (PoolView { conns: live, ..s })
                }
            }),
    {
        if self.closed {
            let mut m: String = "peer ".to_owned();
            m.append(self.addr.to_text().as_str());
            m.append(" evicted");
            return Err(ClusterError::ServerGone(m));
        }
        let ghost s = self@;
        let mut live: Vec<u64> = Vec::new();
        let mut i: usize = 0;
        while i < self.conns.len()
            invariant
                *self == *old(self),
                s == self@,
                i <= self.conns@.len(),
                open@.len() == self.conns@.len(),
                live@ == still_open(s.conns, open@, i as int),
            decreases self.conns@.len() - i,
        {
            if open[i] {
                live.push(self.conns[i]);
            }
            i = i + 1;
        }
        self.conns = live;
        if self.conns.len() >= self.size {
            let turn: usize = self.next;
            self.next = if turn == usize::MAX {
                0
            } else {
                turn + 1
            };
            let at: usize = turn % self.conns.len();
            Ok(PoolStep::Use(self.conns[at]))
        } else {
            Ok(PoolStep::Dial)
        }
    }

    /// Takes a new connection in, unless the pool is full by now; whether it was
    /// taken in.
    pub fn dialed(&mut self, conn: u64) -> (r: bool)
        ensures
            r == (old(self)@.conns.len() < old(self)@.size),
            final(self)@ == (PoolView {
                conns: if r {
                    old(self)@.conns.push(conn)
                } else {
                    old(self)@.conns
                },
                ..old(self)@
            }),
    {
        if self.conns.len() < self.size {
            self.conns.push(conn);
            true
        } else {
            false
        }
    }

    /// Gives the peer up and returns the connections that are to be closed.
    pub fn evict(&mut self) -> (r: Vec<u64>)
        ensures
            r@ == old(self)@.conns,
            final(self)@ == (PoolView { conns: Seq::empty(), closed: true, ..old(self)@ }),
    {
        let mut out: Vec<u64> = Vec::new();
        std::mem::swap(&mut out, &mut self.conns);
        self.closed = true;
        out
    }
}

// ---------------------------------------------------------------------------
// Requests in flight
// ---------------------------------------------------------------------------

/// The requests in flight on one connection. Answers come in the order of the
/// requests.
#[derive(Debug)]
pub struct InFlight {
    waiting: VecDeque<u64>,
}

impl View for InFlight {
    type V = Seq<u64>;

    closed spec fn view(&self) -> Seq<u64> {
        self.waiting@
    }
}

/// What an answer means to the one who waits for it.
pub open spec fn is_mapped(frame: Frame, outcome: Result<Frame, ClusterError>) -> bool {
    match frame@ {
        FrameView::Error(e) if starts_with(e, "MOVED "@) => outcome is Err && outcome->Err_0@
            == ClusterErrorView::Moved(e.skip("MOVED "@.len() as int)),
        _ => outcome == Ok::<Frame, ClusterError>(frame),
    }
}

impl InFlight {
    /// No request is in flight.
    pub fn new() -> (r: Self)
        ensures
            r@ == Seq::<u64>::empty(),
    {
        InFlight { waiting: VecDeque::new() }
    }

    /// A request goes out.
    pub fn sent(&mut self, request: u64)
        ensures
            final(self)@ == old(self)@.push(request),
    {
        self.waiting.push_back(request);
    }

    /// An answer comes in: it belongs to the oldest request. `None` comes back
    /// where nobody waits.
    pub fn answered(&mut self, frame: Frame) -> (r: Option<(u64, Result<Frame, ClusterError>)>)
        ensures
            if old(self)@.len() == 0 {
                r is None && final(self)@ == old(self)@
            } else {
                &&& r is Some
                &&& (r->0).0 == old(self)@[0]
                &&& is_mapped(frame, (r->0).1)
                &&& final(self)@ == old(self)@.skip(1)
            },
    {
        match self.waiting.pop_front() {
            None => None,
            Some(request) => {
                assert(self@ =~= old(self)@.skip(1));
                Some((request, map_reply(frame)))
            },
        }
    }

    /// The connection has ended: all requests that wait fail for this reason.
    pub fn failed(&mut self, reason: &str) -> (r: Vec<(u64, ClusterError)>)
        ensures
            final(self)@ == Seq::<u64>::empty(),
            r@.len() == old(self)@.len(),
            forall|i: int|
                0 <= i < r@.len() ==> (#[trigger] r@[i]).0 == old(self)@[i] && r@[i].1@
                    == ClusterErrorView::ServerGone(reason@),
    {
        let ghost all = self@;
        let mut out: Vec<(u64, ClusterError)> = Vec::new();
        while self.waiting.len() > 0
            invariant
                out@.len() <= all.len(),
                self@ == all.skip(out@.len() as int),
                forall|i: int|
                    0 <= i < out@.len() ==> (#[trigger] out@[i]).0 == all[i] && out@[i].1@
                        == ClusterErrorView::ServerGone(reason@),
            decreases self@.len(),
        {
            let ghost n = out@.len() as int;
            match self.waiting.pop_front() {
                Some(request) => {
                    assert(all.skip(n)[0] == all[n]);
                    assert(self@ =~= all.skip(n + 1));
                    out.push((request, ClusterError::ServerGone(reason.to_owned())));
                },
                None => {},
            }
        }
        assert(self@ =~= Seq::<u64>::empty());
        out
    }
}

/// The k-th answer belongs to the k-th request, however many are in flight:
/// after one answer the rest still wait in order.
pub proof fn law_answers_come_in_order(waiting: Seq<u64>, more: Seq<u64>, k: int)
    requires
        0 <= k < waiting.len(),
    ensures
        (waiting + more).skip(k)[0] == waiting[k],
        (waiting + more).skip(k).skip(1) == (waiting + more).skip(k + 1),
{
    assert((waiting + more).skip(k).skip(1) =~= (waiting + more).skip(k + 1));
}

/// The pause before the next connection attempt doubles with every failure, from
/// the shortest one on, and stays at the longest one once it has reached it.
pub proof fn law_pauses_double(min: u64, max: u64, failures: nat)
    requires
        min <= max,
    ensures
        min * pow2(failures) <= max ==> backoff(min, max, failures) == min * pow2(failures),
        min * pow2(failures) > max ==> backoff(min, max, failures) == max,
    decreases failures,
{
    if failures == 0 {
        lemma2_to64();
        assert(min * pow2(0) == min);
    } else {
        let k = (failures - 1) as nat;
        law_pauses_double(min, max, k);
        lemma_pow2_unfold(failures);
        let p = pow2(k) as int;
        let m = min as int;
        assert(m * (2 * p) == 2 * (m * p)) by (nonlinear_arith);
        assert(min * pow2(failures) == 2 * (min * pow2(k)));
        assert(m * p >= 0) by (nonlinear_arith)
            requires
                m >= 0,
                p >= 0,
        ;
    }
}

/// The connections that stay are those that are open, in their order: they stood
/// at the places returned.
pub proof fn law_open_connections_stay(conns: Seq<u64>, open: Seq<bool>, n: int) -> (from: Seq<int>)
    requires
        0 <= n <= conns.len(),
        n <= open.len(),
    ensures
        from.len() == still_open(conns, open, n).len(),
        forall|k: int|
            0 <= k < from.len() ==> {
                &&& 0 <= #[trigger] from[k] < n
                &&& open[from[k]]
                &&& still_open(conns, open, n)[k] == conns[from[k]]
            },
        forall|a: int, b: int| 0 <= a < b < from.len() ==> #[trigger] from[a] < #[trigger] from[b],
        forall|i: int| 0 <= i < n && #[trigger] open[i] ==> from.contains(i),
    decreases n,
{
    if n <= 0 {
        Seq::empty()
    } else {
        let front = law_open_connections_stay(conns, open, n - 1);
        let from = if open[n - 1] {
            front.push(n - 1)
        } else {
            front
        };
        assert forall|i: int| 0 <= i < n && #[trigger] open[i] implies from.contains(i) by {
            if i < n - 1 {
                assert(front.contains(i));
                let a = choose|a: int| 0 <= a < front.len() && front[a] == i;
                assert(from[a] == i);
            } else {
                assert(from[front.len() as int] == i);
            }
        }
        from
    }
}

} // verus!
