//! A client of several servers: which one to ask, and what to do when a server
//! points to another one.
//!
//! Connections are known by numbers of the caller's.

use vstd::prelude::*;
use vstd::string::*;

use crate::client::error::{Error, ErrorView};
use crate::text::str_equal;

verus! {

/// Values of a list of addresses.
pub open spec fn addrs_view(s: Seq<String>) -> Seq<Seq<char>> {
    Seq::new(s.len(), |i: int| s[i]@)
}

/// The connections, by address. A later one takes the place of an earlier one.
pub open spec fn pool_of(s: Seq<(String, u64)>) -> Map<Seq<char>, u64>
    decreases s.len(),
{
    if s.len() == 0 {
        Map::empty()
    } else {
        pool_of(s.drop_last()).insert(s.last().0@, s.last().1)
    }
}

/// Mathematical value of a [`MultiNodeRemoteClient`].
#[verifier::ext_equal]
pub ghost struct NodesView {
    /// Addresses to start from.
    pub seeds: Seq<Seq<char>>,
    /// How often a seed was picked, as far as a machine word can count.
    pub next: usize,
    /// The connections, by address.
    pub pool: Map<Seq<char>, u64>,
}

/// A client of several servers.
#[derive(Debug)]
pub struct MultiNodeRemoteClient {
    seeds: Vec<String>,
    next: usize,
    pool: Vec<(String, u64)>,
}

impl View for MultiNodeRemoteClient {
    type V = NodesView;

    closed spec fn view(&self) -> NodesView {
        NodesView { seeds: addrs_view(self.seeds@), next: self.next, pool: pool_of(self.pool@) }
    }
}

/// How to go on after a failure.
#[derive(Debug)]
pub enum RetryStep {
    /// Ask the server at this address.
    Retry(String),
    /// Give up.
    Fail(Error),
}

impl MultiNodeRemoteClient {
    /// There is a seed.
    pub open spec fn wf(&self) -> bool {
        self@.seeds.len() > 0
    }

    /// A client that starts from these addresses.
    pub fn new(seeds: Vec<String>) -> (r: Result<Self, Error>)
        ensures
            if seeds@.len() == 0 {
                r is Err && r->Err_0@ == ErrorView::InvalidArgument(
                    "MultiNodeRemoteClient requires at least one seed address"@,
                )
            } else {
                r is Ok && r->Ok_0.wf() && r->Ok_0@ == (NodesView {
                    seeds: addrs_view(seeds@),
                    next: 0,
                    pool: Map::empty(),
                })
            },
    {
        if seeds.len() == 0 {
            return Err(
                Error::InvalidArgument(
                    "MultiNodeRemoteClient requires at least one seed address".to_owned(),
                ),
            );
        }
        Ok(MultiNodeRemoteClient { seeds, next: 0, pool: Vec::new() })
    }

    /// The address that is connected to first.
    pub fn warm_addr(&self) -> (r: &str)
        requires
            self.wf(),
        ensures
            r@ == self@.seeds[0],
    {
        self.seeds[0].as_str()
    }

    /// The next seed, in turn.
    pub fn pick_seed(&mut self) -> (r: String)
        requires
            old(self).wf(),
        ensures
            final(self).wf(),
            r@ == old(self)@.seeds[old(self)@.next as int % old(self)@.seeds.len() as int],
            final(self)@ == (NodesView {
                next: if old(self)@.next == usize::MAX {
                    0
                } else {
                    (old(self)@.next + 1) as usize
                },
                ..old(self)@
            }),
    {
        let i: usize = self.next % self.seeds.len();
        self.next = if self.next == usize::MAX {
            0
        } else {
            self.next + 1
        };
        assert(self@.seeds[i as int] == self.seeds@[i as int]@);
        self.seeds[i].as_str().to_owned()
    }

    /// The connection to an address.
    pub fn cached_handle(&self, addr: &str) -> (r: Option<u64>)
        ensures
            match r {
                Some(h) => self@.pool.contains_key(addr@) && self@.pool[addr@] == h,
                None => !self@.pool.contains_key(addr@),
            },
    {
        let mut i: usize = self.pool.len();
        assert(self.pool@.take(i as int) =~= self.pool@);
        while i > 0
            invariant
                i <= self.pool@.len(),
                self@.pool.contains_key(addr@) == pool_of(self.pool@.take(i as int)).contains_key(
                    addr@,
                ),
                self@.pool.contains_key(addr@) ==> self@.pool[addr@] == pool_of(
                    self.pool@.take(i as int),
                )[addr@],
            decreases i,
        {
            let ghost front = self.pool@.take(i as int);
            assert(front.drop_last() =~= self.pool@.take(i - 1));
            assert(front.last() == self.pool@[i - 1]);
            if str_equal(self.pool[i - 1].0.as_str(), addr) {
                return Some(self.pool[i - 1].1);
            }
            i = i - 1;
        }
        None
    }

    /// A connection to an address was opened.
    pub fn connected(&mut self, addr: &str, handle: u64)
        ensures
            final(self)@ == (NodesView {
                pool: old(self)@.pool.insert(addr@, handle),
                ..old(self)@
            }),
    {
        let ghost before = self.pool@;
        self.pool.push((addr.to_owned(), handle));
        assert(self.pool@.drop_last() =~= before);
    }

    /// Forgets the connection to an address.
    pub fn evict(&mut self, addr: &str)
        ensures
            final(self)@ == (NodesView { pool: old(self)@.pool.remove(addr@), ..old(self)@ }),
    {
        let ghost all = self.pool@;
        let mut kept: Vec<(String, u64)> = Vec::new();
        let mut i: usize = 0;
        assert(all.take(0) =~= Seq::empty());
        assert(pool_of(kept@) =~= pool_of(all.take(0)).remove(addr@));
        while i < self.pool.len()
            invariant
                i <= all.len(),
                all == self.pool@,
                self@ == old(self)@,
                pool_of(kept@) == pool_of(all.take(i as int)).remove(addr@),
            decreases all.len() - i,
        {
            let ghost before = kept@;
            assert(all.take(i + 1).drop_last() =~= all.take(i as int));
            assert(all.take(i + 1).last() == all[i as int]);
            if !str_equal(self.pool[i].0.as_str(), addr) {
                kept.push((self.pool[i].0.as_str().to_owned(), self.pool[i].1));
                assert(kept@.drop_last() =~= before);
                assert(kept@.last().0@ == all[i as int].0@);
            }
            assert(pool_of(kept@) =~= pool_of(all.take(i + 1)).remove(addr@));
            i = i + 1;
        }
        assert(all.take(i as int) =~= all);
        self.pool = kept;
    }

    /// Forgets all connections.
    pub fn close(&mut self)
        ensures
            final(self)@ == (NodesView { pool: Map::empty(), ..old(self)@ }),
    {
        self.pool = Vec::new();
    }
}

/// How to go on after an operation failed; `retried` says whether it was tried
/// again before. A redirection is followed once.
pub fn after_failure(e: Error, retried: bool) -> (r: RetryStep)
    ensures
        match e@ {
            ErrorView::Moved { addr, .. } if !retried => r matches RetryStep::Retry(a) && a@
                == addr,
            _ => r == RetryStep::Fail(e),
        },
{
    if !retried {
        match e {
            Error::Moved { addr, .. } => return RetryStep::Retry(addr),
            _ => return RetryStep::Fail(e),
        }
    }
    RetryStep::Fail(e)
}

/// Seeds are picked in turn: among as many picks in a row as there are seeds,
/// each seed comes up, until the count starts over.
pub proof fn law_seeds_take_turns(n: int, first: int, seed: int) -> (k: int)
    requires
        n > 0,
        first >= 0,
        0 <= seed < n,
    ensures
        0 <= k < n,
        (first + k) % n == seed,
{
    let at = first % n;
    let k = if seed >= at {
        seed - at
    } else {
        seed + n - at
    };
    vstd::arithmetic::div_mod::lemma_fundamental_div_mod(first, n);
    vstd::arithmetic::div_mod::lemma_mod_bound(first, n);
    let q = first / n;
    assert(n * q == q * n) by (nonlinear_arith);
    if seed >= at {
        assert(first + k == n * q + seed);
        vstd::arithmetic::div_mod::lemma_fundamental_div_mod_converse(first + k, n, q, seed);
    } else {
        assert((q + 1) * n == q * n + n) by (nonlinear_arith);
        vstd::arithmetic::div_mod::lemma_fundamental_div_mod_converse(first + k, n, q + 1, seed);
    }
    k
}

} // verus!
