//! Locks: a key that holds the token of whoever holds the lock.
//!
//! A lock is taken by writing a random token under a key that must be free. A
//! lease lets the lock go by itself.

use vstd::prelude::*;
use vstd::string::*;

use crate::chance::fill_random;
use crate::client::dmap::{
    after_put, holds_lock, lock_options, looked_up, made_room, put_fault, slot_of, with_entries,
    with_expiry, DMapState,
};
use crate::client::embedded::EmbeddedDMap;
use crate::client::error::{Error, ErrorView};
use crate::client::registry::{map_named, registered, with_state, EmbeddedClient};
use crate::client::types::{nanos_of, PutOptions};
use crate::hasher::Hasher;
use crate::text::bytes_to_vec;

verus! {

/// Length of a token.
pub const TOKEN_LEN: usize = 16;

/// How long to wait before the next attempt, in nanoseconds.
pub const LOCK_RETRY: u64 = 10_000_000;

/// A lock that is held.
#[derive(Debug)]
pub struct LockContext {
    token: Vec<u8>,
    name: String,
    key: String,
}

/// Mathematical value of a [`LockContext`].
pub ghost struct LockView {
    pub token: Seq<u8>,
    pub name: Seq<char>,
    pub key: Seq<char>,
}

impl View for LockContext {
    type V = LockView;

    closed spec fn view(&self) -> LockView {
        LockView { token: self.token@, name: self.name@, key: self.key@ }
    }
}

/// Someone wants a lock.
#[derive(Debug)]
pub struct LockRequest {
    token: Vec<u8>,
    key: String,
    lease_ns: Option<u64>,
    deadline_ns: u64,
}

/// Mathematical value of a [`LockRequest`].
pub ghost struct RequestView {
    pub token: Seq<u8>,
    pub key: Seq<char>,
    pub lease_ns: Option<u64>,
    pub deadline_ns: u64,
}

impl View for LockRequest {
    type V = RequestView;

    closed spec fn view(&self) -> RequestView {
        RequestView {
            token: self.token@,
            key: self.key@,
            lease_ns: self.lease_ns,
            deadline_ns: self.deadline_ns,
        }
    }
}

/// What an attempt to take a lock came to.
#[derive(Debug)]
pub enum LockStep {
    /// The lock is held.
    Held(LockContext),
    /// Another one holds it: try again after this many nanoseconds.
    Wait(u64),
    /// There will be no lock.
    Failed(Error),
}

/// How long to wait for the next attempt; `None` once it is too late.
pub open spec fn wait_for(elapsed_ns: u64, deadline_ns: u64) -> Option<u64> {
    if elapsed_ns >= deadline_ns {
        None
    } else if deadline_ns - elapsed_ns < LOCK_RETRY {
        Some((deadline_ns - elapsed_ns) as u64)
    } else {
        Some(LOCK_RETRY)
    }
}

/// What an attempt comes to, and what it makes of the map.
pub open spec fn attempted<H: Hasher>(
    s: DMapState<H>,
    q: RequestView,
    elapsed_ns: u64,
    now_micros: u64,
    r: LockStep,
    after: DMapState<H>,
) -> bool {
    let o = lock_options(q.lease_ns);
    let put = after_put(s, q.key, q.token, o, now_micros);
    match put_fault(s, q.key, q.token, o, now_micros) {
        None => {
            &&& made_room(put, after)
            &&& r matches LockStep::Held(c)
            &&& c@ == (LockView { token: q.token, name: s.name, key: q.key })
        },
        Some(e) => {
            &&& after == put
            &&& if e == ErrorView::KeyAlreadyExists {
                match wait_for(elapsed_ns, q.deadline_ns) {
                    Some(ns) => r matches LockStep::Wait(w) && w == ns,
                    None => r matches LockStep::Failed(f) && f@ == ErrorView::LockNotAcquired,
                }
            } else {
                r matches LockStep::Failed(f) && f@ == e
            }
        },
    }
}

/// A token that nobody else has, as far as chance can tell.
pub fn random_token() -> (r: Vec<u8>)
    ensures
        r@.len() == TOKEN_LEN,
{
    let mut buf: Vec<u8> = Vec::new();
    while buf.len() < TOKEN_LEN
        invariant
            buf@.len() <= TOKEN_LEN,
        decreases TOKEN_LEN - buf@.len(),
    {
        buf.push(0);
    }
    fill_random(&mut buf);
    buf
}

impl LockRequest {
    /// A request for the lock under `key`. It stays for `lease_ns` at most, or
    /// until it is released where there is no lease; it has to be had within
    /// `deadline_ns`.
    pub fn new(key: &str, lease_ns: Option<u64>, deadline_ns: u64) -> (r: Self)
        ensures
            r@.token.len() == TOKEN_LEN,
            r@ == (RequestView { token: r@.token, key: key@, lease_ns, deadline_ns }),
    {
        LockRequest { token: random_token(), key: key.to_owned(), lease_ns, deadline_ns }
    }

    /// Tries to take the lock, `elapsed_ns` after the first attempt.
    pub fn attempt<H: Hasher + Copy>(
        &self,
        dmap: &mut EmbeddedDMap<H>,
        elapsed_ns: u64,
        now_micros: u64,
    ) -> (r: LockStep)
        ensures
            attempted(old(dmap)@, self@, elapsed_ns, now_micros, r, final(dmap)@),
    {
        let options: PutOptions = PutOptions {
            nx: true,
            px: match self.lease_ns {
                Some(l) => Some(l / 1_000_000),
                None => None,
            },
            ..PutOptions::default()
        };
        assert(options == lock_options(self@.lease_ns));
        let name: String = dmap.name().to_owned();
        match dmap.put(self.key.as_str(), self.token.as_slice(), options, now_micros) {
            Ok(()) => LockStep::Held(
                LockContext {
                    token: bytes_to_vec(self.token.as_slice()),
                    name,
                    key: self.key.as_str().to_owned(),
                },
            ),
            Err(Error::KeyAlreadyExists) => {
                if elapsed_ns >= self.deadline_ns {
                    LockStep::Failed(Error::LockNotAcquired)
                } else if self.deadline_ns - elapsed_ns < LOCK_RETRY {
                    LockStep::Wait(self.deadline_ns - elapsed_ns)
                } else {
                    LockStep::Wait(LOCK_RETRY)
                }
            },
            Err(e) => LockStep::Failed(e),
        }
    }
}

/// The maps once the lock was released.
pub open spec fn after_unlock<H: Hasher>(s: DMapState<H>, l: LockView, now: i64) -> DMapState<H> {
    let hkey = slot_of(s, l.key);
    if holds_lock(s.entries, hkey, l.token, now) {
        with_entries(s, s.entries.remove(hkey))
    } else {
        looked_up(s, hkey, now)
    }
}

impl LockContext {
    /// The token. Keep it out of logs.
    pub fn token(&self) -> (r: &[u8])
        ensures
            r@ == self@.token,
    {
        self.token.as_slice()
    }

    /// Name of the map that the lock belongs to.
    pub fn dmap_name(&self) -> (r: &str)
        ensures
            r@ == self@.name,
    {
        self.name.as_str()
    }

    /// Key that is locked.
    pub fn key(&self) -> (r: &str)
        ensures
            r@ == self@.key,
    {
        self.key.as_str()
    }

    /// Releases the lock. That the lease has run out, or that the map is gone, is
    /// no error; a lock that someone else has taken since stays.
    pub fn unlock<H: Hasher + Copy>(&self, client: &mut EmbeddedClient<H>, now_micros: u64) -> (r:
        Result<(), Error>)
        requires
            old(client).wf(),
        ensures
            final(client).wf(),
            r is Ok,
            final(client)@ == if registered(old(client)@.maps, self@.name) {
                with_state(
                    old(client)@,
                    self@.name,
                    after_unlock(
                        map_named(old(client)@.maps, self@.name),
                        self@,
                        nanos_of(now_micros),
                    ),
                )
            } else {
                old(client)@
            },
    {
        match client.dmap_mut(self.name.as_str()) {
            None => Ok(()),
            Some(dmap) => match dmap.unlock_internal(
                self.key.as_str(),
                self.token.as_slice(),
                now_micros,
            ) {
                Ok(()) => Ok(()),
                Err(_) => Ok(()),
            },
        }
    }

    /// Sets for how long from now the lock stays.
    pub fn lease<H: Hasher + Copy>(
        &self,
        client: &mut EmbeddedClient<H>,
        duration_ns: u64,
        now_micros: u64,
    ) -> (r: Result<(), Error>)
        requires
            old(client).wf(),
        ensures
            final(client).wf(),
            ({
                let s = map_named(old(client)@.maps, self@.name);
                let now = nanos_of(now_micros);
                if !registered(old(client)@.maps, self@.name) {
                    &&& r is Err
                    &&& r->Err_0@ == ErrorView::NoSuchLock
                    &&& final(client)@ == old(client)@
                } else if holds_lock(s.entries, slot_of(s, self@.key), self@.token, now) {
                    &&& r is Ok
                    &&& final(client)@ == with_state(
                        old(client)@,
                        self@.name,
                        with_expiry(s, slot_of(s, self@.key), now, duration_ns),
                    )
                } else {
                    &&& r is Err
                    &&& r->Err_0@ == ErrorView::NoSuchLock
                    &&& final(client)@ == with_state(
                        old(client)@,
                        self@.name,
                        looked_up(s, slot_of(s, self@.key), now),
                    )
                }
            }),
    {
        match client.dmap_mut(self.name.as_str()) {
            None => Err(Error::NoSuchLock),
            Some(dmap) => dmap.lease_internal(
                self.key.as_str(),
                self.token.as_slice(),
                duration_ns,
                now_micros,
            ),
        }
    }
}

} // verus!
