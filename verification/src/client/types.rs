//! Options of operations, and what they give back. Durations are in
//! nanoseconds.

use vstd::prelude::*;
use vstd::string::*;
use vstd::utf8::*;

use crate::client::error::{Error, ErrorView};
use crate::clock::Clock;
use crate::config::sections::{DMapConfig, EvictionPolicy};
use crate::text::{
    checked_utf8, i64_fault, i64_refusal, parse_signed, signed_numeral, utf8_fault,
};

verus! {

/// Options of a write.
#[derive(Debug, Clone, Copy, PartialEq, Eq, Structural)]
pub struct PutOptions {
    /// How long the entry lives, in seconds.
    pub ex: Option<u64>,
    /// How long the entry lives, in milliseconds.
    pub px: Option<u64>,
    /// When the entry expires, in Unix seconds.
    pub exat: Option<u64>,
    /// When the entry expires, in Unix milliseconds.
    pub pxat: Option<u64>,
    /// Write only if the key is not there.
    pub nx: bool,
    /// Write only if the key is there.
    pub xx: bool,
    /// Timestamp of the write, in Unix nanoseconds. Without one the node that
    /// takes the write gives it one.
    pub timestamp: Option<i64>,
}

impl Default for PutOptions {
    fn default() -> (r: Self)
        ensures
            r == no_options(),
    {
        PutOptions {
            ex: None,
            px: None,
            exat: None,
            pxat: None,
            nx: false,
            xx: false,
            timestamp: None,
        }
    }
}

/// A write without options.
pub open spec fn no_options() -> PutOptions {
    PutOptions {
        ex: None,
        px: None,
        exat: None,
        pxat: None,
        nx: false,
        xx: false,
        timestamp: None,
    }
}

/// How many of the four ways to set an expiry are used.
pub open spec fn expiries(o: PutOptions) -> int {
    let one = |b: bool| -> int
        {
            if b {
                1
            } else {
                0
            }
        };
    one(o.ex is Some) + one(o.px is Some) + one(o.exat is Some) + one(o.pxat is Some)
}

/// What is wrong with the options of a write.
pub open spec fn options_fault(o: PutOptions) -> Option<ErrorView> {
    if o.nx && o.xx {
        Some(ErrorView::InvalidArgument("nx and xx are mutually exclusive"@))
    } else if expiries(o) > 1 {
        Some(ErrorView::InvalidArgument("at most one of ex/px/exat/pxat may be set"@))
    } else {
        None
    }
}

/// The number, or the largest signed 64-bit one.
pub open spec fn up_to_max(n: int) -> i64 {
    if n > i64::MAX {
        i64::MAX
    } else {
        n as i64
    }
}

/// Unix microseconds in nanoseconds.
pub open spec fn nanos_of(micros: u64) -> i64 {
    up_to_max(micros * 1000)
}

/// When an entry that is written with these options at `now_micros` expires; 0
/// for never. `default_ttl` is how long the entries of the map live where the
/// write does not say.
pub open spec fn expiry(o: PutOptions, now_micros: u64, default_ttl: Option<u64>) -> i64 {
    let now = nanos_of(now_micros);
    if o.ex is Some {
        up_to_max(now + up_to_max(o.ex->0 * 1_000_000_000))
    } else if o.px is Some {
        up_to_max(now + up_to_max(o.px->0 * 1_000_000))
    } else if o.exat is Some {
        up_to_max(o.exat->0 * 1_000_000_000)
    } else if o.pxat is Some {
        up_to_max(o.pxat->0 * 1_000_000)
    } else {
        match default_ttl {
            Some(d) => if d == 0 {
                0
            } else {
                up_to_max(now + up_to_max(d as int))
            },
            None => 0,
        }
    }
}

fn scaled(n: u64, unit: u64) -> (r: i64)
    ensures
        r == up_to_max(n * unit),
{
    match n.checked_mul(unit) {
        Some(p) => if p > i64::MAX as u64 {
            i64::MAX
        } else {
            p as i64
        },
        None => i64::MAX,
    }
}

/// Sum of two numbers that are not negative, up to the largest one.
pub(crate) fn later(now: i64, by: i64) -> (r: i64)
    requires
        now >= 0,
        by >= 0,
    ensures
        r == up_to_max(now + by),
{
    if by > i64::MAX - now {
        i64::MAX
    } else {
        now + by
    }
}

/// Nanoseconds as a signed number, up to the largest one.
pub(crate) fn signed_nanos(n: u64) -> (r: i64)
    ensures
        r == up_to_max(n as int),
        r >= 0,
{
    if n > i64::MAX as u64 {
        i64::MAX
    } else {
        n as i64
    }
}

/// Unix microseconds in nanoseconds.
pub fn micros_to_nanos_i64(micros: u64) -> (r: i64)
    ensures
        r == nanos_of(micros),
        r >= 0,
{
    scaled(micros, 1000)
}

fn invalid(m: &str) -> (r: Error)
    ensures
        r@ == ErrorView::InvalidArgument(m@),
{
    Error::InvalidArgument(m.to_owned())
}

impl PutOptions {
    /// Checks that the options go together.
    pub fn validate(&self) -> (r: Result<(), Error>)
        ensures
            match options_fault(*self) {
                None => r is Ok,
                Some(e) => r is Err && r->Err_0@ == e,
            },
    {
        if self.nx && self.xx {
            return Err(invalid("nx and xx are mutually exclusive"));
        }
        let mut count: u32 = 0;
        if self.ex.is_some() {
            count = count + 1;
        }
        if self.px.is_some() {
            count = count + 1;
        }
        if self.exat.is_some() {
            count = count + 1;
        }
        if self.pxat.is_some() {
            count = count + 1;
        }
        if count > 1 {
            return Err(invalid("at most one of ex/px/exat/pxat may be set"));
        }
        Ok(())
    }

    /// When an entry that is written at `now_micros` expires, in Unix
    /// nanoseconds; 0 for never.
    pub fn ttl_at(&self, now_micros: u64, default_ttl: Option<u64>) -> (r: Result<i64, Error>)
        ensures
            match options_fault(*self) {
                None => r is Ok && r->Ok_0 == expiry(*self, now_micros, default_ttl),
                Some(e) => r is Err && r->Err_0@ == e,
            },
    {
        match self.validate() {
            Err(e) => return Err(e),
            Ok(()) => {},
        }
        let now: i64 = micros_to_nanos_i64(now_micros);
        if let Some(s) = self.ex {
            return Ok(later(now, scaled(s, 1_000_000_000)));
        }
        if let Some(ms) = self.px {
            return Ok(later(now, scaled(ms, 1_000_000)));
        }
        if let Some(s) = self.exat {
            return Ok(scaled(s, 1_000_000_000));
        }
        if let Some(ms) = self.pxat {
            return Ok(scaled(ms, 1_000_000));
        }
        match default_ttl {
            Some(d) => if d == 0 {
                Ok(0)
            } else {
                Ok(later(now, signed_nanos(d)))
            },
            None => Ok(0),
        }
    }

    /// When an entry that is written now expires, in Unix nanoseconds; 0 for
    /// never.
    pub fn resolve_ttl_nanos<C: Clock>(&self, clock: &C, default_ttl: Option<u64>) -> (r: Result<
        i64,
        Error,
    >)
        ensures
            match options_fault(*self) {
                None => r is Ok && exists|now: u64| #[trigger]
                    clock.may_read(now) && r->Ok_0 == expiry(*self, now, default_ttl),
                Some(e) => r is Err && r->Err_0@ == e,
            },
    {
        let now: u64 = clock.now_micros();
        self.ttl_at(now, default_ttl)
    }
}

/// What a read gives back.
#[derive(Debug, PartialEq, Eq)]
pub struct GetResponse {
    /// The value.
    pub value: Vec<u8>,
    /// When the entry was written, in Unix nanoseconds.
    pub timestamp: i64,
    /// How long the entry still lives, where it expires.
    pub ttl: Option<u64>,
}

/// Mathematical value of a [`GetResponse`].
pub ghost struct ResponseView {
    pub value: Seq<u8>,
    pub timestamp: i64,
    pub ttl: Option<u64>,
}

impl View for GetResponse {
    type V = ResponseView;

    open spec fn view(&self) -> ResponseView {
        ResponseView { value: self.value@, timestamp: self.timestamp, ttl: self.ttl }
    }
}

impl GetResponse {
    /// The value as text.
    pub fn as_str(&self) -> (r: Result<&str, Error>)
        ensures
            match r {
                Ok(s) => valid_utf8(self@.value) && s@ == decode_utf8(self@.value),
                Err(e) => !valid_utf8(self@.value) && e@ == ErrorView::Serialization(
                    utf8_fault(self@.value),
                ),
            },
    {
        match checked_utf8(self.value.as_slice()) {
            Ok(s) => {
                proof {
                    encode_utf8_decode_utf8(s@);
                }
                Ok(s)
            },
            Err(m) => Err(Error::Serialization(m)),
        }
    }

    /// The value as a signed 64-bit number.
    pub fn as_i64(&self) -> (r: Result<i64, Error>)
        ensures
            if !valid_utf8(self@.value) {
                r is Err && r->Err_0@ == ErrorView::Serialization(utf8_fault(self@.value))
            } else {
                match small_number(self@.value) {
                    Some(n) => r is Ok && r->Ok_0 == n,
                    None => r is Err && r->Err_0@ == ErrorView::Serialization(
                        i64_fault(decode_utf8(self@.value)),
                    ),
                }
            },
    {
        match checked_utf8(self.value.as_slice()) {
            Ok(s) => {
                proof {
                    encode_utf8_decode_utf8(s@);
                }
                match parse_signed(self.value.as_slice()) {
                    Some(n) => Ok(n),
                    None => Err(Error::Serialization(i64_refusal(s))),
                }
            },
            Err(m) => Err(Error::Serialization(m)),
        }
    }
}

/// The signed 64-bit number that bytes spell out.
pub open spec fn small_number(b: Seq<u8>) -> Option<i64> {
    match signed_numeral(b) {
        Some(n) => if i64::MIN <= n <= i64::MAX {
            Some(n as i64)
        } else {
            None
        },
        None => None,
    }
}

/// Settings of a map.
#[derive(Debug, Clone, Copy, PartialEq, Eq, Structural)]
pub struct DMapOptions {
    /// After how long an unused entry goes; 0 for never.
    pub max_idle_duration: Option<u64>,
    /// How long an entry lives where the write does not say; 0 for ever.
    pub ttl: Option<u64>,
    /// How many keys the map may hold.
    pub max_keys: Option<u64>,
    /// How many bytes the map may hold.
    pub max_inuse: Option<u64>,
    /// How many entries are compared to find one that was not used for long.
    pub lru_samples: Option<u32>,
    /// Which entries make room for new ones.
    pub eviction_policy: Option<EvictionPolicy>,
}

/// A map without settings.
pub open spec fn no_settings() -> DMapOptions {
    DMapOptions {
        max_idle_duration: None,
        ttl: None,
        max_keys: None,
        max_inuse: None,
        lru_samples: None,
        eviction_policy: None,
    }
}

impl Default for DMapOptions {
    fn default() -> (r: Self)
        ensures
            r == no_settings(),
    {
        DMapOptions {
            max_idle_duration: None,
            ttl: None,
            max_keys: None,
            max_inuse: None,
            lru_samples: None,
            eviction_policy: None,
        }
    }
}

impl DMapOptions {
    /// The settings that a configuration gives a map.
    pub fn from_config(cfg: &DMapConfig) -> (r: Self)
        ensures
            r == (DMapOptions {
                max_idle_duration: cfg.max_idle_duration,
                ttl: cfg.ttl,
                max_keys: cfg.max_keys,
                max_inuse: match cfg.max_inuse {
                    Some(b) => Some(b.0),
                    None => None,
                },
                lru_samples: cfg.lru_samples,
                eviction_policy: cfg.eviction_policy,
            }),
    {
        DMapOptions {
            max_idle_duration: cfg.max_idle_duration,
            ttl: cfg.ttl,
            max_keys: cfg.max_keys,
            max_inuse: match cfg.max_inuse {
                Some(b) => Some(b.0),
                None => None,
            },
            lru_samples: cfg.lru_samples,
            eviction_policy: cfg.eviction_policy,
        }
    }
}

} // verus!
