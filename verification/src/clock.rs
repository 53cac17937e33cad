//! Time, injectable for tests and simulation.

use std::time::Instant;
use vstd::prelude::*;

verus! {

/// A reading of the monotonic clock.
#[verifier::external_type_specification]
#[verifier::external_body]
pub struct ExInstant(std::time::Instant);

/// Wall-clock and monotonic time.
pub trait Clock: Send + Sync + 'static {
    /// The clock may read this many microseconds. A clock that says nothing of
    /// its readings may read any number.
    open spec fn may_read(&self, micros: u64) -> bool {
        true
    }

    /// Microseconds of wall-clock time since the Unix epoch.
    fn now_micros(&self) -> (r: u64)
        ensures
            self.may_read(r),
    ;

    /// Monotonic time, for measuring how long something took.
    fn now_monotonic(&self) -> Instant;
}

/// The clock of the machine.
#[derive(Debug, Clone, Copy)]
pub struct SystemClock;

impl Default for SystemClock {
    fn default() -> (r: Self)
        ensures
            r == SystemClock,
    {
        SystemClock
    }
}

/// `SystemTime::now` counted in microseconds from the Unix epoch; `None` where
/// the machine's clock stands before it.
#[verifier::external_body]
fn wall_clock_micros() -> (r: Option<u128>) {
    std::time::SystemTime::now().duration_since(std::time::UNIX_EPOCH).ok().map(|d| d.as_micros())
}

/// `Instant::now`.
#[verifier::external_body]
fn monotonic_now() -> (r: Instant) {
    Instant::now()
}

/// Microseconds that a wall-clock reading stands for: zero before the epoch, at
/// most what 64 bits hold.
pub fn clamp_micros(reading: Option<u128>) -> (r: u64)
    ensures
        r == (match reading {
            Some(m) => if m <= u64::MAX {
                m as u64
            } else {
                u64::MAX
            },
            None => 0,
        }),
{
    match reading {
        Some(m) => if m <= u64::MAX as u128 {
            m as u64
        } else {
            u64::MAX
        },
        None => 0,
    }
}

impl Clock for SystemClock {
    fn now_micros(&self) -> (r: u64) {
        clamp_micros(wall_clock_micros())
    }

    fn now_monotonic(&self) -> Instant {
        monotonic_now()
    }
}

} // verus!
