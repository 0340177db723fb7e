//! Points on the server's monotonic clock.
//!
//! The store never reads a clock itself: every operation is handed `now`.
//! An `Instant` counts nanoseconds from an arbitrary origin fixed by the
//! caller (typically the moment the server started).

use vstd::prelude::*;

verus! {

pub const NANOS_PER_MILLI: u128 = 1_000_000;
pub const NANOS_PER_SEC: u128 = 1_000_000_000;

#[derive(Debug, Clone, Copy, PartialEq, Eq)]
pub struct Instant {
    pub nanos: u128,
}

pub open spec fn sat_add(a: int, b: int) -> u128 {
    if a + b > u128::MAX {
        u128::MAX
    } else {
        (a + b) as u128
    }
}

impl Instant {
    pub fn from_nanos(nanos: u128) -> (t: Instant)
        ensures
            t.nanos == nanos,
    {
        Instant { nanos }
    }

    /// `self` plus `ms` milliseconds (saturating at the end of time).
    pub fn plus_millis(self, ms: u64) -> (t: Instant)
        ensures
            t.nanos == sat_add(self.nanos as int, ms * NANOS_PER_MILLI),
    {
        Instant { nanos: self.nanos.saturating_add(ms as u128 * NANOS_PER_MILLI) }
    }

    /// `self` plus `secs` seconds (saturating at the end of time).
    pub fn plus_secs(self, secs: u64) -> (t: Instant)
        ensures
            t.nanos == sat_add(self.nanos as int, secs * NANOS_PER_SEC),
    {
        Instant { nanos: self.nanos.saturating_add(secs as u128 * NANOS_PER_SEC) }
    }

    /// Whether `self` comes strictly before `other`.
    pub fn is_before(self, other: Instant) -> (b: bool)
        ensures
            b == (self.nanos < other.nanos),
    {
        self.nanos < other.nanos
    }

    /// Nanoseconds from `earlier` to `self`, or zero if `earlier` is later.
    pub fn nanos_since(self, earlier: Instant) -> (d: u128)
        ensures
            d == (if self.nanos > earlier.nanos {
                (self.nanos - earlier.nanos) as u128
            } else {
                0u128
            }),
    {
        self.nanos.saturating_sub(earlier.nanos)
    }
}

} // verus!
