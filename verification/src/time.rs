//! Points in time and spans of time.
//!
//! The library never reads a clock. Callers hand it [`Instant`]s that count
//! from a start of their choice, so that every rule that depends on time can
//! be stated over plain numbers.

use vstd::prelude::*;

verus! {

/// Longest span of time that sums reach, in nanoseconds.
pub const MAX_DURATION_NANOS: u128 = 18_446_744_073_709_551_615_999_999_999;

/// Nanoseconds in a second.
pub const NANOS_PER_SEC: u128 = 1_000_000_000;

/// A span of time, in nanoseconds.
#[derive(Debug, Clone, Copy, PartialEq, Eq, PartialOrd, Ord, Structural)]
pub struct Duration {
    /// Length in nanoseconds.
    pub nanos: u128,
}

impl Duration {
    /// A span of so many nanoseconds.
    pub fn from_nanos(nanos: u128) -> (r: Duration)
        ensures
            r.nanos == nanos,
    {
        Duration { nanos }
    }

    /// A span of so many milliseconds.
    pub fn from_millis(millis: u64) -> (r: Duration)
        ensures
            r.nanos == millis * 1_000_000,
    {
        Duration { nanos: millis as u128 * 1_000_000 }
    }

    /// A span of so many seconds.
    pub fn from_secs(secs: u64) -> (r: Duration)
        ensures
            r.nanos == secs * 1_000_000_000,
    {
        Duration { nanos: secs as u128 * 1_000_000_000 }
    }

    /// Whole seconds.
    pub open spec fn whole_secs(self) -> int {
        self.nanos as int / NANOS_PER_SEC as int
    }

    /// Whole seconds.
    pub fn as_secs(&self) -> (r: u128)
        ensures
            r == self.whole_secs(),
    {
        self.nanos / NANOS_PER_SEC
    }

    /// The sum of two spans, cut at the longest one.
    pub open spec fn plus(self, other: Duration) -> Duration {
        Duration {
            nanos: if self.nanos + other.nanos <= MAX_DURATION_NANOS {
                (self.nanos + other.nanos) as u128
            } else {
                MAX_DURATION_NANOS
            },
        }
    }

    /// The sum of two spans, cut at the longest one.
    pub fn saturating_add(self, other: Duration) -> (r: Duration)
        ensures
            r == self.plus(other),
    {
        let sum: u128 = self.nanos.saturating_add(other.nanos);
        Duration {
            nanos: if sum <= MAX_DURATION_NANOS {
                sum
            } else {
                MAX_DURATION_NANOS
            },
        }
    }
}

/// A point in time, in nanoseconds from a start that the caller chose.
#[derive(Debug, Clone, Copy, PartialEq, Eq, PartialOrd, Ord, Structural)]
pub struct Instant {
    /// Distance from the start in nanoseconds.
    pub nanos: u128,
}

/// The time from `earlier` to `later`, none if it is not earlier.
pub open spec fn elapsed(later: Instant, earlier: Instant) -> int {
    if later.nanos >= earlier.nanos {
        later.nanos - earlier.nanos
    } else {
        0
    }
}

impl Instant {
    /// The point in time at this distance from the start.
    pub fn at(since_start: Duration) -> (r: Instant)
        ensures
            r.nanos == since_start.nanos,
    {
        Instant { nanos: since_start.nanos }
    }

    /// The time that has passed since `earlier`, none if it is not earlier.
    pub fn duration_since(&self, earlier: Instant) -> (r: Duration)
        ensures
            r.nanos == elapsed(*self, earlier),
    {
        Duration { nanos: self.nanos.saturating_sub(earlier.nanos) }
    }
}

impl core::ops::Add<Duration> for Instant {
    type Output = Instant;

    fn add(self, rhs: Duration) -> (r: Instant) {
        Instant { nanos: self.nanos + rhs.nanos }
    }
}

impl vstd::std_specs::ops::AddSpecImpl<Duration> for Instant {
    open spec fn obeys_add_spec() -> bool {
        true
    }

    open spec fn add_req(self, rhs: Duration) -> bool {
        self.nanos + rhs.nanos <= u128::MAX
    }

    open spec fn add_spec(self, rhs: Duration) -> Instant {
        Instant { nanos: (self.nanos + rhs.nanos) as u128 }
    }
}

// ── Laws ────────────────────────────────────────────────────────────

/// Time that has passed, put on top of the earlier point, gives the later one;
/// nothing has passed before a point that is yet to come.
pub proof fn law_elapsed_leads_to_later(later: Instant, earlier: Instant)
    ensures
        earlier.nanos <= later.nanos ==> earlier.nanos + elapsed(later, earlier) == later.nanos,
        earlier.nanos > later.nanos ==> elapsed(later, earlier) == 0,
{
}

/// Spans add up until they reach the longest one, and never fall; seconds are
/// whole.
pub proof fn law_spans_add_up(a: Duration, b: Duration)
    ensures
        a.nanos + b.nanos <= 18_446_744_073_709_551_615_999_999_999 ==> a.plus(b).nanos == a.nanos
            + b.nanos,
        a.nanos + b.nanos > 18_446_744_073_709_551_615_999_999_999 ==> a.plus(b).nanos
            == 18_446_744_073_709_551_615_999_999_999,
        a.plus(b) == b.plus(a),
        a.whole_secs() * 1_000_000_000 <= a.nanos < (a.whole_secs() + 1) * 1_000_000_000,
{
}

/// A second has 1,000,000,000 nanoseconds, and a span at most all seconds that 64 bits
/// count and a fraction.
pub proof fn law_limits()
    ensures
        NANOS_PER_SEC == 1_000_000_000,
        MAX_DURATION_NANOS == 0xFFFF_FFFF_FFFF_FFFF * 1_000_000_000 + 999_999_999,
{
}

} // verus!
