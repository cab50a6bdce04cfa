//! Time unit conversion helpers.

use vstd::prelude::*;
use vstd::std_specs::ops::MulSpec;

verus! {

/// Nanoseconds in a millisecond, a second, a minute, an hour and a day.
pub const NANOS_PER_MILLI: u64 = 1_000_000;
pub const NANOS_PER_SECOND: u64 = 1_000_000_000;
pub const NANOS_PER_MINUTE: u64 = 60_000_000_000;
pub const NANOS_PER_HOUR: u64 = 3_600_000_000_000;
pub const NANOS_PER_DAY: u64 = 86_400_000_000_000;

/// A span of time in one of six units.
#[derive(Debug, Clone, Copy, PartialEq, Eq, Structural, PartialOrd, Ord)]
pub enum Time {
    Nanoseconds(u64),
    Milliseconds(u64),
    Seconds(u64),
    Minutes(u64),
    Hours(u64),
    Days(u64),
}

impl Time {
    /// The span in nanoseconds, as a mathematical integer.
    pub open spec fn nanos(self) -> int {
        match self {
            Time::Nanoseconds(x) => x as int,
            Time::Milliseconds(x) => x * NANOS_PER_MILLI,
            Time::Seconds(x) => x * NANOS_PER_SECOND,
            Time::Minutes(x) => x * NANOS_PER_MINUTE,
            Time::Hours(x) => x * NANOS_PER_HOUR,
            Time::Days(x) => x * NANOS_PER_DAY,
        }
    }

    /// The span in nanoseconds; the span must fit in a `u64`.
    pub fn to_nanos(self) -> (r: u64)
        requires
            self.nanos() <= u64::MAX,
        ensures
            r == self.nanos(),
    {
        match self {
            Self::Nanoseconds(x) => x,
            Self::Milliseconds(x) => x * NANOS_PER_MILLI,
            Self::Seconds(x) => x * NANOS_PER_SECOND,
            Self::Minutes(x) => x * NANOS_PER_MINUTE,
            Self::Hours(x) => x * NANOS_PER_HOUR,
            Self::Days(x) => x * NANOS_PER_DAY,
        }
    }
}

impl core::ops::Mul<u64> for Time {
    type Output = Self;

    /// The span scaled by `rhs`, in nanoseconds.
    fn mul(self, rhs: u64) -> (r: Self) {
        proof {
            vstd::arithmetic::mul::lemma_mul_nonnegative(self.nanos(), rhs as int);
        }
        Self::Nanoseconds(self.to_nanos() * rhs)
    }
}

impl vstd::std_specs::ops::MulSpecImpl<u64> for Time {
    open spec fn obeys_mul_spec() -> bool {
        true
    }

    open spec fn mul_req(self, rhs: u64) -> bool {
        self.nanos() <= u64::MAX && self.nanos() * rhs <= u64::MAX
    }

    open spec fn mul_spec(self, rhs: u64) -> Time {
        Time::Nanoseconds((self.nanos() * rhs) as u64)
    }
}

/// Each unit is the next smaller one times its factor: 1000 ns per microsecond step aside,
/// a second is 1000 milliseconds, a minute 60 seconds, an hour 60 minutes, a day 24 hours.
pub proof fn lemma_unit_ladder()
    ensures
        Time::Milliseconds(1000).nanos() == Time::Seconds(1).nanos(),
        Time::Seconds(60).nanos() == Time::Minutes(1).nanos(),
        Time::Minutes(60).nanos() == Time::Hours(1).nanos(),
        Time::Hours(24).nanos() == Time::Days(1).nanos(),
        Time::Nanoseconds(1_000_000).nanos() == Time::Milliseconds(1).nanos(),
{
}

/// Scaling a span by `k` scales its nanoseconds by `k`.
pub proof fn lemma_mul_scales(t: Time, k: u64)
    requires
        t.nanos() <= u64::MAX,
        t.nanos() * k <= u64::MAX,
    ensures
        t.mul_spec(k).nanos() == t.nanos() * k,
        t.mul_spec(k) is Nanoseconds,
{
    vstd::arithmetic::mul::lemma_mul_nonnegative(t.nanos(), k as int);
}

/// In every unit, the span is linear in its count: `n` units are `n` times one unit.
pub proof fn lemma_linear_in_count(n: u64)
    ensures
        Time::Milliseconds(n).nanos() == n * Time::Milliseconds(1).nanos(),
        Time::Seconds(n).nanos() == n * Time::Seconds(1).nanos(),
        Time::Minutes(n).nanos() == n * Time::Minutes(1).nanos(),
        Time::Hours(n).nanos() == n * Time::Hours(1).nanos(),
        Time::Days(n).nanos() == n * Time::Days(1).nanos(),
{
}

} // verus!
