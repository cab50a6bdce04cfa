//! Time unit conversion helpers; minutes, hours and days are counted in `u32`.

use vstd::prelude::*;
use vstd::std_specs::ops::MulSpec;

verus! {

/// A span of time in one of six units.
pub enum Time {
    Nanoseconds(u64),
    Milliseconds(u64),
    Seconds(u64),
    Minutes(u32),
    Hours(u32),
    Days(u32),
}

impl Time {
    /// The span in nanoseconds, as a mathematical integer.
    pub open spec fn nanos(&self) -> int {
        match *self {
            Time::Nanoseconds(x) => x as int,
            Time::Milliseconds(x) => 1_000_000 * x,
            Time::Seconds(x) => 1_000_000_000 * x,
            Time::Minutes(x) => 60_000_000_000 * x,
            Time::Hours(x) => 3_600_000_000_000 * x,
            Time::Days(x) => 86_400_000_000_000 * x,
        }
    }

    /// The span in nanoseconds; the span must fit in a `u64`.
    pub fn to_nanos(&self) -> (r: u64)
        requires
            self.nanos() <= u64::MAX,
        ensures
            r == self.nanos(),
    {
        match self {
            Self::Nanoseconds(x) => *x,
            Self::Milliseconds(x) => 1_000_000 * *x,
            Self::Seconds(x) => 1_000_000_000 * *x,
            Self::Minutes(x) => 60_000_000_000 * (*x as u64),
            Self::Hours(x) => 3_600_000_000_000 * (*x as u64),
            Self::Days(x) => 86_400_000_000_000 * (*x as u64),
        }
    }
}

impl core::ops::Mul<u64> for Time {
    type Output = Self;

    /// The span scaled by `rhs`, in nanoseconds.
    fn mul(self, rhs: u64) -> (r: Self) {
        proof {
            vstd::arithmetic::mul::lemma_mul_nonnegative(self.nanos(), rhs as int);
        }
        Self::Nanoseconds(self.to_nanos() * rhs)
    }
}

impl vstd::std_specs::ops::MulSpecImpl<u64> for Time {
    open spec fn obeys_mul_spec() -> bool {
        true
    }

    open spec fn mul_req(self, rhs: u64) -> bool {
        self.nanos() <= u64::MAX && self.nanos() * rhs <= u64::MAX
    }

    open spec fn mul_spec(self, rhs: u64) -> Time {
        Time::Nanoseconds((self.nanos() * rhs) as u64)
    }
}

/// A day is 24 hours, an hour 60 minutes, a minute 60 seconds, a second 1000 milliseconds.
pub proof fn lemma_unit_ladder()
    ensures
        Time::Hours(24).nanos() == Time::Days(1).nanos(),
        Time::Minutes(60).nanos() == Time::Hours(1).nanos(),
        Time::Seconds(60).nanos() == Time::Minutes(1).nanos(),
        Time::Milliseconds(1000).nanos() == Time::Seconds(1).nanos(),
{
}

/// Scaling a span by `k` scales its nanoseconds by `k`.
pub proof fn lemma_mul_scales(t: Time, k: u64)
    requires
        t.nanos() <= u64::MAX,
        t.nanos() * k <= u64::MAX,
    ensures
        t.mul_spec(k).nanos() == t.nanos() * k,
        t.mul_spec(k) is Nanoseconds,
{
    vstd::arithmetic::mul::lemma_mul_nonnegative(t.nanos(), k as int);
}

} // verus!
