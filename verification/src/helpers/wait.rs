//! The decisions of the busy-wait helpers: whether a wait has run its course.

use vstd::prelude::*;
use super::time::Time;

verus! {

/// Whether a wait that began at `start` (nanoseconds since boot) has run past `timeout` at
/// `now`: the elapsed time exceeds the timeout.
pub fn timed_out(start: u64, now: u64, timeout: &Time) -> (r: bool)
    requires
        start <= now,
        timeout.nanos() <= u64::MAX,
    ensures
        r == (now - start > timeout.nanos()),
{
    now - start > timeout.to_nanos()
}

/// Whether a sleep of `time` that began at `start` is over at `now`: the elapsed time has
/// reached the duration.
pub fn wait_over(start: u64, now: u64, time: &Time) -> (r: bool)
    requires
        start <= now,
        time.nanos() <= u64::MAX,
    ensures
        r == (now - start >= time.nanos()),
{
    !(now - start < time.to_nanos())
}

} // verus!
