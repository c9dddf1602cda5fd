//! Pacing the loop to a target tick period.
use vstd::prelude::*;

verus! {

/// The part of `period_ms` that `elapsed_ms` has not used, or nothing when
/// the tick ran over its period.
pub open spec fn remaining(elapsed_ms: u64, period_ms: u64) -> u64 {
    if elapsed_ms < period_ms {
        (period_ms - elapsed_ms) as u64
    } else {
        0
    }
}

/// The time to sleep at the end of a tick that took `elapsed_ms`, so that
/// ticks start `period_ms` apart. A tick that ran over does not sleep, and
/// the time it lost is not made up.
pub fn sleep_for(elapsed_ms: u64, period_ms: u64) -> (rest: u64)
    ensures
        rest == remaining(elapsed_ms, period_ms),
{
    if elapsed_ms < period_ms {
        period_ms - elapsed_ms
    } else {
        0
    }
}

} // verus!
