//! The timer: what its count of ticks means in milliseconds, and when it
//! is to fire next. Reading the count and programming the timer are the
//! machine's part.

use vstd::prelude::*;
use crate::config::CLOCK_FREQ;

verus! {

/// How often in a second the timer interrupts a running process.
pub const TICKS_PER_SEC: u64 = 100;

pub const MSEC_PER_SEC: u64 = 1000;

/// The milliseconds that have passed when the timer counts `ticks`.
pub open spec fn ms_of(ticks: u64) -> u64 {
    ticks / (CLOCK_FREQ / MSEC_PER_SEC)
}

/// The milliseconds that have passed when the timer counts `ticks`.
pub fn get_time_ms(ticks: u64) -> (r: u64)
    ensures
        r == ms_of(ticks),
        r == ticks / 12500,
{
    ticks / (CLOCK_FREQ / MSEC_PER_SEC)
}

/// The count at which the timer is to fire next when it counts `ticks`
/// now: one hundredth of a second later.
pub fn next_trigger(ticks: u64) -> (r: u64)
    requires
        ticks <= u64::MAX - CLOCK_FREQ / TICKS_PER_SEC,
    ensures
        r == ticks + CLOCK_FREQ / TICKS_PER_SEC,
        r == ticks + 125000,
{
    ticks + CLOCK_FREQ / TICKS_PER_SEC
}

/// Time in milliseconds does not go back while the count of ticks does not.
pub proof fn lemma_time_monotonic(earlier: u64, later: u64)
    requires
        earlier <= later,
    ensures
        ms_of(earlier) <= ms_of(later),
{
    assert(ms_of(earlier) == earlier / 12500);
    assert(ms_of(later) == later / 12500);
}

} // verus!
