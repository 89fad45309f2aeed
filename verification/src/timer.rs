//! Time: the cycle counter in milliseconds, and the deadline of the next
//! time slice.

use vstd::prelude::*;

verus! {

/// Cycles of the counter in a second.
pub const CLOCK_FREQ: u64 = 12_500_000;

/// Time slices in a second.
pub const TICKS_PER_SEC: u64 = 100;

/// Milliseconds in a second.
pub const MSEC_PER_SEC: u64 = 1000;

/// Microseconds in a millisecond.
pub const USEC_PER_MSEC: u64 = 1000;

/// The time in milliseconds when the cycle counter reads `cycles`.
pub fn get_time_ms(cycles: u64) -> (ms: u64)
    ensures
        ms == cycles / (CLOCK_FREQ / MSEC_PER_SEC),
{
    cycles / (CLOCK_FREQ / MSEC_PER_SEC)
}

/// The reading of the cycle counter at which the time slice ends that
/// starts when the counter reads `cycles`: ten milliseconds later, and the
/// end of time where the counter would wrap around before.
pub fn next_deadline(cycles: u64) -> (deadline: u64)
    ensures
        deadline == (if cycles + CLOCK_FREQ / TICKS_PER_SEC <= u64::MAX {
            cycles + CLOCK_FREQ / TICKS_PER_SEC
        } else {
            u64::MAX as int
        }),
{
    let slice: u64 = CLOCK_FREQ / TICKS_PER_SEC;
    if cycles <= u64::MAX - slice {
        cycles + slice
    } else {
        u64::MAX
    }
}

} // verus!
