//! Waits between attempts: doubled after every failure, up to a longest one.

use vstd::prelude::*;

verus! {

/// The first wait before another attempt, in seconds.
pub const BACKOFF_INITIAL: u64 = 1;

/// The longest wait before another attempt, in seconds.
pub const BACKOFF_MAX: u64 = 30;

/// The wait that follows `failures` failures in a row, in seconds.
pub open spec fn wait_after(failures: int) -> int
    decreases failures,
{
    if failures <= 0 {
        BACKOFF_INITIAL as int
    } else if 2 * wait_after(failures - 1) < BACKOFF_MAX {
        2 * wait_after(failures - 1)
    } else {
        BACKOFF_MAX as int
    }
}

/// The wait after one more failure.
pub(crate) fn longer(wait: u64) -> (next: u64)
    requires
        wait <= BACKOFF_MAX,
    ensures
        next == if 2 * wait < BACKOFF_MAX { 2 * wait } else { BACKOFF_MAX as int },
        next <= BACKOFF_MAX,
{
    let doubled: u64 = 2 * wait;
    if doubled < BACKOFF_MAX {
        doubled
    } else {
        BACKOFF_MAX
    }
}

/// The waits are 1, 2, 4, 8 and 16 seconds, and 30 from there on; they never shrink.
pub proof fn waits_double_up_to_the_longest(failures: int)
    requires
        0 <= failures,
    ensures
        1 <= wait_after(failures) <= BACKOFF_MAX,
        failures == 0 ==> wait_after(failures) == 1,
        failures == 1 ==> wait_after(failures) == 2,
        failures == 2 ==> wait_after(failures) == 4,
        failures == 3 ==> wait_after(failures) == 8,
        failures == 4 ==> wait_after(failures) == 16,
        failures >= 5 ==> wait_after(failures) == BACKOFF_MAX,
        failures > 0 ==> wait_after(failures - 1) <= wait_after(failures),
    decreases failures,
{
    if failures > 0 {
        waits_double_up_to_the_longest(failures - 1);
    }
}

} // verus!
