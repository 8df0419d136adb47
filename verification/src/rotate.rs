//! Arithmetic of daily log rotation.
//!
//! The rotating logger rolls its file over once per local day.  The
//! file I/O and the clock live outside the core; what is computed
//! here, on plain seconds of the local clock, is when the next
//! rollover is due, whether it is due now, and which day's date the
//! rotated file is stamped with.

use vstd::prelude::*;

verus! {

/// Seconds of one day.
pub const ONE_DAY_SECONDS: u64 = 86400;

/// The moment the log file is next due to roll over, given the local
/// time it was last written: the start of the following local day.
pub fn compute_rollover_time(local_secs: u64) -> (r: u64)
    requires
        local_secs <= u64::MAX - 86400,
    ensures
        r == local_secs - (local_secs % 86400) + 86400,
        r % 86400 == 0,
        local_secs < r,
        r - local_secs <= 86400,
{
    let day_start = local_secs - (local_secs % 86400);
    day_start + ONE_DAY_SECONDS
}

/// The same moment of the previous day: the rotated file is stamped
/// with the day before the rollover it triggered.
pub fn one_day_before(local_secs: u64) -> (r: u64)
    requires
        local_secs >= 86400,
    ensures
        r == local_secs - 86400,
{
    local_secs - ONE_DAY_SECONDS
}

/// The file must roll over once the clock has passed the due moment.
pub fn should_rollover(now_secs: u64, rollover_secs: u64) -> (r: bool)
    ensures
        r == (now_secs > rollover_secs),
{
    now_secs > rollover_secs
}

/// Law: a rollover moment never drifts.  The moment computed for any
/// time of a day is the same for the whole day, and the day stamped
/// on the rotated file is the day that triggered the rollover.
pub proof fn lemma_rollover_stable(a: u64, b: u64)
    requires
        a <= u64::MAX - 86400,
        b <= u64::MAX - 86400,
        a / 86400 == b / 86400,
    ensures
        a - (a % 86400) + 86400 == b - (b % 86400) + 86400,
{
    assert(a - (a % 86400) == 86400 * (a / 86400)) by {
        assert(a % 86400 == a - 86400 * (a / 86400)) by (nonlinear_arith);
    }
    assert(b - (b % 86400) == 86400 * (b / 86400)) by {
        assert(b % 86400 == b - 86400 * (b / 86400)) by (nonlinear_arith);
    }
}

} // verus!
