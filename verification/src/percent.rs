//! Percentages and rates over integer counters.
//!
//! Percentages are carried as *centi-percent*: one unit is a hundredth
//! of a percent, so the full scale `0..=100%` is `0..=10000`.  This keeps
//! every figure an integer while preserving the one-decimal resolution
//! the display needs.

use vstd::prelude::*;

verus! {

/// Share of `part` in `total`, in centi-percent, clamped to `0..=10000`.
/// A zero (or senseless) total yields 0 rather than a division error.
pub open spec fn pct_spec(part: int, total: int) -> int {
    if total <= 0 {
        0
    } else if part * 10000 / total > 10000 {
        10000
    } else {
        part * 10000 / total
    }
}

/// Rate in units per second derived from two cumulative counter reads
/// `elapsed_ms` milliseconds apart.  A counter reset (current below
/// previous) yields 0, never a negative or huge figure; the elapsed time
/// is floored to one millisecond; the result saturates at `u64::MAX`.
pub open spec fn rate_spec(prev: int, cur: int, elapsed_ms: int) -> int {
    let ms = if elapsed_ms < 1 {
        1
    } else {
        elapsed_ms
    };
    if cur < prev {
        0
    } else if (cur - prev) * 1000 / ms > u64::MAX {
        u64::MAX as int
    } else {
        (cur - prev) * 1000 / ms
    }
}

/// Share of `part` in `total` in centi-percent, clamped to `0..=10000`.
pub fn pct(part: u64, total: u64) -> (r: u32)
    ensures
        r == pct_spec(part as int, total as int),
        r <= 10000,
{
    if total == 0 {
        0
    } else {
        let wide: u128 = (part as u128) * 10000 / (total as u128);
        if wide > 10000 {
            10000
        } else {
            wide as u32
        }
    }
}

/// How close `current` is to the observed top rate, in centi-percent.
pub fn rate_to_pct(current: u64, top: u64) -> (r: u32)
    ensures
        r == pct_spec(current as int, top as int),
        r <= 10000,
{
    pct(current, top)
}

/// Rate in units per second from two cumulative counter reads taken
/// `elapsed_ms` milliseconds apart; see [`rate_spec`].
pub fn counter_rate(prev: u64, cur: u64, elapsed_ms: u64) -> (r: u64)
    ensures
        r == rate_spec(prev as int, cur as int, elapsed_ms as int),
        cur < prev ==> r == 0,
{
    let ms: u64 = if elapsed_ms < 1 {
        1
    } else {
        elapsed_ms
    };
    if cur < prev {
        0
    } else {
        let wide: u128 = ((cur - prev) as u128) * 1000 / (ms as u128);
        if wide > u64::MAX as u128 {
            u64::MAX
        } else {
            wide as u64
        }
    }
}

} // verus!
