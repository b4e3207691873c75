//! The 15-second grid and the short 5 s / 10 s bumper units, with the fixed
//! ±500 ms per-hop tolerance. All tests are carried out on integer
//! milliseconds; rounding a gap to the nearest grid multiple is the integer
//! form of rounding `gap / 15 s` half away from zero.

use vstd::prelude::*;

verus! {

/// Per-hop half-width of every grid-match test, in milliseconds.
pub const TOLERANCE_MS: i64 = 500;

/// The standard CM grid unit: 15 seconds.
pub const STANDARD_UNIT_MS: i64 = 15_000;

/// Largest admissible single-hop grid multiple (75 seconds).
pub const MAX_STANDARD_UNITS: i64 = 5;

/// Number of standard units nearest to `gap_ms`, clamped below to 1;
/// `None` once the rounded count exceeds 5 (the hop is no CM slot).
pub open spec fn spec_coarse_unit_count(gap_ms: int) -> Option<int> {
    if gap_ms >= 82_500 {
        None
    } else if gap_ms < 7_500 {
        Some(1)
    } else {
        Some((gap_ms + 7_500) / 15_000)
    }
}

/// Grid interval suggested by `gap_ms`: the rounded unit count times 15 s.
pub open spec fn spec_expected_interval_ms(gap_ms: int) -> Option<int> {
    match spec_coarse_unit_count(gap_ms) {
        Some(u) => Some(u * 15_000),
        None => None,
    }
}

/// A gap within ±500 ms of a 5 s or 10 s bumper.
pub open spec fn spec_is_short_unit_ms(gap_ms: int) -> bool {
    4_500 <= gap_ms <= 5_500 || 9_500 <= gap_ms <= 10_500
}

/// Round `gap_ms` to a count of 15 s grid units: nearest multiple, at least
/// one unit, and `None` for anything that rounds above five units (nominal
/// gap beyond 75 s breaks a chain).
pub fn coarse_unit_count(gap_ms: i64) -> (r: Option<i64>)
    ensures
        (match r {
            Some(u) => spec_coarse_unit_count(gap_ms as int) == Some(u as int),
            None => spec_coarse_unit_count(gap_ms as int) is None,
        }),
        r is Some <==> gap_ms < 82_500,
        r matches Some(u) ==> 1 <= u <= MAX_STANDARD_UNITS,
{
    if gap_ms >= 82_500 {
        None
    } else if gap_ms < 7_500 {
        Some(1)
    } else {
        Some((gap_ms + 7_500) / 15_000)
    }
}

/// Expected grid interval in milliseconds for `gap_ms`, or `None` when the
/// gap rounds above five units.
pub fn expected_interval_ms(gap_ms: i64) -> (r: Option<i64>)
    ensures
        (match r {
            Some(e) => spec_expected_interval_ms(gap_ms as int) == Some(e as int),
            None => spec_expected_interval_ms(gap_ms as int) is None,
        }),
        r matches Some(e) ==> 15_000 <= e <= 75_000,
{
    match coarse_unit_count(gap_ms) {
        Some(units) => Some(units * STANDARD_UNIT_MS),
        None => None,
    }
}

/// Is `gap_ms` a short bumper unit: within ±500 ms of 5 s or of 10 s?
pub fn is_short_unit_ms(gap_ms: i64) -> (r: bool)
    ensures
        r == spec_is_short_unit_ms(gap_ms as int),
{
    (4_500 <= gap_ms && gap_ms <= 5_500) || (9_500 <= gap_ms && gap_ms <= 10_500)
}

} // verus!
