//! Time as whole seconds since the Unix epoch (UTC), and calendar days on it.

use vstd::prelude::*;

verus! {

/// Seconds in one calendar day.
pub const SECONDS_PER_DAY: i64 = 86_400;

/// Seconds in half a day.
pub const HALF_DAY: i64 = 43_200;

/// The earliest timestamp whose day start is still an `i64`: the smallest
/// multiple of a day that `i64` holds.
pub const MIN_TIMESTAMP: i64 = -9_223_372_036_854_720_000;

/// The epoch: the datestamp of the synthetic zero checkpoint.
pub const EPOCH: i64 = 0;

/// The start of the calendar day that holds `ts`: the largest multiple of a
/// day that is not after `ts`.
pub open spec fn day_floor(ts: int) -> int {
    ts - ts % 86_400
}

/// Whether `ts` is the first second of a calendar day.
pub open spec fn is_day_start(ts: int) -> bool {
    ts % 86_400 == 0
}

/// `day_floor(ts)` is the one day start in `(ts - day, ts]`.
pub proof fn lemma_day_floor_bounds(ts: int)
    ensures
        is_day_start(day_floor(ts)),
        day_floor(ts) <= ts < day_floor(ts) + 86_400,
{
}

/// A day start is its own day.
pub proof fn lemma_day_floor_fixed(d: int)
    requires
        is_day_start(d),
    ensures
        day_floor(d) == d,
{
}

/// `day_floor` never decreases as time advances.
pub proof fn lemma_day_floor_monotonic(a: int, b: int)
    requires
        a <= b,
    ensures
        day_floor(a) <= day_floor(b),
{
    let qa = a / 86_400;
    let qb = b / 86_400;
    assert(a == 86_400 * qa + a % 86_400);
    assert(b == 86_400 * qb + b % 86_400);
    if qa > qb {
        assert(86_400 * qa >= 86_400 * qb + 86_400);
    }
}

/// For a day start `d`, a timestamp lies on a later day exactly when it is at
/// least one day after `d`.
pub proof fn lemma_later_day(d: int, ts: int)
    requires
        is_day_start(d),
    ensures
        day_floor(ts) > d <==> ts >= d + 86_400,
{
    let q = ts / 86_400;
    let k = d / 86_400;
    assert(ts == 86_400 * q + ts % 86_400);
    assert(d == 86_400 * k);
    if q > k {
        assert(86_400 * q >= 86_400 * k + 86_400);
    } else {
        assert(86_400 * q <= 86_400 * k);
    }
}

/// The start of the calendar day that holds `ts`.
pub fn day_start(ts: i64) -> (r: i64)
    requires
        ts >= MIN_TIMESTAMP,
    ensures
        r == day_floor(ts as int),
{
    let m: i64 = ts % SECONDS_PER_DAY;
    if m < 0 {
        ts - (m + SECONDS_PER_DAY)
    } else {
        ts - m
    }
}

} // verus!
