//! Calendar dates in requests: `year-month-day` in text, and the range of
//! days that a view shows.

use vstd::prelude::*;
use vstd::slice::slice_subrange;
use crate::parse::{parse_i32, parse_u32, parsed_i32, parsed_u32};
use crate::time::{day_floor, day_start, MIN_TIMESTAMP, SECONDS_PER_DAY};

verus! {

/// The first second of the calendar day `year-month-day` in UTC, in the
/// proleptic Gregorian calendar, as the `chrono` crate computes it; `None`
/// where there is no such day or `chrono` cannot hold it.
pub uninterp spec fn midnight_of(year: i32, month: u32, day: u32) -> Option<i64>;

/// Asks `chrono::TimeZone::with_ymd_and_hms` of `chrono::Utc` for the
/// instant `year-month-day 00:00:00` and gives its `timestamp`.
///
/// Trusted: the result is what `chrono` computes for these three numbers;
/// `chrono` answers a date that does not exist with no instant, and does not
/// panic.
#[verifier::external_body]
fn utc_midnight(year: i32, month: u32, day: u32) -> (r: Option<i64>)
    ensures
        r == midnight_of(year, month, day),
{
    match chrono::TimeZone::with_ymd_and_hms(&chrono::Utc, year, month, day, 0, 0, 0).single() {
        Some(instant) => Some(instant.timestamp()),
        None => None,
    }
}

/// The position of the first `-` in `s` at or behind `from`; the length of
/// `s` where there is none.
pub open spec fn next_dash(s: Seq<u8>, from: int) -> int
    decreases s.len() - from,
{
    if from >= s.len() {
        s.len() as int
    } else if s[from] == 45 {
        from
    } else {
        next_dash(s, from + 1)
    }
}

/// The first three fields of `s` between dashes, read as year, month and
/// day; `None` where `s` has fewer than three fields or one of the three is
/// no number. Fields behind the third are not read.
pub open spec fn date_parts(s: Seq<u8>) -> Option<(i32, u32, u32)> {
    let first = next_dash(s, 0);
    let second = next_dash(s, first + 1);
    let third = next_dash(s, second + 1);
    if first >= s.len() || second >= s.len() {
        None
    } else {
        match (
            parsed_i32(s.subrange(0, first)),
            parsed_u32(s.subrange(first + 1, second)),
            parsed_u32(s.subrange(second + 1, third)),
        ) {
            (Some(y), Some(m), Some(d)) => Some((y, m, d)),
            _ => None,
        }
    }
}

/// What `next_dash` finds lies between `from` and the end.
pub proof fn lemma_next_dash(s: Seq<u8>, from: int)
    requires
        0 <= from <= s.len(),
    ensures
        from <= next_dash(s, from) <= s.len(),
    decreases s.len() - from,
{
    if from < s.len() && s[from] != 45 {
        lemma_next_dash(s, from + 1);
    }
}

/// Finds the first `-` at or behind `from`.
fn find_dash(text: &[u8], from: usize) -> (r: usize)
    requires
        from <= text@.len(),
    ensures
        r == next_dash(text@, from as int),
        from <= r <= text@.len(),
{
    let mut k: usize = from;
    while k < text.len() && text[k] != 45
        invariant
            from <= k <= text@.len(),
            next_dash(text@, from as int) == next_dash(text@, k as int),
        decreases text@.len() - k,
    {
        k += 1;
    }
    k
}

/// Reads year, month and day from `text`.
pub fn parse_date_parts(text: &[u8]) -> (r: Option<(i32, u32, u32)>)
    ensures
        r == date_parts(text@),
{
    let n = text.len();
    let first = find_dash(text, 0);
    if first >= n {
        return None;
    }
    let second = find_dash(text, first + 1);
    if second >= n {
        return None;
    }
    let third = find_dash(text, second + 1);
    let year = parse_i32(slice_subrange(text, 0, first));
    let month = parse_u32(slice_subrange(text, first + 1, second));
    let day = parse_u32(slice_subrange(text, second + 1, third));
    match (year, month, day) {
        (Some(y), Some(m), Some(d)) => Some((y, m, d)),
        _ => None,
    }
}

/// The first second of the day that `text` names as `year-month-day`.
pub open spec fn date_of(text: Seq<char>) -> Option<i64> {
    match date_parts(vstd::utf8::encode_utf8(text)) {
        Some((y, m, d)) => midnight_of(y, m, d),
        None => None,
    }
}

/// The first second of the day that `text` names as `year-month-day`;
/// `None` where `text` is no such date or names a day that does not exist.
pub fn parse_date(text: &str) -> (r: Option<i64>)
    ensures
        r == date_of(text@),
{
    match parse_date_parts(text.as_bytes()) {
        Some((y, m, d)) => utc_midnight(y, m, d),
        None => None,
    }
}

/// How many days back a view starts where the caller names no start.
pub const DEFAULT_SPAN_DAYS: i64 = 30;

/// The start of the day of `now`; the earliest day where `now` is before
/// every representable day.
pub open spec fn today(now: i64) -> int {
    if now < MIN_TIMESTAMP {
        MIN_TIMESTAMP as int
    } else {
        day_floor(now as int)
    }
}

/// The default start of a view: 30 days before today, held at the smallest
/// `i64`.
pub open spec fn default_from(now: i64) -> int {
    if today(now) - 30 * 86_400 < i64::MIN {
        i64::MIN as int
    } else {
        today(now) - 30 * 86_400
    }
}

/// The range of a view, given what its two dates parsed to: a date that was
/// given and parsed stands; for the start the default is 30 days before
/// today, for the end it is today.
pub fn resolve_range(from: Option<i64>, to: Option<i64>, now: i64) -> (r: (i64, i64))
    ensures
        r.0 == match from {
            Some(f) => f as int,
            None => default_from(now),
        },
        r.1 == match to {
            Some(t) => t as int,
            None => today(now),
        },
{
    let start_of_today: i64 = if now < MIN_TIMESTAMP {
        MIN_TIMESTAMP
    } else {
        day_start(now)
    };
    let span: i64 = DEFAULT_SPAN_DAYS * SECONDS_PER_DAY;
    let first: i64 = match from {
        Some(f) => f,
        None => if start_of_today < i64::MIN + span {
            i64::MIN
        } else {
            start_of_today - span
        },
    };
    let last: i64 = match to {
        Some(t) => t,
        None => start_of_today,
    };
    (first, last)
}

} // verus!
