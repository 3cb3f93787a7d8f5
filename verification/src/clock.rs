//! Times of day and calendar times as text.

use crate::text;
use vstd::prelude::*;

verus! {

/// The first second that has a calendar date.
pub const FIRST_SECOND: i64 = -8_334_601_228_800;

/// The last second that has a calendar date.
pub const LAST_SECOND: i64 = 8_210_266_876_799;

/// Seconds of a day.
pub const DAY_SECONDS: i64 = 86_400;

/// The last `width` decimal digits of a number.
pub open spec fn digits(n: nat, width: nat) -> Seq<char>
    decreases width,
{
    if width == 0 {
        Seq::empty()
    } else {
        digits(n / 10, (width - 1) as nat).push(text::digit_char(n % 10))
    }
}

/// The time of day, universal time, as hours, minutes and seconds.
pub open spec fn time_of_day(secs: int) -> Seq<char> {
    let t = (secs % (DAY_SECONDS as int)) as nat;
    digits(t / 3600, 2) + ":"@ + digits(t / 60 % 60, 2) + ":"@ + digits(t % 60, 2)
}

/// Whether a second has a calendar date.
pub open spec fn has_date(secs: int) -> bool {
    FIRST_SECOND <= secs <= LAST_SECOND
}

/// The time of day of a second since the epoch, where the second has a calendar date.
///
/// Calls `chrono::DateTime::from_timestamp` and formats its result with `%H:%M:%S`. There is
/// no result for a second before the year -262143 or after the year 262142; else the text is
/// the hour, minute and second of the day in universal time, two digits each.
#[verifier::external_body]
pub(crate) fn utc_time(secs: i64) -> (out: Option<String>)
    ensures
        out is Some <==> has_date(secs as int),
        out is Some ==> (out->0)@ == time_of_day(secs as int),
{
    match chrono::DateTime::from_timestamp(secs, 0) {
        Some(dt) => Some(dt.format("%H:%M:%S").to_string()),
        None => None,
    }
}

/// The time of day of a millisecond since the epoch, where it has a calendar date.
///
/// Calls `chrono::DateTime::from_timestamp_millis` and formats its result with
/// `%H:%M:%S%.3f`. There is no result for a millisecond of a second without a date; else the
/// text is the time of day in universal time, then a point and the three digits of the
/// millisecond.
#[verifier::external_body]
pub(crate) fn utc_time_ms(ts_ms: i64) -> (out: Option<String>)
    ensures
        out is Some <==> has_date(ts_ms as int / 1000),
        out is Some ==> (out->0)@ == time_of_day(ts_ms as int / 1000) + "."@ + digits(
            (ts_ms as int % 1000) as nat,
            3,
        ),
{
    match chrono::DateTime::from_timestamp_millis(ts_ms) {
        Some(dt) => Some(dt.format("%H:%M:%S%.3f").to_string()),
        None => None,
    }
}

/// The millisecond since the epoch that `chrono::DateTime::parse_from_rfc3339` reads from a
/// text, where it reads one.
pub uninterp spec fn rfc3339_ms(s: Seq<char>) -> Option<i64>;

/// The millisecond since the epoch of a calendar time as of RFC 3339.
///
/// Calls `chrono::DateTime::parse_from_rfc3339`, whose result is a function of the text
/// alone, and takes the milliseconds of it; the contract names that function and says
/// nothing more of it.
#[verifier::external_body]
pub(crate) fn parse_rfc3339_ms(s: &str) -> (ms: Option<i64>)
    ensures
        ms == rfc3339_ms(s@),
{
    match chrono::DateTime::parse_from_rfc3339(s) {
        Ok(dt) => Some(dt.timestamp_millis()),
        Err(_) => None,
    }
}

/// A time of day is the hours, minutes and seconds since midnight, two digits each.
pub proof fn law_time_of_day_counts_from_midnight(day: int, h: nat, m: nat, s: nat)
    requires
        h < 24,
        m < 60,
        s < 60,
    ensures
        time_of_day(86_400 * day + 3600 * h + 60 * m + s) == digits(h, 2) + ":"@ + digits(m, 2)
            + ":"@ + digits(s, 2),
{
    let secs = 86_400 * day + 3600 * h + 60 * m + s;
    lemma_hours_minutes_seconds(day, h, m, s);
    assert((secs % (DAY_SECONDS as int)) as nat == 3600 * h + 60 * m + s);
}

/// The parts of a time of day are found by division.
proof fn lemma_hours_minutes_seconds(day: int, h: nat, m: nat, s: nat)
    requires
        h < 24,
        m < 60,
        s < 60,
    ensures
        (86_400 * day + 3600 * h + 60 * m + s) % 86_400 == 3600 * h + 60 * m + s,
        (3600 * h + 60 * m + s) / 3600 == h,
        (3600 * h + 60 * m + s) / 60 % 60 == m,
        (3600 * h + 60 * m + s) % 60 == s,
{
    assert((3600 * h + 60 * m + s) / 60 == 60 * h + m);
}

/// A number of two digits is its tens and its ones.
pub proof fn law_two_digits_are_tens_and_ones(tens: nat, ones: nat)
    requires
        tens < 10,
        ones < 10,
    ensures
        digits(10 * tens + ones, 2) == seq![text::digit_char(tens), text::digit_char(ones)],
{
    let n = 10 * tens + ones;
    assert(n / 10 == tens && n % 10 == ones);
    assert(tens / 10 == 0 && tens % 10 == tens);
    reveal_with_fuel(digits, 3);
    assert(digits(n, 2) =~= seq![text::digit_char(tens), text::digit_char(ones)]);
}

} // verus!
