//! Calendar days as day numbers of the proleptic Gregorian calendar.
use vstd::prelude::*;
use chrono::Datelike;

verus! {

/// A calendar day, held as its day number: 0001-01-01 is day 1, 0000-12-31 is day 0.
#[derive(Clone, Copy, Debug, PartialEq, Eq, Structural)]
pub struct CivilDate {
    pub days_from_ce: i32,
}

/// The day number of 1970-01-01.
pub const UNIX_EPOCH_DAY: i64 = 719_163;

/// The day number of the earliest day chrono represents (January 1 of year -262143).
pub const MIN_DAY: i64 = -95_746_129;

/// The day number of the latest day chrono represents (December 31 of year 262142).
pub const MAX_DAY: i64 = 95_745_399;

pub open spec fn is_leap_year(y: int) -> bool {
    y % 4 == 0 && (y % 100 != 0 || y % 400 == 0)
}

pub open spec fn days_in_month(y: int, m: int) -> int {
    if m == 2 {
        if is_leap_year(y) { 29 } else { 28 }
    } else if m == 4 || m == 6 || m == 9 || m == 11 {
        30
    } else {
        31
    }
}

/// Whether year, month and day name a real day.
pub open spec fn is_valid_ymd(y: int, m: int, d: int) -> bool {
    1 <= m <= 12 && 1 <= d <= days_in_month(y, m)
}

/// Days of the year that come before the first of month `m`.
pub open spec fn days_before_month(y: int, m: int) -> int {
    let common: int = if m <= 1 { 0 }
        else if m == 2 { 31 }
        else if m == 3 { 59 }
        else if m == 4 { 90 }
        else if m == 5 { 120 }
        else if m == 6 { 151 }
        else if m == 7 { 181 }
        else if m == 8 { 212 }
        else if m == 9 { 243 }
        else if m == 10 { 273 }
        else if m == 11 { 304 }
        else { 334 };
    common + if m > 2 && is_leap_year(y) { 1int } else { 0int }
}

/// The day number of a valid year, month and day (division rounds down).
pub open spec fn days_from_ce(y: int, m: int, d: int) -> int {
    let p = y - 1;
    365 * p + p / 4 - p / 100 + p / 400 + days_before_month(y, m) + d
}

/// The day, in UTC, of a moment given in milliseconds since the Unix epoch.
pub open spec fn timestamp_day(millis: int) -> int {
    millis / 1000 / 86400 + UNIX_EPOCH_DAY
}

/// Relies on chrono's `NaiveDate::from_ymd_opt`, which gives a date exactly for the real
/// days of the proleptic Gregorian calendar in its year range, and on
/// `Datelike::num_days_from_ce`, which numbers days from 0001-01-01 as day 1.
#[verifier::external_body]
pub(crate) fn ymd_day_number(year: i32, month: u32, day: u32) -> (r: Option<i32>)
    requires
        0 <= year <= 9999,
    ensures
        r is Some <==> is_valid_ymd(year as int, month as int, day as int),
        r is Some ==> r->0 as int == days_from_ce(year as int, month as int, day as int),
{
    chrono::NaiveDate::from_ymd_opt(year, month, day).map(|d| d.num_days_from_ce())
}

/// Relies on chrono's `DateTime::from_timestamp_millis`, which gives a moment exactly when its
/// day lies in chrono's range, and on `date_naive` and `Datelike::num_days_from_ce` for the
/// number of that day in UTC.
#[verifier::external_body]
pub(crate) fn timestamp_day_number(millis: i64) -> (r: Option<i32>)
    ensures
        r is Some <==> MIN_DAY <= timestamp_day(millis as int) <= MAX_DAY,
        r is Some ==> r->0 as int == timestamp_day(millis as int),
{
    chrono::DateTime::from_timestamp_millis(millis).map(|t| t.date_naive().num_days_from_ce())
}

} // verus!
