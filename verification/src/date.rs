//! Calendar dates under the proleptic Gregorian calendar: the leap-year rule,
//! month lengths, and validated construction of a `CalendarDate`.

use vstd::prelude::*;

verus! {

/// Smallest year a `CalendarDate` may hold.
pub const MIN_YEAR: u16 = 1;

/// Largest year a `CalendarDate` may hold.
pub const MAX_YEAR: u16 = 9999;

/// A validated calendar date. Values are only constructed through `make_date`
/// (or proven in range some other way): every `CalendarDate` handed out by
/// this crate satisfies `date_valid`.
#[derive(Clone, Copy, Debug, PartialEq, Eq, Structural, Hash)]
pub struct CalendarDate {
    pub year: u16,
    pub month: u8,
    pub day: u8,
}

/// The reason a (year, month, day) triple was rejected. Checks run in this
/// order, so a triple that is wrong in several places reports the first.
#[derive(Clone, Copy, Debug, PartialEq, Eq, Structural)]
pub enum DateError {
    InvalidYear,
    InvalidMonth,
    InvalidDay,
}

/// The Gregorian leap-year rule: divisible by 4 and either not by 100 or by 400.
pub open spec fn spec_is_leap(y: int) -> bool {
    (y % 4 == 0 && y % 100 != 0) || y % 400 == 0
}

/// Length of a month: 28/29 for February depending on the leap rule,
/// the fixed 30/31 pattern otherwise.
pub open spec fn spec_days_in_month(y: int, m: int) -> int {
    if m == 2 {
        if spec_is_leap(y) {
            29
        } else {
            28
        }
    } else if m == 4 || m == 6 || m == 9 || m == 11 {
        30
    } else {
        31
    }
}

/// A date is valid when the year is in [1, 9999], the month in [1, 12],
/// and the day in [1, length of that month].
pub open spec fn date_valid(d: CalendarDate) -> bool {
    &&& MIN_YEAR <= d.year <= MAX_YEAR
    &&& 1 <= d.month <= 12
    &&& 1 <= d.day <= spec_days_in_month(d.year as int, d.month as int)
}

/// Calendar order on dates: by year, then month, then day.
pub open spec fn date_lt(a: CalendarDate, b: CalendarDate) -> bool {
    ||| a.year < b.year
    ||| (a.year == b.year && a.month < b.month)
    ||| (a.year == b.year && a.month == b.month && a.day < b.day)
}

/// Whether `year` is a leap year.
pub fn is_leap(year: u16) -> (r: bool)
    ensures
        r == spec_is_leap(year as int),
{
    (year % 4 == 0 && year % 100 != 0) || year % 400 == 0
}

/// Number of days in the given month of the given year.
pub fn days_in_month(year: u16, month: u8) -> (r: u8)
    requires
        1 <= month <= 12,
    ensures
        r == spec_days_in_month(year as int, month as int),
{
    if month == 2 {
        if is_leap(year) {
            29
        } else {
            28
        }
    } else if month == 4 || month == 6 || month == 9 || month == 11 {
        30
    } else {
        31
    }
}

/// Validate a (year, month, day) triple and build a `CalendarDate`.
///
/// The checks run in a fixed order - year, then month, then day - so the
/// error names the first component that is out of range.
pub fn make_date(year: i64, month: i64, day: i64) -> (r: Result<CalendarDate, DateError>)
    ensures
        !(MIN_YEAR <= year <= MAX_YEAR) ==> r == Err::<CalendarDate, DateError>(
            DateError::InvalidYear,
        ),
        MIN_YEAR <= year <= MAX_YEAR && !(1 <= month <= 12) ==> r == Err::<
            CalendarDate,
            DateError,
        >(DateError::InvalidMonth),
        MIN_YEAR <= year <= MAX_YEAR && 1 <= month <= 12 && !(1 <= day <= spec_days_in_month(
            year as int,
            month as int,
        )) ==> r == Err::<CalendarDate, DateError>(DateError::InvalidDay),
        MIN_YEAR <= year <= MAX_YEAR && 1 <= month <= 12 && 1 <= day <= spec_days_in_month(
            year as int,
            month as int,
        ) ==> r == Ok::<CalendarDate, DateError>(
            CalendarDate { year: year as u16, month: month as u8, day: day as u8 },
        ),
        r matches Ok(d) ==> date_valid(d),
{
    if year < MIN_YEAR as i64 || year > MAX_YEAR as i64 {
        return Err(DateError::InvalidYear);
    }
    if month < 1 || month > 12 {
        return Err(DateError::InvalidMonth);
    }
    let y = year as u16;
    let m = month as u8;
    if day < 1 || day > days_in_month(y, m) as i64 {
        return Err(DateError::InvalidDay);
    }
    Ok(CalendarDate { year: y, month: m, day: day as u8 })
}

/// Whether `a` falls strictly before `b` in calendar order.
pub fn date_before(a: &CalendarDate, b: &CalendarDate) -> (r: bool)
    ensures
        r == date_lt(*a, *b),
{
    if a.year != b.year {
        a.year < b.year
    } else if a.month != b.month {
        a.month < b.month
    } else {
        a.day < b.day
    }
}

} // verus!
