//! The day-count ("ordinal") form of a calendar date: a bijection between
//! valid `CalendarDate` values and the integers 0 ..= 3_652_058, where 0 is
//! 0001-01-01. Both directions are closed-form: the year is recovered through
//! the 400/100/4/1-year leap-cycle decomposition, never by stepping day by day.

use vstd::arithmetic::div_mod::{
    lemma_div_is_ordered, lemma_div_is_ordered_by_denominator, lemma_div_pos_is_pos,
    lemma_fundamental_div_mod, lemma_fundamental_div_mod_converse,
};
use vstd::prelude::*;

use crate::date::{
    date_lt, date_valid, days_in_month, is_leap, spec_days_in_month, spec_is_leap, CalendarDate,
};

verus! {

/// Largest ordinal: the day count of 9999-12-31.
pub const MAX_ORDINAL: u32 = 3_652_058;

/// Days in a year: 366 under the leap rule, else 365.
pub open spec fn days_in_year(y: int) -> int {
    if spec_is_leap(y) {
        366
    } else {
        365
    }
}

/// Days in all months of year `y` strictly before month `m`
/// (defined for 1 <= m <= 13; at 13 it is the whole year).
pub open spec fn days_before_month(y: int, m: int) -> int {
    let base: int = if m <= 1 {
        0
    } else if m == 2 {
        31
    } else if m == 3 {
        59
    } else if m == 4 {
        90
    } else if m == 5 {
        120
    } else if m == 6 {
        151
    } else if m == 7 {
        181
    } else if m == 8 {
        212
    } else if m == 9 {
        243
    } else if m == 10 {
        273
    } else if m == 11 {
        304
    } else if m == 12 {
        334
    } else {
        365
    };
    if m >= 3 && spec_is_leap(y) {
        base + 1
    } else {
        base
    }
}

/// Days in all years from 1 up to but not including `y`:
/// 365 per year plus one per leap year, in closed form.
pub open spec fn days_before_year(y: int) -> int {
    365 * (y - 1) + (y - 1) / 4 - (y - 1) / 100 + (y - 1) / 400
}

/// The ordinal of a date: days before its year, plus days before its month,
/// plus its (1-based) day of the month, counted from 0 at 0001-01-01.
pub open spec fn date_ordinal(d: CalendarDate) -> int {
    days_before_year(d.year as int) + days_before_month(d.year as int, d.month as int) + d.day - 1
}

/// Walking from month `m` to `m + 1` adds exactly the length of month `m`.
proof fn lemma_days_before_month_step(y: int, m: int)
    requires
        1 <= m <= 12,
    ensures
        days_before_month(y, m + 1) == days_before_month(y, m) + spec_days_in_month(y, m),
{
}

/// Quotients drop by whole steps: going from `a - 1` to `a` raises `a / b`
/// exactly when `b` divides `a`.
proof fn lemma_div_step(a: int, b: int)
    requires
        a >= 1,
        b >= 1,
    ensures
        a / b == (a - 1) / b + if a % b == 0 {
            1int
        } else {
            0int
        },
        a % b == 0 ==> (a - 1) % b == b - 1,
{
    lemma_fundamental_div_mod(a - 1, b);
    let q = (a - 1) / b;
    let r = (a - 1) % b;
    if r == b - 1 {
        assert(a == (q + 1) * b + 0) by (nonlinear_arith)
            requires
                a - 1 == b * q + r,
                r == b - 1,
        ;
        lemma_fundamental_div_mod_converse(a, b, q + 1, 0);
    } else {
        assert(a == q * b + (r + 1)) by (nonlinear_arith)
            requires
                a - 1 == b * q + r,
        ;
        lemma_fundamental_div_mod_converse(a, b, q, r + 1);
    }
}

/// A multiple of 400 is a multiple of 100 and of 4, and a multiple of 100 is
/// a multiple of 4.
proof fn lemma_leap_divisor_chain(y: int)
    requires
        y >= 1,
    ensures
        y % 400 == 0 ==> y % 100 == 0,
        y % 400 == 0 ==> y % 4 == 0,
        y % 100 == 0 ==> y % 4 == 0,
{
    if y % 400 == 0 {
        lemma_fundamental_div_mod(y, 400);
        let q = y / 400;
        assert(y == (4 * q) * 100 + 0 && y == (100 * q) * 4 + 0) by (nonlinear_arith)
            requires
                y == 400 * q,
        ;
        lemma_fundamental_div_mod_converse(y, 100, 4 * q, 0);
        lemma_fundamental_div_mod_converse(y, 4, 100 * q, 0);
    }
    if y % 100 == 0 {
        lemma_fundamental_div_mod(y, 100);
        let q = y / 100;
        assert(y == (25 * q) * 4 + 0) by (nonlinear_arith)
            requires
                y == 100 * q,
        ;
        lemma_fundamental_div_mod_converse(y, 4, 25 * q, 0);
    }
}

/// Year `y + 1` starts exactly `days_in_year(y)` days after year `y`.
proof fn lemma_days_before_year_step(y: int)
    requires
        y >= 1,
    ensures
        days_before_year(y + 1) == days_before_year(y) + days_in_year(y),
{
    lemma_div_step(y, 4);
    lemma_div_step(y, 100);
    lemma_div_step(y, 400);
    lemma_leap_divisor_chain(y);
}

/// `days_before_year` grows along the years, by at least a full year's days
/// for each year passed.
proof fn lemma_days_before_year_monotone(y1: int, y2: int)
    requires
        1 <= y1 <= y2,
    ensures
        days_before_year(y1) <= days_before_year(y2),
        y1 < y2 ==> days_before_year(y1) + days_in_year(y1) <= days_before_year(y2),
    decreases y2 - y1,
{
    if y1 < y2 {
        lemma_days_before_year_step(y1);
        lemma_days_before_year_monotone(y1 + 1, y2);
    }
}

/// Within one year, the days before a month and the month's own length
/// never pass the end of the year.
proof fn lemma_days_before_month_bounds(y: int, m: int)
    requires
        1 <= m <= 12,
    ensures
        0 <= days_before_month(y, m),
        days_before_month(y, m) + spec_days_in_month(y, m) <= days_in_year(y),
{
}

/// `days_before_year` never goes negative for years from 1 on.
proof fn lemma_days_before_year_nonneg(y: int)
    requires
        y >= 1,
    ensures
        days_before_year(y) >= 0,
{
    lemma_div_pos_is_pos(y - 1, 4);
    lemma_div_pos_is_pos(y - 1, 400);
    lemma_div_is_ordered_by_denominator(y - 1, 4, 100);
}

/// Pinning the helper quotients of year 10000: the day count of the whole
/// supported range is `MAX_ORDINAL + 1`.
proof fn lemma_days_before_year_10000()
    ensures
        days_before_year(10000) == MAX_ORDINAL + 1,
{
    lemma_fundamental_div_mod_converse(9999, 4, 2499, 3);
    lemma_fundamental_div_mod_converse(9999, 100, 99, 99);
    lemma_fundamental_div_mod_converse(9999, 400, 24, 399);
}

/// Every valid date's ordinal lies in [0, MAX_ORDINAL].
pub proof fn lemma_ordinal_range(d: CalendarDate)
    requires
        date_valid(d),
    ensures
        0 <= date_ordinal(d) <= MAX_ORDINAL,
{
    let y = d.year as int;
    lemma_days_before_year_nonneg(y);
    lemma_days_before_month_bounds(y, d.month as int);
    lemma_days_before_year_step(y);
    lemma_days_before_year_monotone(y + 1, 10000);
    lemma_days_before_year_10000();
}

/// Calendar order matches ordinal order: a strictly earlier valid date has a
/// strictly smaller ordinal.
pub proof fn lemma_ordinal_monotone(d1: CalendarDate, d2: CalendarDate)
    requires
        date_valid(d1),
        date_valid(d2),
        date_lt(d1, d2),
    ensures
        date_ordinal(d1) < date_ordinal(d2),
{
    let y1 = d1.year as int;
    let y2 = d2.year as int;
    let m1 = d1.month as int;
    let m2 = d2.month as int;
    if y1 < y2 {
        lemma_days_before_month_bounds(y1, m1);
        lemma_days_before_year_step(y1);
        lemma_days_before_year_monotone(y1 + 1, y2);
        lemma_days_before_month_bounds(y2, m2);
    } else if m1 < m2 {
        lemma_month_prefix_monotone(y1, m1, m2);
    }
}

/// Within a year, a month's days end before a later month begins.
proof fn lemma_month_prefix_monotone(y: int, m1: int, m2: int)
    requires
        1 <= m1 < m2 <= 12,
    ensures
        days_before_month(y, m1) + spec_days_in_month(y, m1) <= days_before_month(y, m2),
    decreases m2 - m1,
{
    lemma_days_before_month_step(y, m1);
    if m1 + 1 < m2 {
        lemma_days_before_month_bounds(y, m1 + 1);
        lemma_month_prefix_monotone(y, m1 + 1, m2);
    }
}

/// The ordinal map has no collisions: two valid dates with one ordinal are
/// the same date. Together with `from_ordinal`'s contract this makes the
/// date <-> ordinal maps mutually inverse bijections, so decoding
/// `to_ordinal`'s result always recovers the original date.
pub proof fn lemma_ordinal_injective(d1: CalendarDate, d2: CalendarDate)
    requires
        date_valid(d1),
        date_valid(d2),
        date_ordinal(d1) == date_ordinal(d2),
    ensures
        d1 == d2,
{
    if date_lt(d1, d2) {
        lemma_ordinal_monotone(d1, d2);
    } else if date_lt(d2, d1) {
        lemma_ordinal_monotone(d2, d1);
    }
}

/// The closed form of `days_before_year` on a year written out along the
/// 400/100/4/1-year leap cycles: each full 400-year cycle holds 146097 days,
/// each further full century 36524, each further 4-year block 1461, and each
/// further year 365.
proof fn lemma_days_before_year_decompose(a: int, b: int, c: int, e: int)
    requires
        0 <= a,
        0 <= b <= 3,
        0 <= c <= 24,
        0 <= e <= 3,
    ensures
        days_before_year(400 * a + 100 * b + 4 * c + e + 1) == 146097 * a + 36524 * b + 1461 * c
            + 365 * e,
{
    let x = 400 * a + 100 * b + 4 * c + e;
    lemma_fundamental_div_mod_converse(x, 4, 100 * a + 25 * b + c, e);
    lemma_fundamental_div_mod_converse(x, 100, 4 * a + b, 4 * c + e);
    lemma_fundamental_div_mod_converse(x, 400, a, 100 * b + 4 * c + e);
}

/// Days in all months of `year` strictly before `month`.
fn days_before_month_of(year: u16, month: u8) -> (r: u16)
    requires
        1 <= month <= 12,
    ensures
        r == days_before_month(year as int, month as int),
{
    let base: u16 = if month == 1 {
        0
    } else if month == 2 {
        31
    } else if month == 3 {
        59
    } else if month == 4 {
        90
    } else if month == 5 {
        120
    } else if month == 6 {
        151
    } else if month == 7 {
        181
    } else if month == 8 {
        212
    } else if month == 9 {
        243
    } else if month == 10 {
        273
    } else if month == 11 {
        304
    } else {
        334
    };
    if month >= 3 && is_leap(year) {
        base + 1
    } else {
        base
    }
}

/// The ordinal of a valid date: its distance in days from 0001-01-01.
pub fn to_ordinal(d: &CalendarDate) -> (r: u32)
    requires
        date_valid(*d),
    ensures
        r == date_ordinal(*d),
        r <= MAX_ORDINAL,
{
    proof {
        lemma_ordinal_range(*d);
        lemma_days_before_year_nonneg(d.year as int);
        lemma_div_is_ordered_by_denominator((d.year - 1) as int, 4, 100);
        lemma_div_is_ordered(0, (d.year - 1) as int, 4);
        lemma_div_is_ordered((d.year - 1) as int, 9998, 4);
        lemma_div_is_ordered(0, (d.year - 1) as int, 100);
        lemma_div_is_ordered(0, (d.year - 1) as int, 400);
        lemma_div_is_ordered((d.year - 1) as int, 9998, 400);
    }
    let y: u32 = (d.year - 1) as u32;
    let leaps: u32 = y / 4 - y / 100 + y / 400;
    let before_year: u32 = 365 * y + leaps;
    let before_month: u32 = days_before_month_of(d.year, d.month) as u32;
    before_year + before_month + (d.day - 1) as u32
}

/// The date at a given day count: the unique valid `CalendarDate` whose
/// ordinal is `ord`. The year comes out of the 400/100/4/1-year cycle
/// decomposition, the month out of a single pass over the twelve months.
pub fn from_ordinal(ord: u32) -> (r: CalendarDate)
    requires
        ord <= MAX_ORDINAL,
    ensures
        date_valid(r),
        date_ordinal(r) == ord,
{
    let a: u32 = ord / 146097;
    let rem0: u32 = ord % 146097;
    proof {
        lemma_fundamental_div_mod(ord as int, 146097);
        lemma_div_is_ordered(ord as int, MAX_ORDINAL as int, 146097);
        lemma_fundamental_div_mod_converse(MAX_ORDINAL as int, 146097, 24, 145730);
    }

    let bq: u32 = rem0 / 36524;
    proof {
        lemma_fundamental_div_mod(rem0 as int, 36524);
        lemma_div_is_ordered(rem0 as int, 146096, 36524);
        lemma_fundamental_div_mod_converse(146096, 36524, 4, 0);
    }
    let b: u32 = if bq == 4 {
        3
    } else {
        bq
    };
    let rem1: u32 = rem0 - 36524 * b;
    assert(rem0 == 36524 * b + rem1 && b <= 3 && rem1 <= 36524 && (rem1 == 36524 ==> b == 3));

    let c: u32 = rem1 / 1461;
    let rem2: u32 = rem1 % 1461;
    proof {
        lemma_fundamental_div_mod(rem1 as int, 1461);
        lemma_div_is_ordered(rem1 as int, 36524, 1461);
        lemma_fundamental_div_mod_converse(36524, 1461, 24, 1460);
    }
    assert(c <= 24 && rem2 < 1461 && (rem2 == 1460 && c == 24 ==> rem1 == 36524));

    let eq4: u32 = rem2 / 365;
    proof {
        lemma_fundamental_div_mod(rem2 as int, 365);
        lemma_div_is_ordered(rem2 as int, 1460, 365);
        lemma_fundamental_div_mod_converse(1460, 365, 4, 0);
    }
    let e: u32 = if eq4 == 4 {
        3
    } else {
        eq4
    };
    let rem3: u32 = rem2 - 365 * e;
    assert(rem2 == 365 * e + rem3 && e <= 3 && rem3 <= 365 && (rem3 == 365 ==> e == 3 && rem2
        == 1460));

    let year32: u32 = 400 * a + 100 * b + 4 * c + e + 1;
    proof {
        lemma_days_before_year_decompose(a as int, b as int, c as int, e as int);
        assert(days_before_year(year32 as int) + rem3 == ord);
        if year32 > 9999 {
            lemma_days_before_year_10000();
            lemma_days_before_year_monotone(10000, year32 as int);
            assert(false);
        }
        if rem3 == 365 {
            let y = year32 as int;
            if rem1 == 36524 {
                assert(y == (a + 1) * 400 + 0) by (nonlinear_arith)
                    requires
                        y == 400 * a + 400,
                ;
                lemma_fundamental_div_mod_converse(y, 400, a + 1, 0);
            } else {
                assert(c <= 23);
                lemma_fundamental_div_mod_converse(y, 4, 100 * a + 25 * b + c + 1, 0);
                lemma_fundamental_div_mod_converse(y, 100, 4 * a + b, 4 * c + 4);
            }
            assert(spec_is_leap(year32 as int));
        }
        assert(rem3 < days_in_year(year32 as int));
    }
    let year: u16 = year32 as u16;

    let mut month: u8 = 1;
    let mut doy: u32 = rem3;
    while month < 12 && doy >= days_in_month(year, month) as u32
        invariant
            1 <= month <= 12,
            1 <= year <= 9999,
            days_before_month(year as int, month as int) + doy == rem3,
            rem3 < days_in_year(year as int),
        decreases 12 - month,
    {
        proof {
            lemma_days_before_month_step(year as int, month as int);
        }
        doy = doy - days_in_month(year, month) as u32;
        month = month + 1;
    }
    assert(doy < spec_days_in_month(year as int, month as int));
    let day: u8 = (doy + 1) as u8;
    let r = CalendarDate { year, month, day };
    assert(date_ordinal(r) == ord);
    r
}

} // verus!
