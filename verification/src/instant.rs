//! Absolute instants: a civil date-time folded into a single
//! (seconds-since-epoch, nanoseconds) pair, and unfolded back. Second 0 is
//! 0001-01-01T00:00:00; lexicographic order on the pair is chronological
//! order.

use vstd::arithmetic::div_mod::{
    lemma_div_is_ordered, lemma_fundamental_div_mod, lemma_fundamental_div_mod_converse,
    lemma_mod_mod,
};
use vstd::prelude::*;

use crate::date::{date_lt, date_valid, CalendarDate};
use crate::ordinal::{
    date_ordinal, from_ordinal, lemma_ordinal_injective, lemma_ordinal_monotone,
    lemma_ordinal_range, to_ordinal, MAX_ORDINAL,
};
use crate::time::{time_lt, time_valid, TimeOfDay, MAX_NANOSECOND};

verus! {

/// Seconds in one day.
pub const SECS_PER_DAY: u64 = 86_400;

/// The seconds field of the instant for 9999-12-31T23:59:59.
pub const MAX_INSTANT_SECS: u64 = 315_537_897_599;

/// A wall-clock moment: a validated date paired with a validated time of day,
/// with no associated zone.
#[derive(Clone, Copy, Debug, PartialEq, Eq, Structural, Hash)]
pub struct CivilDateTime {
    pub date: CalendarDate,
    pub time: TimeOfDay,
}

/// An absolute moment: whole seconds since 0001-01-01T00:00:00 plus
/// sub-second nanoseconds. This pair is also the stable serialized form.
#[derive(Clone, Copy, Debug, PartialEq, Eq, Structural, Hash)]
pub struct Instant {
    pub secs: u64,
    pub nanos: u32,
}

/// A civil date-time is valid when both halves are.
pub open spec fn datetime_valid(t: CivilDateTime) -> bool {
    date_valid(t.date) && time_valid(t.time)
}

/// Chronological order on civil date-times: by date, then time of day.
pub open spec fn datetime_lt(a: CivilDateTime, b: CivilDateTime) -> bool {
    date_lt(a.date, b.date) || (a.date == b.date && time_lt(a.time, b.time))
}

/// Seconds from midnight to a time of day.
pub open spec fn seconds_of_day(t: TimeOfDay) -> int {
    t.hour * 3600 + t.minute * 60 + t.second
}

/// The seconds field of the instant a civil date-time denotes.
pub open spec fn instant_seconds(t: CivilDateTime) -> int {
    date_ordinal(t.date) * (SECS_PER_DAY as int) + seconds_of_day(t.time)
}

/// An instant is valid when its seconds stay within the supported year range
/// and its nanoseconds within one second.
pub open spec fn instant_valid(i: Instant) -> bool {
    i.secs <= MAX_INSTANT_SECS && i.nanos <= MAX_NANOSECOND
}

/// Lexicographic order on instants: by seconds, then nanoseconds.
pub open spec fn instant_lt(a: Instant, b: Instant) -> bool {
    a.secs < b.secs || (a.secs == b.secs && a.nanos < b.nanos)
}

/// Fold a valid civil date-time into its instant: the date's day count times
/// the day length, plus the seconds from midnight; nanoseconds carry over.
pub fn instant_from_datetime(dt: &CivilDateTime) -> (r: Instant)
    requires
        datetime_valid(*dt),
    ensures
        r.secs == instant_seconds(*dt),
        r.nanos == dt.time.nanosecond,
        instant_valid(r),
{
    let ord = to_ordinal(&dt.date);
    let secs: u64 = ord as u64 * SECS_PER_DAY + dt.time.hour as u64 * 3600
        + dt.time.minute as u64 * 60 + dt.time.second as u64;
    Instant { secs, nanos: dt.time.nanosecond }
}

/// Unfold an in-range instant back into the civil date-time it denotes:
/// the quotient by the day length picks the date, the remainder is split by
/// successive division into hour, minute and second; nanoseconds carry over.
pub fn datetime_from_instant(i: &Instant) -> (r: CivilDateTime)
    requires
        instant_valid(*i),
    ensures
        datetime_valid(r),
        instant_seconds(r) == i.secs,
        r.time.nanosecond == i.nanos,
{
    let s = i.secs;
    proof {
        lemma_fundamental_div_mod(s as int, SECS_PER_DAY as int);
        lemma_div_is_ordered(s as int, MAX_INSTANT_SECS as int, SECS_PER_DAY as int);
        lemma_fundamental_div_mod_converse(
            MAX_INSTANT_SECS as int,
            SECS_PER_DAY as int,
            MAX_ORDINAL as int,
            86399,
        );
    }
    let ord: u32 = (s / SECS_PER_DAY) as u32;
    let day_rem: u32 = (s % SECS_PER_DAY) as u32;
    let date = from_ordinal(ord);

    proof {
        lemma_fundamental_div_mod(day_rem as int, 3600);
        lemma_div_is_ordered(day_rem as int, 86399, 3600);
        lemma_fundamental_div_mod_converse(86399, 3600, 23, 3599);
        lemma_mod_mod(s as int, 3600, 24);
    }
    let hour: u8 = (day_rem / 3600) as u8;
    let hour_rem: u32 = (s % 3600) as u32;

    proof {
        lemma_fundamental_div_mod(hour_rem as int, 60);
        lemma_div_is_ordered(hour_rem as int, 3599, 60);
        lemma_fundamental_div_mod_converse(3599, 60, 59, 59);
        lemma_mod_mod(s as int, 60, 60);
    }
    let minute: u8 = (hour_rem / 60) as u8;
    let second: u8 = (s % 60) as u8;

    CivilDateTime {
        date,
        time: TimeOfDay { hour, minute, second, nanosecond: i.nanos },
    }
}

/// Rebuild an instant from its serialized (seconds, nanoseconds) pair,
/// accepting exactly the pairs that a valid civil date-time can produce.
pub fn instant_from_parts(secs: u64, nanos: u32) -> (r: Option<Instant>)
    ensures
        secs <= MAX_INSTANT_SECS && nanos <= MAX_NANOSECOND ==> r == Some(Instant { secs, nanos }),
        !(secs <= MAX_INSTANT_SECS && nanos <= MAX_NANOSECOND) ==> r is None,
        r matches Some(i) ==> instant_valid(i),
{
    if secs <= MAX_INSTANT_SECS && nanos <= MAX_NANOSECOND {
        Some(Instant { secs, nanos })
    } else {
        None
    }
}

/// Whether `a` falls strictly before `b`.
pub fn instant_before(a: &Instant, b: &Instant) -> (r: bool)
    ensures
        r == instant_lt(*a, *b),
{
    a.secs < b.secs || (a.secs == b.secs && a.nanos < b.nanos)
}

impl Instant {
    /// The hour its civil form shows.
    pub fn hour(&self) -> (r: u8)
        ensures
            r == (self.secs % (SECS_PER_DAY as u64)) as int / 3600,
    {
        proof {
            lemma_fundamental_div_mod((self.secs % SECS_PER_DAY) as int, 3600);
        }
        ((self.secs % SECS_PER_DAY) / 3600) as u8
    }

    /// The minute its civil form shows.
    pub fn minute(&self) -> (r: u8)
        ensures
            r == (self.secs % 3600) as int / 60,
    {
        proof {
            lemma_fundamental_div_mod((self.secs % 3600) as int, 60);
        }
        ((self.secs % 3600) / 60) as u8
    }

    /// The second its civil form shows.
    pub fn second(&self) -> (r: u8)
        ensures
            r == self.secs % 60,
    {
        (self.secs % 60) as u8
    }

    /// The sub-second nanoseconds.
    pub fn nanosecond(&self) -> (r: u32)
        ensures
            r == self.nanos,
    {
        self.nanos
    }

    /// The calendar date its civil form shows.
    pub fn date(&self) -> (r: CalendarDate)
        requires
            instant_valid(*self),
        ensures
            date_valid(r),
            date_ordinal(r) == self.secs as int / (SECS_PER_DAY as int),
    {
        proof {
            lemma_div_is_ordered(self.secs as int, MAX_INSTANT_SECS as int, SECS_PER_DAY as int);
            lemma_fundamental_div_mod_converse(
                MAX_INSTANT_SECS as int,
                SECS_PER_DAY as int,
                MAX_ORDINAL as int,
                86399,
            );
            lemma_fundamental_div_mod(self.secs as int, SECS_PER_DAY as int);
        }
        from_ordinal((self.secs / SECS_PER_DAY) as u32)
    }
}

/// Folding a civil date-time loses nothing: two valid civil date-times that
/// denote one instant are the same, so unfolding the instant recovers the
/// original bit for bit.
pub proof fn lemma_datetime_instant_injective(t1: CivilDateTime, t2: CivilDateTime)
    requires
        datetime_valid(t1),
        datetime_valid(t2),
        instant_seconds(t1) == instant_seconds(t2),
        t1.time.nanosecond == t2.time.nanosecond,
    ensures
        t1 == t2,
{
    let s = instant_seconds(t1);
    lemma_ordinal_range(t1.date);
    lemma_ordinal_range(t2.date);
    lemma_fundamental_div_mod_converse(
        s,
        SECS_PER_DAY as int,
        date_ordinal(t1.date),
        seconds_of_day(t1.time),
    );
    lemma_fundamental_div_mod_converse(
        s,
        SECS_PER_DAY as int,
        date_ordinal(t2.date),
        seconds_of_day(t2.time),
    );
    lemma_ordinal_injective(t1.date, t2.date);
    let d = seconds_of_day(t1.time);
    lemma_fundamental_div_mod_converse(
        d,
        3600,
        t1.time.hour as int,
        t1.time.minute * 60 + t1.time.second,
    );
    lemma_fundamental_div_mod_converse(
        d,
        3600,
        t2.time.hour as int,
        t2.time.minute * 60 + t2.time.second,
    );
    let h = t1.time.minute * 60 + t1.time.second;
    lemma_fundamental_div_mod_converse(h, 60, t1.time.minute as int, t1.time.second as int);
    lemma_fundamental_div_mod_converse(h, 60, t2.time.minute as int, t2.time.second as int);
}

/// The instant pair orders exactly as the civil date-times do: for valid
/// date-times, chronological order coincides with lexicographic order on
/// (seconds, nanoseconds).
pub proof fn lemma_instant_order_matches_civil(t1: CivilDateTime, t2: CivilDateTime)
    requires
        datetime_valid(t1),
        datetime_valid(t2),
    ensures
        datetime_lt(t1, t2) <==> (instant_seconds(t1) < instant_seconds(t2) || (instant_seconds(t1)
            == instant_seconds(t2) && t1.time.nanosecond < t2.time.nanosecond)),
{
    if datetime_lt(t1, t2) {
        lemma_instant_order_forward(t1, t2);
    } else if datetime_lt(t2, t1) {
        lemma_instant_order_forward(t2, t1);
    } else {
        assert(t1.date == t2.date && t1.time == t2.time);
    }
}

/// The forward half of the order agreement: a chronologically earlier valid
/// civil date-time folds to a lexicographically smaller instant pair.
proof fn lemma_instant_order_forward(t1: CivilDateTime, t2: CivilDateTime)
    requires
        datetime_valid(t1),
        datetime_valid(t2),
        datetime_lt(t1, t2),
    ensures
        instant_seconds(t1) < instant_seconds(t2) || (instant_seconds(t1) == instant_seconds(t2)
            && t1.time.nanosecond < t2.time.nanosecond),
{
    if date_lt(t1.date, t2.date) {
        lemma_ordinal_monotone(t1.date, t2.date);
        assert((date_ordinal(t1.date) + 1) * (SECS_PER_DAY as int) <= date_ordinal(t2.date) * (
        SECS_PER_DAY as int)) by (nonlinear_arith)
            requires
                date_ordinal(t1.date) < date_ordinal(t2.date),
        ;
    }
}

} // verus!
