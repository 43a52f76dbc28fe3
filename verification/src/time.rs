//! Times of day on a 24-hour clock with nanosecond resolution, and their
//! validated construction.

use vstd::prelude::*;

verus! {

/// Largest nanosecond count within one second.
pub const MAX_NANOSECOND: u32 = 999_999_999;

/// A validated time of day. Values are only constructed through `make_time`
/// (or proven in range some other way): every `TimeOfDay` handed out by this
/// crate satisfies `time_valid`.
#[derive(Clone, Copy, Debug, PartialEq, Eq, Structural, Hash)]
pub struct TimeOfDay {
    pub hour: u8,
    pub minute: u8,
    pub second: u8,
    pub nanosecond: u32,
}

/// A time is valid when every field sits inside its fixed bound. There is no
/// leap-second handling, so the second never reaches 60.
pub open spec fn time_valid(t: TimeOfDay) -> bool {
    &&& t.hour <= 23
    &&& t.minute <= 59
    &&& t.second <= 59
    &&& t.nanosecond <= MAX_NANOSECOND
}

/// Clock order on times of day: by hour, minute, second, then nanosecond.
pub open spec fn time_lt(a: TimeOfDay, b: TimeOfDay) -> bool {
    ||| a.hour < b.hour
    ||| (a.hour == b.hour && a.minute < b.minute)
    ||| (a.hour == b.hour && a.minute == b.minute && a.second < b.second)
    ||| (a.hour == b.hour && a.minute == b.minute && a.second == b.second && a.nanosecond
        < b.nanosecond)
}

/// Validate an (hour, minute, second, nanosecond) quadruple and build a
/// `TimeOfDay`. Each field is checked against its own fixed bound; any
/// violation yields the one generic failure value.
pub fn make_time(hour: i64, minute: i64, second: i64, nanosecond: i64) -> (r: Option<TimeOfDay>)
    ensures
        (0 <= hour <= 23 && 0 <= minute <= 59 && 0 <= second <= 59 && 0 <= nanosecond
            <= MAX_NANOSECOND) ==> r == Some(
            TimeOfDay {
                hour: hour as u8,
                minute: minute as u8,
                second: second as u8,
                nanosecond: nanosecond as u32,
            },
        ),
        !(0 <= hour <= 23 && 0 <= minute <= 59 && 0 <= second <= 59 && 0 <= nanosecond
            <= MAX_NANOSECOND) ==> r is None,
        r matches Some(t) ==> time_valid(t),
{
    if hour < 0 || hour > 23 {
        return None;
    }
    if minute < 0 || minute > 59 {
        return None;
    }
    if second < 0 || second > 59 {
        return None;
    }
    if nanosecond < 0 || nanosecond > MAX_NANOSECOND as i64 {
        return None;
    }
    Some(
        TimeOfDay {
            hour: hour as u8,
            minute: minute as u8,
            second: second as u8,
            nanosecond: nanosecond as u32,
        },
    )
}

/// Whether `a` falls strictly before `b` on the clock.
pub fn time_before(a: &TimeOfDay, b: &TimeOfDay) -> (r: bool)
    ensures
        r == time_lt(*a, *b),
{
    if a.hour != b.hour {
        a.hour < b.hour
    } else if a.minute != b.minute {
        a.minute < b.minute
    } else if a.second != b.second {
        a.second < b.second
    } else {
        a.nanosecond < b.nanosecond
    }
}

} // verus!
