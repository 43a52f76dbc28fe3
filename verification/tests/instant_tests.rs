use whenever::date::make_date;
use whenever::instant::{
    datetime_from_instant, instant_before, instant_from_datetime, instant_from_parts,
    CivilDateTime, Instant, MAX_INSTANT_SECS,
};
use whenever::time::{make_time, time_before, TimeOfDay};

fn civil(y: i64, mo: i64, d: i64, h: i64, mi: i64, s: i64, n: i64) -> CivilDateTime {
    CivilDateTime {
        date: make_date(y, mo, d).unwrap(),
        time: make_time(h, mi, s, n).unwrap(),
    }
}

#[test]
fn time_validity() {
    assert_eq!(
        make_time(23, 59, 59, 999_999_999),
        Some(TimeOfDay {
            hour: 23,
            minute: 59,
            second: 59,
            nanosecond: 999_999_999
        })
    );
    assert_eq!(make_time(24, 0, 0, 0), None);
    assert_eq!(make_time(0, 60, 0, 0), None);
    assert_eq!(make_time(0, 0, 60, 0), None);
    assert_eq!(make_time(0, 0, 0, 1_000_000_000), None);
    assert_eq!(make_time(-1, 0, 0, 0), None);
}

#[test]
fn instant_known_seconds() {
    let a = instant_from_datetime(&civil(1, 1, 1, 0, 0, 0, 0));
    assert_eq!(a, Instant { secs: 0, nanos: 0 });
    let b = instant_from_datetime(&civil(2021, 1, 1, 0, 0, 0, 0));
    assert_eq!(b.secs, 737_790 * 86_400);
    let c = instant_from_datetime(&civil(9999, 12, 31, 23, 59, 59, 999_999_999));
    assert_eq!(c.secs, MAX_INSTANT_SECS);
    assert_eq!(c.nanos, 999_999_999);
}

#[test]
fn instant_round_trip_samples() {
    let samples = [
        civil(1, 1, 1, 0, 0, 0, 0),
        civil(1, 1, 1, 0, 0, 0, 1),
        civil(1970, 1, 1, 0, 0, 0, 0),
        civil(2000, 2, 29, 12, 30, 45, 123_456_789),
        civil(2020, 2, 29, 23, 59, 59, 999_999_999),
        civil(2021, 12, 31, 1, 2, 3, 4),
        civil(9999, 12, 31, 23, 59, 59, 999_999_999),
    ];
    for t in samples {
        let i = instant_from_datetime(&t);
        assert_eq!(datetime_from_instant(&i), t);
    }
}

#[test]
fn instant_round_trip_every_second_of_a_day() {
    let date = make_date(2021, 3, 14).unwrap();
    for h in 0..24i64 {
        for mi in 0..60i64 {
            for s in 0..60i64 {
                let t = CivilDateTime {
                    date,
                    time: make_time(h, mi, s, 5).unwrap(),
                };
                let i = instant_from_datetime(&t);
                assert_eq!(datetime_from_instant(&i), t);
            }
        }
    }
}

#[test]
fn instant_ordering() {
    let a = instant_from_datetime(&civil(2021, 1, 1, 0, 0, 0, 0));
    let b = instant_from_datetime(&civil(2021, 1, 1, 0, 0, 1, 0));
    assert!(a.secs < b.secs);
    assert!(instant_before(&a, &b));
    assert!(!instant_before(&b, &a));
    // Nanoseconds break the tie when the seconds agree.
    let c = instant_from_datetime(&civil(2021, 1, 1, 0, 0, 0, 7));
    assert!(instant_before(&a, &c));
    assert!(!instant_before(&a, &a));
    // A later date wins over an earlier time of day.
    let d = instant_from_datetime(&civil(2020, 12, 31, 23, 59, 59, 999_999_999));
    assert!(instant_before(&d, &a));
}

#[test]
fn time_of_day_ordering() {
    let early = make_time(9, 30, 0, 0).unwrap();
    let late = make_time(9, 30, 0, 1).unwrap();
    assert!(time_before(&early, &late));
    assert!(!time_before(&late, &early));
    assert!(!time_before(&early, &early));
    let noon = make_time(12, 0, 0, 0).unwrap();
    assert!(time_before(&early, &noon));
}

#[test]
fn instant_serialized_pair_round_trips() {
    let t = civil(2024, 6, 15, 8, 30, 0, 250_000_000);
    let i = instant_from_datetime(&t);
    // The (secs, nanos) pair is the wire form; rebuilding from it gives back
    // the identical civil date-time.
    let rebuilt = instant_from_parts(i.secs, i.nanos).unwrap();
    assert_eq!(rebuilt, i);
    assert_eq!(datetime_from_instant(&rebuilt), t);
    // Pairs outside the supported range are rejected.
    assert_eq!(instant_from_parts(MAX_INSTANT_SECS + 1, 0), None);
    assert_eq!(instant_from_parts(0, 1_000_000_000), None);
    assert_eq!(
        instant_from_parts(MAX_INSTANT_SECS, 999_999_999),
        Some(Instant {
            secs: MAX_INSTANT_SECS,
            nanos: 999_999_999
        })
    );
}

#[test]
fn instant_field_accessors() {
    let t = civil(2021, 7, 9, 13, 45, 6, 42);
    let i = instant_from_datetime(&t);
    assert_eq!(i.hour(), 13);
    assert_eq!(i.minute(), 45);
    assert_eq!(i.second(), 6);
    assert_eq!(i.nanosecond(), 42);
    let d = i.date();
    assert_eq!(d, make_date(2021, 7, 9).unwrap());
}
