use whenever::date::{date_before, days_in_month, make_date, CalendarDate};
use whenever::ordinal::{from_ordinal, to_ordinal, MAX_ORDINAL};

#[test]
fn ordinal_of_first_and_last_day() {
    let first = make_date(1, 1, 1).unwrap();
    assert_eq!(to_ordinal(&first), 0);
    let last = make_date(9999, 12, 31).unwrap();
    assert_eq!(to_ordinal(&last), MAX_ORDINAL);
}

#[test]
fn ordinal_known_values() {
    // Python's date.toordinal counts 0001-01-01 as 1; this crate counts it 0.
    assert_eq!(to_ordinal(&make_date(1970, 1, 1).unwrap()), 719_162);
    assert_eq!(to_ordinal(&make_date(2021, 1, 1).unwrap()), 737_790);
    assert_eq!(to_ordinal(&make_date(1, 2, 1).unwrap()), 31);
    assert_eq!(to_ordinal(&make_date(2, 1, 1).unwrap()), 365);
    assert_eq!(to_ordinal(&make_date(2000, 3, 1).unwrap()), 730_179);
}

#[test]
fn ordinal_round_trip_every_ordinal() {
    // from_ordinal is a right inverse of to_ordinal on every supported
    // day count, which together with injectivity makes both bijections.
    for ord in 0..=MAX_ORDINAL {
        let d = from_ordinal(ord);
        assert_eq!(to_ordinal(&d), ord);
    }
}

#[test]
fn ordinal_round_trip_every_date() {
    // from_ordinal(to_ordinal(d)) == d over the whole supported range.
    for year in 1..=9999u16 {
        for month in 1..=12u8 {
            let n = days_in_month(year, month);
            for day in 1..=n {
                let d = CalendarDate { year, month, day };
                assert_eq!(from_ordinal(to_ordinal(&d)), d);
            }
        }
    }
}

#[test]
fn ordinal_monotone_over_consecutive_days() {
    // Stepping one day at a time steps the ordinal by exactly one, also
    // across month, year, and leap-year boundaries.
    let mut prev = to_ordinal(&make_date(1, 1, 1).unwrap());
    for ord in 1..=MAX_ORDINAL {
        let d = from_ordinal(ord);
        let o = to_ordinal(&d);
        assert_eq!(o, prev + 1);
        prev = o;
    }
}

#[test]
fn ordinal_agrees_with_calendar_order() {
    let samples = [
        (1, 1, 1),
        (1899, 12, 31),
        (1900, 2, 28),
        (1900, 3, 1),
        (2000, 2, 29),
        (2020, 2, 29),
        (2021, 2, 28),
        (2100, 2, 28),
        (2100, 3, 1),
        (9999, 12, 31),
    ];
    for a in samples {
        for b in samples {
            let da = make_date(a.0, a.1, a.2).unwrap();
            let db = make_date(b.0, b.1, b.2).unwrap();
            assert_eq!(
                date_before(&da, &db),
                to_ordinal(&da) < to_ordinal(&db),
                "order mismatch for {:?} vs {:?}",
                a,
                b
            );
        }
    }
}

#[test]
fn leap_year_boundaries() {
    // 1900-02-28 is the last day of that February; 2000 and 2020 do have
    // a February 29; 2100 does not.
    assert_eq!(
        to_ordinal(&make_date(1900, 3, 1).unwrap()),
        to_ordinal(&make_date(1900, 2, 28).unwrap()) + 1
    );
    assert_eq!(
        to_ordinal(&make_date(2000, 3, 1).unwrap()),
        to_ordinal(&make_date(2000, 2, 29).unwrap()) + 1
    );
    assert_eq!(
        to_ordinal(&make_date(2100, 3, 1).unwrap()),
        to_ordinal(&make_date(2100, 2, 28).unwrap()) + 1
    );
    assert_eq!(days_in_month(2004, 2), 29);
    assert_eq!(days_in_month(1900, 2), 28);
    assert_eq!(days_in_month(2000, 2), 29);
}
