use whenever::date::{make_date, CalendarDate, DateError};

#[test]
fn test_check_date_valid() {
    assert_eq!(
        make_date(2021, 1, 1),
        Ok(CalendarDate {
            year: 2021,
            month: 1,
            day: 1
        })
    );
    assert_eq!(
        make_date(2021, 12, 31),
        Ok(CalendarDate {
            year: 2021,
            month: 12,
            day: 31
        })
    );
    assert_eq!(
        make_date(2021, 2, 28),
        Ok(CalendarDate {
            year: 2021,
            month: 2,
            day: 28
        })
    );
    assert_eq!(
        make_date(2020, 2, 29),
        Ok(CalendarDate {
            year: 2020,
            month: 2,
            day: 29
        })
    );
    assert_eq!(
        make_date(2021, 4, 30),
        Ok(CalendarDate {
            year: 2021,
            month: 4,
            day: 30
        })
    );
    assert_eq!(
        make_date(2000, 2, 29),
        Ok(CalendarDate {
            year: 2000,
            month: 2,
            day: 29
        })
    );
    assert_eq!(
        make_date(1900, 2, 28),
        Ok(CalendarDate {
            year: 1900,
            month: 2,
            day: 28
        })
    );
}

#[test]
fn test_check_date_invalid_year() {
    assert_eq!(make_date(0, 1, 1), Err(DateError::InvalidYear));
    assert_eq!(make_date(10_000, 1, 1), Err(DateError::InvalidYear));
}

#[test]
fn test_check_date_invalid_month() {
    assert_eq!(make_date(2021, 0, 1), Err(DateError::InvalidMonth));
    assert_eq!(make_date(2021, 13, 1), Err(DateError::InvalidMonth));
}

#[test]
fn test_check_date_invalid_day() {
    assert_eq!(make_date(2021, 1, 0), Err(DateError::InvalidDay));
    assert_eq!(make_date(2021, 1, 32), Err(DateError::InvalidDay));
    assert_eq!(make_date(2021, 4, 31), Err(DateError::InvalidDay));
    assert_eq!(make_date(2021, 2, 29), Err(DateError::InvalidDay));
    assert_eq!(make_date(2020, 2, 30), Err(DateError::InvalidDay));
    assert_eq!(make_date(2000, 2, 30), Err(DateError::InvalidDay));
    assert_eq!(make_date(1900, 2, 29), Err(DateError::InvalidDay));
}
