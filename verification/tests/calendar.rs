use topple::calendar::{civil_from_days, iso_date};

#[test]
fn epoch_is_new_years_day_1970() {
    assert_eq!(iso_date(0), "1970-01-01");
    assert_eq!(iso_date(86_399), "1970-01-01");
    assert_eq!(iso_date(86_400), "1970-01-02");
}

#[test]
fn the_second_before_the_epoch_is_new_years_eve() {
    assert_eq!(iso_date(-1), "1969-12-31");
    assert_eq!(civil_from_days(-1), (1969, 12, 31));
}

#[test]
fn leap_days_and_the_gauntlet_date() {
    assert_eq!(iso_date(951_782_400), "2000-02-29");
    assert_eq!(iso_date(1_783_036_800), "2026-07-03");
    assert_eq!(civil_from_days(59), (1970, 3, 1));
}

#[test]
fn years_past_9999_widen_and_years_before_zero_keep_the_sign() {
    assert_eq!(iso_date(253_402_300_800), "10000-01-01");
    assert_eq!(iso_date(-62_167_219_200), "0000-01-01");
    assert_eq!(iso_date(-62_167_219_201), "-001-12-31");
    assert_eq!(iso_date(-62_198_755_200), "-001-01-01");
}

#[test]
fn four_centuries_later_is_the_same_day_of_the_year() {
    // 146097 days make exactly 400 years.
    let (y, m, d) = civil_from_days(20_637);
    assert_eq!(civil_from_days(20_637 + 146_097), (y + 400, m, d));
    assert_eq!(civil_from_days(20_637 - 146_097), (y - 400, m, d));
}

#[test]
fn consecutive_days_have_consecutive_dates() {
    // Walk a leap year and a common year day by day.
    let mut prev = civil_from_days(10_956); // 1999-12-31
    assert_eq!(prev, (1999, 12, 31));
    for days in 10_957..10_957 + 366 + 365 {
        let cur = civil_from_days(days);
        let next_day = (prev.0, prev.1, prev.2 + 1);
        let next_month = (prev.0, prev.1 + 1, 1);
        let next_year = (prev.0 + 1, 1, 1);
        assert!(cur == next_day || cur == next_month || cur == next_year, "{cur:?} after {prev:?}");
        prev = cur;
    }
    assert_eq!(prev, (2001, 12, 31));
}
