use rinha::normalize::{day_of_week, extract_day_of_week, extract_hour, minutes_between};

#[test]
fn test_day_of_week() {
    // 2026-03-11 is a Wednesday = 2 (mon=0)
    assert_eq!(extract_day_of_week("2026-03-11T20:23:35Z"), 2);
}

#[test]
fn test_hour() {
    assert_eq!(extract_hour("2026-03-11T20:23:35Z"), 20);
    assert_eq!(extract_hour("2026-03-11T05:15:12Z"), 5);
}

#[test]
fn short_or_odd_timestamps_have_hour_zero() {
    assert_eq!(extract_hour(""), 0);
    assert_eq!(extract_hour("2026-03-11T20:2"), 0);
    assert_eq!(extract_hour("2026-03-11T20:23"), 20);
    assert_eq!(extract_hour("2026-03-11Txx:23"), 0);
    assert_eq!(extract_hour("2026-03-11T+7:23"), 7);
    assert_eq!(extract_hour("2026-03-11T-7:23"), 0);
    assert_eq!(extract_hour("2026-03-11T23:23"), 23);
    assert_eq!(extract_hour("2026-03-11T24:23"), 0);
    assert_eq!(extract_hour("2026-03-11T99:23"), 0);
}

#[test]
fn timestamps_without_a_date_have_weekday_zero() {
    assert_eq!(extract_day_of_week("2026-03-1"), 0);
    assert_eq!(extract_day_of_week("2026-xx-11T20:23:35Z"), 0);
    assert_eq!(extract_day_of_week("    -03-11"), 0);
}

#[test]
fn a_year_may_have_a_sign() {
    // the calendar repeats every 400 years
    assert_eq!(extract_day_of_week("+026-03-11"), 2);
    assert_eq!(extract_day_of_week("2426-03-11"), 2);
    assert_eq!(extract_day_of_week("+026-03-12"), 3);
}

#[test]
fn weekdays_run_through_the_week() {
    // 2024-02-26 was a Monday, and 2024 a leap year
    let days = [(2, 26), (2, 27), (2, 28), (2, 29), (3, 1), (3, 2), (3, 3), (3, 4)];
    for (i, &(m, d)) in days.iter().enumerate() {
        assert_eq!(day_of_week(2024, m, d) as usize, i % 7);
    }
    // 1970-01-01 was a Thursday, 2000-01-01 a Saturday
    assert_eq!(day_of_week(1970, 1, 1), 3);
    assert_eq!(day_of_week(2000, 1, 1), 5);
}

#[test]
fn minutes_are_counted_over_days_months_and_years() {
    assert_eq!(minutes_between("2026-03-11T20:23:35Z", "2026-03-11T20:53:35Z"), 30);
    assert_eq!(minutes_between("2026-03-11T23:59:00Z", "2026-03-12T00:01:00Z"), 2);
    assert_eq!(minutes_between("2024-02-28T00:00:00Z", "2024-03-01T00:00:00Z"), 2 * 1440);
    assert_eq!(minutes_between("2023-02-28T00:00:00Z", "2023-03-01T00:00:00Z"), 1440);
    assert_eq!(minutes_between("2025-12-31T23:00:00Z", "2026-01-01T00:00:00Z"), 60);
    // seconds below a minute do not count
    assert_eq!(minutes_between("2026-03-11T20:23:59Z", "2026-03-11T20:24:00Z"), 1);
}

#[test]
fn minutes_do_not_run_backwards() {
    assert_eq!(minutes_between("2026-03-12T00:00:00Z", "2026-03-11T00:00:00Z"), 0);
    assert_eq!(minutes_between("2026-03-12T00:00:00Z", "2026-03-12"), 0);
}

#[test]
fn fields_that_are_no_numbers_count_as_zero() {
    // an hour of xx is taken for 00
    assert_eq!(minutes_between("2026-03-11Txx:00:00Z", "2026-03-11T01:00:00Z"), 60);
}
