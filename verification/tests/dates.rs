use rinha::json_utils::{day_of_week, days_since_epoch, minutes_between};

#[test]
fn days_are_counted_from_1970() {
    assert_eq!(days_since_epoch(1970, 1, 1), 0);
    assert_eq!(days_since_epoch(1969, 12, 31), -1);
    assert_eq!(days_since_epoch(2000, 3, 1), 11017);
    assert_eq!(days_since_epoch(2026, 3, 11), 20523);
    assert_eq!(days_since_epoch(0, 3, 1), -719468);
    assert_eq!(days_since_epoch(-1, 3, 1), -719468 - 366);
    // the month before January
    assert_eq!(days_since_epoch(2026, 0, 1), days_since_epoch(2025, 12, 1));
}

#[test]
fn consecutive_days_differ_by_one() {
    let lengths = [31, 28, 31, 30, 31, 30, 31, 31, 30, 31, 30, 31];
    let mut expected = days_since_epoch(1999, 1, 1);
    let mut weekday = day_of_week(1999, 1, 1);
    for y in 1999u32..2006 {
        for m in 1u32..13 {
            let leap = m == 2 && y % 4 == 0;
            for d in 1..lengths[m as usize - 1] + 1 + leap as u32 {
                assert_eq!(days_since_epoch(y as i32, m, d), expected);
                assert_eq!(day_of_week(y, m, d), weekday);
                assert_eq!(weekday as i64, (expected + 3) % 7);
                expected += 1;
                weekday = (weekday + 1) % 7;
            }
        }
    }
}

#[test]
fn weekdays_start_on_monday() {
    assert_eq!(day_of_week(2026, 3, 9), 0);
    assert_eq!(day_of_week(2026, 3, 15), 6);
    assert_eq!(day_of_week(1900, 2, 28), 2);
    assert_eq!(day_of_week(1900, 3, 1), 3);
}

#[test]
fn minutes_are_exact() {
    assert_eq!(minutes_between(2024, 2, 28, 23, 30, 2024, 3, 1, 0, 15), 24 * 60 + 45);
    assert_eq!(minutes_between(2025, 12, 31, 23, 59, 2026, 1, 1, 0, 0), 1);
    assert_eq!(minutes_between(2026, 1, 1, 0, 0, 2025, 1, 1, 0, 0), 0);
    assert_eq!(minutes_between(2026, 1, 1, 0, 0, 2026, 1, 1, 0, 0), 0);
    // spans are cut to 32 bits
    assert_eq!(
        minutes_between(0, 3, 1, 0, 0, 20000, 3, 1, 0, 0) as u64,
        20000 / 400 * 146097 * 1440 % 0x1_0000_0000
    );
}
