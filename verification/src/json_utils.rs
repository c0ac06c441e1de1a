//! Days of the week and time spans from the parts of dates.

use vstd::prelude::*;
use crate::calendar::{epoch_day, march_day, march_day_counts_days, month_term, sakamoto, sakamoto_finds_the_weekday, weekday};

verus! {

/// What is added for each month to find the day of the week.
pub fn month_add(m: u32) -> (r: u32)
    requires
        1 <= m <= 12,
    ensures
        r == month_term(m as int),
{
    let t: [u32; 12] = [0, 3, 2, 5, 0, 3, 5, 1, 4, 6, 2, 4];
    t[(m - 1) as usize]
}

/// The sum that gives the day of the week can be formed in 32 bits.
pub open spec fn weekday_sum_fits(y: int, m: int, d: int) -> bool {
    let a = if m < 3 {
        y - 1
    } else {
        y
    };
    &&& 0 <= a
    &&& a + a / 4 <= u32::MAX
    &&& sakamoto(y, m, d) <= u32::MAX
}

/// The sum that gives the day of the week, with January and February counted to
/// the year before.
pub fn weekday_sum(y: u32, m: u32, d: u32) -> (r: u32)
    requires
        1 <= m <= 12,
        weekday_sum_fits(y as int, m as int, d as int),
    ensures
        r == sakamoto(y as int, m as int, d as int),
{
    let a: u32 = if m < 3 {
        y - 1
    } else {
        y
    };
    a + a / 4 - a / 100 + a / 400 + month_add(m) + d
}

/// The day of the week of a date: 0 on a Monday, 6 on a Sunday.
pub fn day_of_week(y: u32, m: u32, d: u32) -> (r: u8)
    requires
        1 <= m <= 12,
        weekday_sum_fits(y as int, m as int, d as int),
    ensures
        r == weekday(y as int, m as int, d as int),
{
    proof {
        sakamoto_finds_the_weekday(y as int, m as int, d as int);
    }
    let dow: u32 = weekday_sum(y, m, d) % 7;
    ((dow + 6) % 7) as u8
}

/// The number that a year of 32 bits stands for as a signed one.
pub open spec fn signed_year(y: u32) -> int {
    if y < 0x8000_0000 {
        y as int
    } else {
        y - 0x1_0000_0000
    }
}

/// The day number of a date, from 1970-01-01 on. A month of 0 is taken for the
/// one before January, and one past 12 for as many months after March.
pub open spec fn day_number(y: int, m: int, d: int) -> int {
    if m <= 2 {
        march_day(y - 1, m + 9, d) - 719468
    } else {
        march_day(y, m - 3, d) - 719468
    }
}

/// On the months of the calendar the day number is the number of days from
/// 1970-01-01.
pub proof fn day_number_counts_days(y: int, m: int, d: int)
    requires
        1 <= m <= 12,
    ensures
        day_number(y, m, d) == epoch_day(y, m, d),
{
    march_day_counts_days(y, m, d);
}

/// The day number of a date can be formed: no year below the smallest of its
/// era, and no day of the era past 32 bits.
pub open spec fn day_number_fits(y: int, m: int, d: int) -> bool {
    let a = if m <= 2 {
        y - 1
    } else {
        y
    };
    let mm = if m > 2 {
        m - 3
    } else {
        m + 9
    };
    &&& a >= i32::MIN
    &&& a >= 0 || a - 399 >= i32::MIN
    &&& 153 * mm + 2 <= u32::MAX
    &&& (153 * mm + 2) / 5 + d >= 1
    &&& (153 * mm + 2) / 5 + d <= u32::MAX
    &&& a % 400 * 365 + a % 400 / 4 - a % 400 / 100 + (153 * mm + 2) / 5 + d - 1 <= u32::MAX
}

/// A year is as many years into its era of 400 years.
proof fn eras(a: int)
    ensures
        march_day(a, 0, 0) == a / 400 * 146097 + march_day(a % 400, 0, 0),
{
    let e = a / 400;
    let r = a % 400;
    assert(a == 400 * e + r);
    assert(a / 4 == 100 * e + r / 4);
    assert(a / 100 == 4 * e + r / 100);
}

/// The day number of a date.
pub fn days_since_epoch(y: i32, m: u32, d: u32) -> (r: i64)
    requires
        day_number_fits(y as int, m as int, d as int),
    ensures
        r == day_number(y as int, m as int, d as int),
{
    let a: i32 = if m <= 2 {
        y - 1
    } else {
        y
    };
    let era: i32 = if a >= 0 {
        a / 400
    } else {
        (-((399 - a as i64) / 400)) as i32
    };
    assert(era == a as int / 400);
    let yoe: u32 = (a - era * 400) as u32;
    assert(yoe == a as int % 400);
    let mm: u32 = if m > 2 {
        m - 3
    } else {
        m + 9
    };
    let doy: u32 = (153 * mm + 2) / 5 + d - 1;
    let doe: u32 = yoe * 365 + yoe / 4 - yoe / 100 + doy;
    proof {
        eras(a as int);
    }
    era as i64 * 146097 + doe as i64 - 719468
}

/// The minutes from 1970-01-01 to a time.
pub open spec fn minute_number(y: u32, mo: u32, d: u32, h: u32, min: u32) -> int {
    day_number(signed_year(y), mo as int, d as int) * 1440 + h * 60 + min
}

/// On the dates of the calendar the minute number counts the minutes from the
/// start of 1970.
pub proof fn minute_number_counts_minutes(y: u32, mo: u32, d: u32, h: u32, min: u32)
    requires
        y < 0x8000_0000,
        1 <= mo <= 12,
    ensures
        minute_number(y, mo, d, h, min) == epoch_day(y as int, mo as int, d as int) * 1440 + h * 60
            + min,
{
    day_number_counts_days(y as int, mo as int, d as int);
}

/// The whole minutes from one time to a later one, in 32 bits; 0 if the second
/// is not later.
pub fn minutes_between(
    y1: u32,
    mo1: u32,
    d1: u32,
    h1: u32,
    min1: u32,
    y2: u32,
    mo2: u32,
    d2: u32,
    h2: u32,
    min2: u32,
) -> (r: u32)
    requires
        day_number_fits(signed_year(y1), mo1 as int, d1 as int),
        day_number_fits(signed_year(y2), mo2 as int, d2 as int),
    ensures
        ({
            let span = minute_number(y2, mo2, d2, h2, min2) - minute_number(y1, mo1, d1, h1, min1);
            r as int == if span > 0 {
                span % 0x1_0000_0000
            } else {
                0
            }
        }),
{
    let d1: i64 = days_since_epoch(signed(y1), mo1, d1);
    let d2: i64 = days_since_epoch(signed(y2), mo2, d2);
    let m1: i64 = d1 * 1440 + h1 as i64 * 60 + min1 as i64;
    let m2: i64 = d2 * 1440 + h2 as i64 * 60 + min2 as i64;
    let span: i64 = m2 - m1;
    if span > 0 {
        (span % 0x1_0000_0000) as u32
    } else {
        0
    }
}

/// The number that a year of 32 bits stands for as a signed one.
fn signed(y: u32) -> (r: i32)
    ensures
        r == signed_year(y),
{
    if y < 0x8000_0000 {
        y as i32
    } else {
        (y as i64 - 0x1_0000_0000) as i32
    }
}

} // verus!
