//! The Gregorian calendar, as the date formulas of the library are held to it.

use vstd::prelude::*;

verus! {

/// The year has a 29th of February.
pub open spec fn is_leap(y: int) -> bool {
    y % 4 == 0 && (y % 100 != 0 || y % 400 == 0)
}

/// The days of month `m`, counted from 1, of year `y`.
pub open spec fn days_in_month(y: int, m: int) -> int {
    if m == 2 {
        if is_leap(y) {
            29
        } else {
            28
        }
    } else if m == 4 || m == 6 || m == 9 || m == 11 {
        30
    } else {
        31
    }
}

/// The days of year `y` before month `m`.
pub open spec fn days_before_month(y: int, m: int) -> int
    decreases m,
{
    if m <= 1 {
        0
    } else {
        days_before_month(y, m - 1) + days_in_month(y, m - 1)
    }
}

/// The days of year `y`.
pub open spec fn days_in_year(y: int) -> int {
    if is_leap(y) {
        366
    } else {
        365
    }
}

/// The days from the start of 1970 to the start of year `y`; negative before
/// 1970.
pub open spec fn days_before_year(y: int) -> int {
    365 * (y - 1970) + ((y - 1) / 4 - 492) - ((y - 1) / 100 - 19) + ((y - 1) / 400 - 4)
}

/// The days from 1970-01-01 to a date.
pub open spec fn epoch_day(y: int, m: int, d: int) -> int {
    days_before_year(y) + days_before_month(y, m) + d - 1
}

/// The day of the week of a date: 0 on a Monday, 6 on a Sunday.
pub open spec fn weekday(y: int, m: int, d: int) -> int {
    (epoch_day(y, m, d) + 3) % 7
}

/// Years start right after each other, and 1970 starts at 0.
pub proof fn years_follow_each_other(y: int)
    ensures
        days_before_year(1970) == 0,
        days_before_year(y + 1) == days_before_year(y) + days_in_year(y),
{
}

/// The days before each month, written out.
pub proof fn days_before_months(y: int)
    ensures
        days_before_month(y, 1) == 0,
        days_before_month(y, 2) == 31,
        forall|m: int|
            3 <= m <= 12 ==> (#[trigger] days_before_month(y, m)) == days_in_month(y, 2) + 31 + (153
                * (m - 3) + 2) / 5,
        days_before_month(y, 13) == days_in_year(y),
{
    reveal_with_fuel(days_before_month, 13);
    assert forall|m: int| 3 <= m <= 12 implies (#[trigger] days_before_month(y, m))
        == days_in_month(y, 2) + 31 + (153 * (m - 3) + 2) / 5 by {
        if m == 3 {
        } else if m == 4 {
        } else if m == 5 {
        } else if m == 6 {
        } else if m == 7 {
        } else if m == 8 {
        } else if m == 9 {
        } else if m == 10 {
        } else if m == 11 {
        } else {
            assert(m == 12);
        }
    }
}

/// The day after a date is one day later and the next day of the week, within a
/// month, over the end of a month and over the end of a year.
pub proof fn days_follow_each_other(y: int, m: int, d: int)
    requires
        1 <= m <= 12,
        1 <= d <= days_in_month(y, m),
    ensures
        ({
            let next = if d < days_in_month(y, m) {
                (y, m, d + 1)
            } else if m < 12 {
                (y, m + 1, 1int)
            } else {
                (y + 1, 1int, 1int)
            };
            &&& epoch_day(next.0, next.1, next.2) == epoch_day(y, m, d) + 1
            &&& weekday(next.0, next.1, next.2) == (weekday(y, m, d) + 1) % 7
        }),
{
    days_before_months(y);
    if m == 12 {
        years_follow_each_other(y);
        days_before_months(y + 1);
        assert(days_before_month(y, 13) == days_before_month(y, 12) + days_in_month(y, 12));
    } else {
        assert(days_before_month(y, m + 1) == days_before_month(y, m) + days_in_month(y, m));
    }
}

/// The days before a date when years are counted from March: the month is
/// counted from 0 in March, and January and February belong to the year before.
pub open spec fn march_day(y: int, m: int, d: int) -> int {
    365 * y + y / 4 - y / 100 + y / 400 + (153 * m + 2) / 5 + d - 1
}

/// Counting years from March gives the days from 1970-01-01, but for where the
/// count starts.
pub proof fn march_day_counts_days(y: int, m: int, d: int)
    requires
        1 <= m <= 12,
    ensures
        m > 2 ==> march_day(y, m - 3, d) == epoch_day(y, m, d) + 719468,
        m <= 2 ==> march_day(y - 1, m + 9, d) == epoch_day(y, m, d) + 719468,
{
    days_before_months(y);
    if m > 2 {
        years_follow_each_other(y);
        assert(y / 4 - y / 100 + y / 400 == (y - 1) / 4 - (y - 1) / 100 + (y - 1) / 400 + if is_leap(
            y,
        ) {
            1int
        } else {
            0int
        });
    }
}

/// What Sakamoto's method adds for each month.
pub open spec fn month_term(m: int) -> int {
    if m == 1 || m == 5 {
        0
    } else if m == 8 {
        1
    } else if m == 3 || m == 11 {
        2
    } else if m == 2 || m == 6 {
        3
    } else if m == 9 || m == 12 {
        4
    } else if m == 4 || m == 7 {
        5
    } else {
        6
    }
}

/// Sakamoto's sum: with January and February counted to the year before, the
/// years, their leap days, a term for the month and the day.
pub open spec fn sakamoto(y: int, m: int, d: int) -> int {
    let a = if m < 3 {
        y - 1
    } else {
        y
    };
    a + a / 4 - a / 100 + a / 400 + month_term(m) + d
}

/// What is added for a month stands, over weeks, for the days before it.
proof fn month_terms_count_days(m: int)
    requires
        1 <= m <= 12,
    ensures
        (if m > 2 {
            (153 * (m - 3) + 2) / 5 - month_term(m) + 2
        } else {
            (153 * (m + 9) + 2) / 5 - month_term(m) + 2
        }) % 7 == 0,
{
    if m == 1 {
    } else if m == 2 {
    } else if m == 3 {
    } else if m == 4 {
    } else if m == 5 {
    } else if m == 6 {
    } else if m == 7 {
    } else if m == 8 {
    } else if m == 9 {
    } else if m == 10 {
    } else if m == 11 {
    } else {
        assert(m == 12);
    }
}

/// Whole weeks do not change the day of the week.
proof fn weeks_do_not_count(e: int, s: int, q: int, t: int)
    requires
        e + 3 == s + 6 + 7 * q + t,
        t % 7 == 0,
    ensures
        (s + 6) % 7 == (e + 3) % 7,
        s % 7 == ((e + 3) % 7 + 1) % 7,
{
}

/// Sakamoto's sum gives the day of the week, with 0 for Sunday.
pub proof fn sakamoto_finds_the_weekday(y: int, m: int, d: int)
    requires
        1 <= m <= 12,
    ensures
        sakamoto(y, m, d) % 7 == (weekday(y, m, d) + 1) % 7,
        (sakamoto(y, m, d) + 6) % 7 == weekday(y, m, d),
{
    march_day_counts_days(y, m, d);
    month_terms_count_days(m);
    let a = if m < 3 {
        y - 1
    } else {
        y
    };
    let term = if m > 2 {
        (153 * (m - 3) + 2) / 5
    } else {
        (153 * (m + 9) + 2) / 5
    };
    let e = epoch_day(y, m, d);
    assert(e + 719468 == 365 * a + a / 4 - a / 100 + a / 400 + term + d - 1);
    weeks_do_not_count(e, sakamoto(y, m, d), 52 * a - 102782, term - month_term(m) + 2);
}

} // verus!
