//! Days of the proleptic Gregorian calendar.
//!
//! A day is its number, January 1 of year 1 being day 1.

use crate::text::two_digits;
use chrono::{Datelike, NaiveDate};
use vstd::prelude::*;

verus! {

pub open spec fn is_leap(y: int) -> bool {
    y % 4 == 0 && (y % 100 != 0 || y % 400 == 0)
}

pub open spec fn month_length(y: int, m: int) -> int {
    if m == 2 {
        if is_leap(y) {
            29
        } else {
            28
        }
    } else if m == 4 || m == 6 || m == 9 || m == 11 {
        30
    } else {
        31
    }
}

/// Days before January 1 of year `y`.
pub open spec fn before_year(y: int) -> int {
    365 * (y - 1) + (y - 1) / 4 - (y - 1) / 100 + (y - 1) / 400
}

/// Days of year `y` before month `m`.
pub open spec fn before_month(y: int, m: int) -> int
    decreases m,
{
    if m <= 1 {
        0
    } else {
        before_month(y, m - 1) + month_length(y, m - 1)
    }
}

pub open spec fn is_date(y: int, m: int, d: int) -> bool {
    1 <= m <= 12 && 1 <= d <= month_length(y, m)
}

/// The number of the day `y`-`m`-`d`.
pub open spec fn day_number(y: int, m: int, d: int) -> int {
    before_year(y) + before_month(y, m) + d
}

pub open spec fn year_in_range(y: int) -> bool {
    -262143 <= y <= 262142
}

pub open spec fn day_in_range(day: int) -> bool {
    -95746129 <= day <= 95745399
}

/// Whether there is a date on `day`.
pub fn is_day(day: i32) -> (r: bool)
    ensures
        r == day_in_range(day as int),
{
    -95746129 <= day && day <= 95745399
}

proof fn lemma_year_step(y: int)
    ensures
        before_year(y + 1) == before_year(y) + 365 + (if is_leap(y) {
            1int
        } else {
            0
        }),
{
    let n = y - 1;
    assert((n + 1) / 4 == n / 4 + if (n + 1) % 4 == 0 { 1int } else { 0 });
    assert((n + 1) / 100 == n / 100 + if (n + 1) % 100 == 0 { 1int } else { 0 });
    assert((n + 1) / 400 == n / 400 + if (n + 1) % 400 == 0 { 1int } else { 0 });
    assert(y % 100 == 0 ==> y % 4 == 0);
    assert(y % 400 == 0 ==> y % 100 == 0);
}

proof fn lemma_years(y1: int, y2: int)
    requires
        y1 <= y2,
    ensures
        before_year(y1) <= before_year(y2),
    decreases y2 - y1,
{
    if y1 < y2 {
        lemma_years(y1, y2 - 1);
        lemma_year_step(y2 - 1);
    }
}

proof fn lemma_months(y: int, m1: int, m2: int)
    requires
        1 <= m1 < m2,
    ensures
        before_month(y, m1 + 1) == before_month(y, m1) + month_length(y, m1),
        before_month(y, m1) + month_length(y, m1) <= before_month(y, m2),
        before_month(y, m1) >= 0,
    decreases m2,
{
    if m2 > m1 + 1 {
        lemma_months(y, m1, m2 - 1);
    }
    if m1 > 1 {
        lemma_months(y, m1 - 1, m1);
    }
}

proof fn lemma_year_length(y: int)
    ensures
        before_month(y, 13) == 365 + (if is_leap(y) {
            1int
        } else {
            0
        }),
{
    reveal_with_fuel(before_month, 14);
}

/// A later date has a larger number.
proof fn lemma_day_order(y1: int, m1: int, d1: int, y2: int, m2: int, d2: int)
    requires
        is_date(y1, m1, d1),
        is_date(y2, m2, d2),
        y1 < y2 || (y1 == y2 && (m1 < m2 || (m1 == m2 && d1 < d2))),
    ensures
        day_number(y1, m1, d1) < day_number(y2, m2, d2),
{
    if y1 < y2 {
        lemma_year_step(y1);
        lemma_years(y1 + 1, y2);
        lemma_months(y1, m1, 13);
        lemma_months(y2, m2, 13);
        lemma_year_length(y1);
    } else if m1 < m2 {
        lemma_months(y1, m1, m2);
    }
}

/// A day has one date.
pub proof fn date_is_unique(y1: int, m1: int, d1: int, y2: int, m2: int, d2: int)
    requires
        is_date(y1, m1, d1),
        is_date(y2, m2, d2),
        day_number(y1, m1, d1) == day_number(y2, m2, d2),
    ensures
        y1 == y2 && m1 == m2 && d1 == d2,
{
    if y1 < y2 || (y1 == y2 && (m1 < m2 || (m1 == m2 && d1 < d2))) {
        lemma_day_order(y1, m1, d1, y2, m2, d2);
    } else if !(y1 == y2 && m1 == m2 && d1 == d2) {
        lemma_day_order(y2, m2, d2, y1, m1, d1);
    }
}

/// A year begins on the day after December 31.
pub proof fn next_year(y: int)
    ensures
        day_number(y + 1, 1, 1) == day_number(y, 12, 31) + 1,
{
    lemma_year_step(y);
    lemma_year_length(y);
    reveal_with_fuel(before_month, 2);
}

/// The date of a day.
pub open spec fn date_on(day: int) -> (int, int, int) {
    choose|y: int, m: int, d: int| is_date(y, m, d) && #[trigger] day_number(y, m, d) == day
}

proof fn lemma_date_step(y: int, m: int, d: int)
    requires
        is_date(y, m, d),
    ensures
        exists|y1: int, m1: int, d1: int|
            is_date(y1, m1, d1) && #[trigger] day_number(y1, m1, d1) == day_number(y, m, d) + 1,
        exists|y1: int, m1: int, d1: int|
            is_date(y1, m1, d1) && #[trigger] day_number(y1, m1, d1) == day_number(y, m, d) - 1,
{
    if d < month_length(y, m) {
        assert(day_number(y, m, d + 1) == day_number(y, m, d) + 1);
    } else if m < 12 {
        lemma_months(y, m, m + 1);
        assert(is_date(y, m + 1, 1));
        assert(day_number(y, m + 1, 1) == day_number(y, m, d) + 1);
    } else {
        next_year(y);
        assert(is_date(y + 1, 1, 1));
        assert(day_number(y + 1, 1, 1) == day_number(y, m, d) + 1);
    }
    if d > 1 {
        assert(day_number(y, m, d - 1) == day_number(y, m, d) - 1);
    } else if m > 1 {
        lemma_months(y, m - 1, m);
        let last = month_length(y, m - 1);
        assert(is_date(y, m - 1, last));
        assert(day_number(y, m - 1, last) == day_number(y, m, d) - 1);
    } else {
        next_year(y - 1);
        assert(is_date(y - 1, 12, 31));
        assert(day_number(y - 1, 12, 31) == day_number(y, m, d) - 1);
    }
}

/// Every day has a date.
pub proof fn every_day_has_a_date(day: int)
    ensures
        ({
            let (y, m, d) = date_on(day);
            is_date(y, m, d) && day_number(y, m, d) == day
        }),
    decreases
            if day >= 1 {
                day
            } else {
                2 - day
            },
{
    if day == 1 {
        reveal_with_fuel(before_month, 2);
        assert(is_date(1, 1, 1));
        assert(day_number(1, 1, 1) == 1);
    } else if day > 1 {
        every_day_has_a_date(day - 1);
        let (y, m, d) = date_on(day - 1);
        lemma_date_step(y, m, d);
    } else {
        every_day_has_a_date(day + 1);
        let (y, m, d) = date_on(day + 1);
        lemma_date_step(y, m, d);
    }
}

/// The days in range are those of the years in range.
pub proof fn range_of_days(y: int, m: int, d: int)
    requires
        is_date(y, m, d),
    ensures
        day_in_range(day_number(y, m, d)) <==> year_in_range(y),
{
    reveal_with_fuel(before_month, 14);
    assert(day_number(-262143, 1, 1) == -95746129);
    assert(day_number(262142, 12, 31) == 95745399);
    if y < -262143 {
        lemma_day_order(y, m, d, -262143, 1, 1);
    } else if y > 262142 {
        lemma_day_order(262142, 12, 31, y, m, d);
    } else {
        if !(y == -262143 && m == 1 && d == 1) {
            lemma_day_order(-262143, 1, 1, y, m, d);
        }
        if !(y == 262142 && m == 12 && d == 31) {
            lemma_day_order(y, m, d, 262142, 12, 31);
        }
    }
}

/// `NaiveDate::from_ymd_opt` and `num_days_from_ce` of chrono: the number of a
/// date, or nothing when there is no such date in the years that chrono covers.
#[verifier::external_body]
pub(crate) fn day_of(y: i32, m: u32, d: u32) -> (r: Option<i32>)
    ensures
        match r {
            Some(day) => is_date(y as int, m as int, d as int) && year_in_range(y as int) && day
                == day_number(y as int, m as int, d as int),
            None => !is_date(y as int, m as int, d as int) || !year_in_range(y as int),
        },
{
    NaiveDate::from_ymd_opt(y, m, d).map(|date| date.num_days_from_ce())
}

/// `NaiveDate::from_num_days_from_ce_opt` of chrono, with `year`, `month` and
/// `day` of its result: the date of a day, or nothing outside the years that
/// chrono covers.
#[verifier::external_body]
pub(crate) fn date_of(day: i32) -> (r: Option<(i32, u32, u32)>)
    ensures
        match r {
            Some((y, m, d)) => day_in_range(day as int) && is_date(y as int, m as int, d as int)
                && day == day_number(y as int, m as int, d as int),
            None => !day_in_range(day as int),
        },
{
    NaiveDate::from_num_days_from_ce_opt(day).map(|date| (date.year(), date.month(), date.day()))
}

/// The short name of a day of the week.
pub open spec fn weekday_name(day: int) -> Seq<char> {
    let k = (day - 1) % 7;
    if k == 0 {
        "Mon"@
    } else if k == 1 {
        "Tue"@
    } else if k == 2 {
        "Wed"@
    } else if k == 3 {
        "Thu"@
    } else if k == 4 {
        "Fri"@
    } else if k == 5 {
        "Sat"@
    } else {
        "Sun"@
    }
}

/// `day` is written as its day of the week, month and day of the month.
pub open spec fn is_short_date(text: Seq<char>, day: int) -> bool {
    forall|y: int, m: int, d: int|
        is_date(y, m, d) && #[trigger] day_number(y, m, d) == day ==> text == weekday_name(day) + " "@
            + two_digits(m as nat) + "-"@ + two_digits(d as nat)
}

/// `NaiveDate::format` of chrono with `%a %m-%d`: the short English name of the
/// day of the week, then the month and the day of the month in two digits.
#[verifier::external_body]
fn short_date(day: i32) -> (r: String)
    requires
        day_in_range(day as int),
    ensures
        is_short_date(r@, day as int),
{
    NaiveDate::from_num_days_from_ce_opt(day).unwrap().format("%a %m-%d").to_string()
}

/// A day as its day of the week, month and day of the month.
pub open spec fn day_text(day: int) -> Seq<char> {
    weekday_name(day) + " "@ + two_digits(date_on(day).1 as nat) + "-"@ + two_digits(
        date_on(day).2 as nat,
    )
}

/// A day as its day of the week, month and day of the month: "Tue 05-19".
pub fn day_label(day: i32) -> (r: String)
    requires
        day_in_range(day as int),
    ensures
        r@ == day_text(day as int),
{
    let r = short_date(day);
    proof {
        every_day_has_a_date(day as int);
    }
    r
}

/// The days of the week follow one another from Monday on and begin again after
/// Sunday; the first of January of the year 1 is a Monday.
pub proof fn weekdays_come_in_turn(week: int)
    ensures
        weekday_name(7 * week + 1) == "Mon"@,
        weekday_name(7 * week + 2) == "Tue"@,
        weekday_name(7 * week + 3) == "Wed"@,
        weekday_name(7 * week + 4) == "Thu"@,
        weekday_name(7 * week + 5) == "Fri"@,
        weekday_name(7 * week + 6) == "Sat"@,
        weekday_name(7 * week + 7) == "Sun"@,
{
}

/// A year has 365 days, or 366 where it is divisible by four, but not by a hundred
/// unless by four hundred; so have its months together.
pub proof fn years_have_their_days(y: int)
    ensures
        day_number(y + 1, 1, 1) - day_number(y, 1, 1) == if y % 400 == 0 || (y % 4 == 0 && y % 100
            != 0) {
            366int
        } else {
            365
        },
        month_length(y, 1) + month_length(y, 2) + month_length(y, 3) + month_length(y, 4)
            + month_length(y, 5) + month_length(y, 6) + month_length(y, 7) + month_length(y, 8)
            + month_length(y, 9) + month_length(y, 10) + month_length(y, 11) + month_length(y, 12)
            == day_number(y + 1, 1, 1) - day_number(y, 1, 1),
{
    lemma_year_step(y);
    reveal_with_fuel(before_month, 2);
    assert(y % 400 == 0 ==> y % 4 == 0);
}

/// A day is written with the day of the week and the date that it falls on.
pub proof fn days_are_written_with_their_date(y: int, m: int, d: int)
    requires
        is_date(y, m, d),
    ensures
        day_text(day_number(y, m, d)) == weekday_name(day_number(y, m, d)) + " "@ + two_digits(
            m as nat,
        ) + "-"@ + two_digits(d as nat),
{
    let day = day_number(y, m, d);
    every_day_has_a_date(day);
    let (y1, m1, d1) = date_on(day);
    date_is_unique(y1, m1, d1, y, m, d);
}

} // verus!
