//! Calendar dates of the proleptic Gregorian calendar, as plain values, and
//! the three calendar operations that the rest of the library needs. The
//! operations themselves are chrono's; this module states what they return
//! over its own description of the calendar.

use chrono::{Datelike, NaiveDate, TimeDelta};
use vstd::prelude::*;

verus! {

/// The earliest year a date can have.
pub const MIN_YEAR: i32 = -262143;

/// The latest year a date can have.
pub const MAX_YEAR: i32 = 262142;

/// Whether year `y` has a 29th of February.
pub open spec fn is_leap_year(y: int) -> bool {
    y % 4 == 0 && (y % 100 != 0 || y % 400 == 0)
}

/// The number of days of month `m` in year `y`.
pub open spec fn days_in_month(y: int, m: int) -> int {
    if m == 2 {
        if is_leap_year(y) {
            29
        } else {
            28
        }
    } else if m == 4 || m == 6 || m == 9 || m == 11 {
        30
    } else {
        31
    }
}

/// The number of days of year `y` that lie before its month `m`.
pub open spec fn days_before_month(y: int, m: int) -> int
    decreases m,
{
    if m <= 1 {
        0
    } else {
        days_before_month(y, m - 1) + days_in_month(y, m - 1)
    }
}

/// Whether year, month and day name a day of the calendar within the
/// supported years.
pub open spec fn is_date(y: int, m: int, d: int) -> bool {
    &&& MIN_YEAR <= y <= MAX_YEAR
    &&& 1 <= m <= 12
    &&& 1 <= d <= days_in_month(y, m)
}

/// The position of a day within its year, counted from zero.
pub open spec fn ordinal0(y: int, m: int, d: int) -> int {
    days_before_month(y, m) + d - 1
}

/// The number of days between the first day of year 1 and the first day of
/// year `y`, negative for earlier years.
pub open spec fn days_before_year(y: int) -> int {
    365 * (y - 1) + (y - 1) / 4 - (y - 1) / 100 + (y - 1) / 400
}

/// The position of a day on the line of all days: 1 for the first of January
/// of year 1, and one more for each following day.
pub open spec fn day_number(y: int, m: int, d: int) -> int {
    days_before_year(y) + ordinal0(y, m, d) + 1
}

/// The day number of the first supported day.
pub open spec fn first_day_number() -> int {
    day_number(MIN_YEAR as int, 1, 1)
}

/// The day number of the last supported day.
pub open spec fn last_day_number() -> int {
    day_number(MAX_YEAR as int, 12, 31)
}

/// A calendar date as year, month and day.
#[derive(Clone, Copy, Debug, PartialEq, Eq, Structural)]
pub struct Date {
    pub year: i32,
    pub month: u8,
    pub day: u8,
}

impl Date {
    /// The fields name a day of the calendar within the supported years.
    pub open spec fn valid(&self) -> bool {
        is_date(self.year as int, self.month as int, self.day as int)
    }

    /// The position of this date on the line of all days.
    pub open spec fn day_number(&self) -> int {
        day_number(self.year as int, self.month as int, self.day as int)
    }

    /// The date with these fields, if they name one.
    pub fn from_ymd_opt(year: i32, month: u8, day: u8) -> (date: Option<Date>)
        ensures
            date is Some <==> is_date(year as int, month as int, day as int),
            date is Some ==> date == Some(Date { year, month, day }),
    {
        if date_exists(year, month, day) {
            Some(Date { year, month, day })
        } else {
            None
        }
    }

    /// The position of this date within its year, counted from zero.
    pub fn ordinal0(&self) -> (n: u32)
        requires
            self.valid(),
        ensures
            n == ordinal0(self.year as int, self.month as int, self.day as int),
            n <= 365,
    {
        proof {
            lemma_ordinal0_range(self.year as int, self.month as int, self.day as int);
        }
        day_of_year0(self.year, self.month, self.day)
    }

    /// The date `days` days after this one, or before it for a negative
    /// count; `None` where that day lies outside the supported years.
    pub fn checked_add_days(&self, days: i64) -> (moved: Option<Date>)
        requires
            self.valid(),
        ensures
            moved is Some <==> first_day_number() <= self.day_number() + days
                <= last_day_number(),
            moved is Some ==> moved->0.valid() && moved->0.day_number() == self.day_number()
                + days,
    {
        date_plus_days(self.year, self.month, self.day, days)
    }
}

/// `NaiveDate::from_ymd_opt` of chrono, asked only whether it gives a date.
/// Claimed: it gives one exactly for the days of the proleptic Gregorian
/// calendar whose year lies between `MIN_YEAR` and `MAX_YEAR`.
#[verifier::external_body]
fn date_exists(year: i32, month: u8, day: u8) -> (exists: bool)
    ensures
        exists == is_date(year as int, month as int, day as int),
{
    NaiveDate::from_ymd_opt(year, month as u32, day as u32).is_some()
}

/// `Datelike::ordinal0` of chrono on the `NaiveDate` with these fields.
/// Claimed: it counts the days of the year that lie before the date.
#[verifier::external_body]
fn day_of_year0(year: i32, month: u8, day: u8) -> (n: u32)
    requires
        is_date(year as int, month as int, day as int),
    ensures
        n == ordinal0(year as int, month as int, day as int),
{
    NaiveDate::from_ymd_opt(year, month as u32, day as u32).unwrap().ordinal0()
}

/// `NaiveDate::checked_add_signed` of chrono with a `TimeDelta` of `days`
/// whole days, on the `NaiveDate` with these fields. Claimed: it gives the
/// day that lies `days` places further on the line of all days, and no date
/// exactly when that place lies before the first or after the last supported
/// day. A count too large for a `TimeDelta` lies outside in any case.
#[verifier::external_body]
fn date_plus_days(year: i32, month: u8, day: u8, days: i64) -> (moved: Option<Date>)
    requires
        is_date(year as int, month as int, day as int),
    ensures
        moved is Some <==> first_day_number() <= day_number(year as int, month as int, day as int)
            + days <= last_day_number(),
        moved is Some ==> moved->0.valid() && moved->0.day_number() == day_number(
            year as int,
            month as int,
            day as int,
        ) + days,
{
    let from = NaiveDate::from_ymd_opt(year, month as u32, day as u32)?;
    let to = from.checked_add_signed(TimeDelta::try_days(days)?)?;
    Some(Date { year: to.year(), month: to.month() as u8, day: to.day() as u8 })
}

/// A day's position within its year is below the length of the year.
pub proof fn lemma_ordinal0_range(y: int, m: int, d: int)
    requires
        1 <= m <= 12,
        1 <= d <= days_in_month(y, m),
    ensures
        0 <= ordinal0(y, m, d) < 365 + if is_leap_year(y) { 1int } else { 0int },
        days_before_month(y, 13) == 365 + if is_leap_year(y) { 1int } else { 0int },
{
    reveal_with_fuel(days_before_month, 14);
}

/// A year starts as many days after the year before as that year is long.
pub proof fn lemma_year_length(y: int)
    ensures
        days_before_year(y + 1) - days_before_year(y) == 365 + if is_leap_year(y) {
            1int
        } else {
            0int
        },
{
}

/// Of two years the later one starts later, by at least 365 days a year.
pub proof fn lemma_years_in_order(a: int, b: int)
    requires
        a <= b,
    ensures
        days_before_year(b) - days_before_year(a) >= 365 * (b - a),
    decreases b - a,
{
    if a < b {
        lemma_years_in_order(a, b - 1);
        lemma_year_length(b - 1);
    }
}

/// Within one year, the earlier of two days has the smaller position.
pub proof fn lemma_ordinal0_in_order(y: int, m1: int, d1: int, m2: int, d2: int)
    requires
        1 <= m1 <= 12,
        1 <= m2 <= 12,
        1 <= d1 <= days_in_month(y, m1),
        1 <= d2 <= days_in_month(y, m2),
        m1 < m2 || (m1 == m2 && d1 < d2),
    ensures
        ordinal0(y, m1, d1) < ordinal0(y, m2, d2),
{
    reveal_with_fuel(days_before_month, 14);
}

/// The earlier of two dates has the smaller day number.
pub proof fn lemma_day_number_in_order(a: Date, b: Date)
    requires
        a.valid(),
        b.valid(),
        a.year < b.year || (a.year == b.year && (a.month < b.month || (a.month == b.month
            && a.day < b.day))),
    ensures
        a.day_number() < b.day_number(),
{
    if a.year < b.year {
        lemma_ordinal0_range(a.year as int, a.month as int, a.day as int);
        lemma_ordinal0_range(b.year as int, b.month as int, b.day as int);
        lemma_year_length(a.year as int);
        lemma_years_in_order(a.year + 1, b.year as int);
    } else {
        lemma_ordinal0_in_order(
            a.year as int,
            a.month as int,
            a.day as int,
            b.month as int,
            b.day as int,
        );
    }
}

/// No two dates share a day number.
pub proof fn lemma_day_number_names_one_date(a: Date, b: Date)
    requires
        a.valid(),
        b.valid(),
        a.day_number() == b.day_number(),
    ensures
        a == b,
{
    if a != b {
        if a.year < b.year || (a.year == b.year && (a.month < b.month || (a.month == b.month
            && a.day < b.day))) {
            lemma_day_number_in_order(a, b);
        } else {
            lemma_day_number_in_order(b, a);
        }
    }
}

/// Every date lies between the first and the last supported day.
pub proof fn lemma_day_number_range(a: Date)
    requires
        a.valid(),
    ensures
        first_day_number() <= a.day_number() <= last_day_number(),
{
    reveal_with_fuel(days_before_month, 14);
    lemma_ordinal0_range(a.year as int, a.month as int, a.day as int);
    lemma_years_in_order(MIN_YEAR as int, a.year as int);
    lemma_year_length(a.year as int);
    lemma_years_in_order(a.year + 1, MAX_YEAR + 1);
    lemma_year_length(MAX_YEAR as int);
}

} // verus!
