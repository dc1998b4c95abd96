use chrono::{Datelike, NaiveDate, TimeDelta};
use rust_neotools::calendar::{Date, MAX_YEAR, MIN_YEAR};

fn leap(year: i64) -> bool {
    year.rem_euclid(4) == 0 && (year.rem_euclid(100) != 0 || year.rem_euclid(400) == 0)
}

fn days_in_month(year: i64, month: i64) -> i64 {
    match month {
        2 => {
            if leap(year) {
                29
            } else {
                28
            }
        }
        4 | 6 | 9 | 11 => 30,
        _ => 31,
    }
}

/// The day number as the library's contracts define it.
fn day_number(year: i64, month: i64, day: i64) -> i64 {
    let before_year = 365 * (year - 1) + (year - 1).div_euclid(4) - (year - 1).div_euclid(100)
        + (year - 1).div_euclid(400);
    let before_month: i64 = (1..month).map(|m| days_in_month(year, m)).sum();
    before_year + before_month + day
}

fn next_input(state: &mut u64) -> u64 {
    *state = state
        .wrapping_mul(6364136223846793005)
        .wrapping_add(1442695040888963407);
    *state >> 33
}

#[test]
fn dates_exist_as_the_calendar_says() {
    assert_eq!(
        Date::from_ymd_opt(2015, 3, 14),
        Some(Date { year: 2015, month: 3, day: 14 })
    );
    assert_eq!(Date::from_ymd_opt(2015, 0, 14), None);
    assert_eq!(Date::from_ymd_opt(2015, 13, 14), None);
    assert_eq!(Date::from_ymd_opt(2015, 3, 0), None);
    assert_eq!(Date::from_ymd_opt(2015, 2, 29), None);
    assert_eq!(Date::from_ymd_opt(2023, 4, 31), None);
    assert_eq!(Date::from_ymd_opt(2023, 1, 32), None);
    assert!(Date::from_ymd_opt(2024, 2, 29).is_some());
    assert!(Date::from_ymd_opt(2000, 2, 29).is_some());
    assert_eq!(Date::from_ymd_opt(1900, 2, 29), None);
    assert_eq!(Date::from_ymd_opt(2100, 2, 29), None);
    assert!(Date::from_ymd_opt(-4, 2, 29).is_some());
    assert!(Date::from_ymd_opt(0, 2, 29).is_some());
}

#[test]
fn dates_exist_within_the_supported_years_only() {
    assert_eq!(MIN_YEAR, -262143);
    assert_eq!(MAX_YEAR, 262142);
    assert!(Date::from_ymd_opt(MAX_YEAR, 12, 31).is_some());
    assert!(Date::from_ymd_opt(MIN_YEAR, 1, 1).is_some());
    assert_eq!(Date::from_ymd_opt(MAX_YEAR + 1, 1, 1), None);
    assert_eq!(Date::from_ymd_opt(MIN_YEAR - 1, 12, 31), None);
    assert_eq!(Date::from_ymd_opt(400000, 1, 1), None);
    assert_eq!(Date::from_ymd_opt(-400000, 1, 1), None);
    assert_eq!(Date::from_ymd_opt(i32::MAX, 1, 1), None);
    assert_eq!(Date::from_ymd_opt(i32::MIN, 1, 1), None);
    assert_eq!(NaiveDate::MAX.year(), MAX_YEAR);
    assert_eq!(NaiveDate::MIN.year(), MIN_YEAR);
}

#[test]
fn existence_agrees_with_the_rule_of_month_lengths() {
    for year in [-262143, -401, -400, -100, -4, -1, 0, 1, 4, 100, 400, 1900, 2000, 2023, 2024, 262142] {
        for month in 0..=14u8 {
            for day in 0..=33u8 {
                let expected = (1..=12).contains(&month)
                    && day >= 1
                    && (day as i64) <= days_in_month(year as i64, month as i64);
                assert_eq!(
                    Date::from_ymd_opt(year, month, day).is_some(),
                    expected,
                    "{}-{}-{}",
                    year,
                    month,
                    day
                );
            }
        }
    }
}

#[test]
fn position_within_the_year() {
    assert_eq!(Date { year: 2015, month: 9, day: 8 }.ordinal0(), 250);
    assert_eq!(Date { year: -308, month: 3, day: 14 }.ordinal0(), 73);
    assert_eq!(Date { year: 2023, month: 1, day: 1 }.ordinal0(), 0);
    assert_eq!(Date { year: 2023, month: 12, day: 31 }.ordinal0(), 364);
    assert_eq!(Date { year: 2024, month: 12, day: 31 }.ordinal0(), 365);
    assert_eq!(Date { year: 2024, month: 3, day: 1 }.ordinal0(), 60);
    assert_eq!(Date { year: 2023, month: 3, day: 1 }.ordinal0(), 59);
}

#[test]
fn position_within_the_year_counts_the_days_before() {
    for year in [-262143i64, -400, -1, 0, 1, 1900, 2000, 2023, 2024, 262142] {
        let mut before = 0i64;
        for month in 1..=12i64 {
            for day in 1..=days_in_month(year, month) {
                let date = Date { year: year as i32, month: month as u8, day: day as u8 };
                assert_eq!(date.ordinal0() as i64, before);
                before += 1;
            }
        }
    }
}

#[test]
fn adding_days_on_known_dates() {
    let day = Date { year: 2023, month: 3, day: 31 };
    assert_eq!(day.checked_add_days(1), Some(Date { year: 2023, month: 4, day: 1 }));
    assert_eq!(day.checked_add_days(0), Some(day));
    assert_eq!(day.checked_add_days(-31), Some(Date { year: 2023, month: 2, day: 28 }));
    assert_eq!(day.checked_add_days(366), Some(Date { year: 2024, month: 3, day: 31 }));
    let eve = Date { year: 9999, month: 12, day: 31 };
    assert_eq!(eve.checked_add_days(1), Some(Date { year: 10000, month: 1, day: 1 }));
    let leap_day = Date { year: 2024, month: 2, day: 28 };
    assert_eq!(leap_day.checked_add_days(1), Some(Date { year: 2024, month: 2, day: 29 }));
    assert_eq!(leap_day.checked_add_days(2), Some(Date { year: 2024, month: 3, day: 1 }));
    let first = Date { year: 1, month: 1, day: 1 };
    assert_eq!(first.checked_add_days(-1), Some(Date { year: 0, month: 12, day: 31 }));
}

#[test]
fn adding_days_stops_at_the_ends_of_the_calendar() {
    let last = Date { year: MAX_YEAR, month: 12, day: 31 };
    let first = Date { year: MIN_YEAR, month: 1, day: 1 };
    assert_eq!(last.checked_add_days(1), None);
    assert_eq!(last.checked_add_days(0), Some(last));
    assert_eq!(last.checked_add_days(-1), Some(Date { year: MAX_YEAR, month: 12, day: 30 }));
    assert_eq!(first.checked_add_days(-1), None);
    assert_eq!(first.checked_add_days(1), Some(Date { year: MIN_YEAR, month: 1, day: 2 }));
    let span = day_number(MAX_YEAR as i64, 12, 31) - day_number(MIN_YEAR as i64, 1, 1);
    assert_eq!(first.checked_add_days(span), Some(last));
    assert_eq!(first.checked_add_days(span + 1), None);
    assert_eq!(last.checked_add_days(-span), Some(first));
    assert_eq!(last.checked_add_days(-span - 1), None);
    let day = Date { year: 2023, month: 3, day: 10 };
    for far in [i64::MAX, i64::MIN, i64::MAX / 86400, i64::MIN / 86400, 1 << 31, -(1 << 31), 1 << 40] {
        assert_eq!(day.checked_add_days(far), None);
    }
}

#[test]
fn adding_days_moves_along_the_line_of_days() {
    let mut state: u64 = 0x9e37_79b9_7f4a_7c15;
    for _ in 0..20_000 {
        let year = (next_input(&mut state) % 524286) as i64 + MIN_YEAR as i64;
        let month = (next_input(&mut state) % 12) as i64 + 1;
        let day = (next_input(&mut state) % days_in_month(year, month) as u64) as i64 + 1;
        let wide = next_input(&mut state) % 3 == 0;
        let mut days = next_input(&mut state) as i64 % if wide { 400_000_000 } else { 5000 };
        if next_input(&mut state) % 2 == 0 {
            days = -days;
        }
        let from = Date { year: year as i32, month: month as u8, day: day as u8 };
        let target = day_number(year, month, day) + days;
        let inside = day_number(MIN_YEAR as i64, 1, 1) <= target
            && target <= day_number(MAX_YEAR as i64, 12, 31);
        match from.checked_add_days(days) {
            Some(to) => {
                assert!(inside);
                assert!(Date::from_ymd_opt(to.year, to.month, to.day).is_some());
                assert_eq!(day_number(to.year as i64, to.month as i64, to.day as i64), target);
            }
            None => assert!(!inside),
        }
    }
}

#[test]
fn day_numbers_agree_with_the_days_counted_from_year_one() {
    let mut state: u64 = 0x1234_5678_9abc_def0;
    for _ in 0..20_000 {
        let year = (next_input(&mut state) % 524286) as i64 + MIN_YEAR as i64;
        let month = (next_input(&mut state) % 12) as i64 + 1;
        let day = (next_input(&mut state) % days_in_month(year, month) as u64) as i64 + 1;
        let date = NaiveDate::from_ymd_opt(year as i32, month as u32, day as u32).unwrap();
        assert_eq!(date.num_days_from_ce() as i64, day_number(year, month, day));
        let other = NaiveDate::from_ymd_opt(2000, 1, 1).unwrap();
        assert_eq!(
            (date - other).num_days(),
            day_number(year, month, day) - day_number(2000, 1, 1)
        );
        assert_eq!(TimeDelta::try_days(1).map(|d| d.num_days()), Some(1));
    }
}

#[test]
fn dates_compare_by_their_fields() {
    let a = Date { year: 2023, month: 4, day: 2 };
    let b = a;
    assert_eq!(a, b);
    assert_ne!(a, Date { year: 2023, month: 4, day: 3 });
    assert_eq!(format!("{:?}", a), "Date { year: 2023, month: 4, day: 2 }");
}
