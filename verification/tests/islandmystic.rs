use chrono::{Datelike, NaiveDate};
use itertools::Itertools;
use rust_neotools::calendar::Date;
use rust_neotools::islandmystic::{seed_check, seed_from_codes, IslandMystic};

const ALPHABET: &str = "abcdefghijklmnopqrstuvwxyz_0123456789";

#[test]
fn test_mystic_english_wrong() {
    let valid = IslandMystic::check_rust("diceroll123", 2023, 3, 10);
    assert!(!valid);
}

#[test]
fn test_mystic_non_english() {
    let valid = IslandMystic::check_rust("diceroll123", 2030, 6, 21);
    assert!(!valid);
}

#[test]
fn test_mystic_non_english_wrong() {
    let valid = IslandMystic::check_rust("diceroll123", 2023, 3, 10);
    assert!(!valid);
}

#[test]
fn test_mystic_out_of_bounds_brute_force_user() {
    // "Out of bounds" because many hosts stop at year 9999; the calendar here does not.
    let date = IslandMystic::brute_force_user_rust("diceroll123", 9999, 10, 31, 1, false);
    assert!(date == Date::from_ymd_opt(10001, 1, 6));
    let found = date.unwrap();
    assert_eq!(
        NaiveDate::from_ymd_opt(found.year, found.month as u32, found.day as u32),
        NaiveDate::from_ymd_opt(10001, 1, 6)
    );
}

#[test]
fn primary_locale_on_known_dates() {
    assert!(IslandMystic::check_rust("diceroll123", 2023, 4, 21));
    assert!(IslandMystic::check_rust("yee", 2023, 7, 23));
    assert!(!IslandMystic::check_rust("diceroll123", 2022, 10, 30));
    assert!(!IslandMystic::check_rust("yee", 2023, 5, 29));
    assert!(!IslandMystic::check_rust("diceroll123", 2023, 4, 2));
}

#[test]
fn walk_forward_day_by_day() {
    let date = IslandMystic::brute_force_user_rust("diceroll123", 2023, 3, 31, 1, true);
    assert!(date == Date::from_ymd_opt(2023, 4, 21));
    assert_eq!(date, Some(Date { year: 2023, month: 4, day: 21 }));
    assert_eq!(
        IslandMystic::brute_force_user_rust("yee", 2023, 5, 29, 1, true),
        Some(Date { year: 2023, month: 7, day: 23 })
    );
}

#[test]
fn test_mystic_brute_force_user_non_english() {
    let usernames = IslandMystic::brute_force_day_rust(2023, 1, 3, true);
    assert!(usernames.len() > 0);
}

#[test]
fn secondary_locale_on_known_dates() {
    assert!(!IslandMystic::check_non_english_rust("diceroll123", 2023, 3, 10));
    assert!(IslandMystic::check_non_english_rust("diceroll123", 2030, 6, 21));
}

#[test]
fn checks_on_a_date_value_agree_with_checks_on_fields() {
    let day = Date { year: 2023, month: 4, day: 21 };
    assert!(IslandMystic::check(&day, "diceroll123"));
    assert_eq!(
        IslandMystic::check_non_english(&day, "diceroll123"),
        IslandMystic::check_non_english_rust("diceroll123", 2023, 4, 21)
    );
    let other = Date { year: 2030, month: 6, day: 21 };
    assert!(!IslandMystic::check(&other, "diceroll123"));
    assert!(IslandMystic::check_non_english(&other, "diceroll123"));
}

#[test]
fn seed_is_the_weighted_sum() {
    // 20221030 + 287234 * 'd' + 71 * 'i' + 97 * 'c' + 1045 * 'e'
    assert_eq!(IslandMystic::seed("diceroll123", 2022, 10, 30), 49067033);
    assert_eq!(
        IslandMystic::seed("diceroll123", 2022, 10, 30),
        20221030 + 287234 * 100 + 71 * 105 + 97 * 99 + 1045 * 101
    );
    assert_eq!(IslandMystic::seed("yee", 2023, 5, 29), 55002811);
    assert_eq!(seed_from_codes(100, 105, 99, 101, 2022, 10, 30), 49067033);
}

#[test]
fn seed_pads_short_names_with_zeros() {
    assert_eq!(IslandMystic::seed("", 2023, 1, 3), 20230103);
    assert_eq!(IslandMystic::seed("ab", 2023, 1, 3), 48098759);
    assert_eq!(
        IslandMystic::seed("ab", 2023, 1, 3),
        seed_from_codes(97, 98, 0, 0, 2023, 1, 3)
    );
    assert_eq!(
        IslandMystic::seed("abc", 2023, 1, 3),
        IslandMystic::seed("abc\0", 2023, 1, 3)
    );
}

#[test]
fn seed_reads_only_the_first_four_code_points() {
    assert_eq!(
        IslandMystic::seed("diceroll123", 2022, 10, 30),
        IslandMystic::seed("dice", 2022, 10, 30)
    );
    assert_eq!(
        IslandMystic::seed("dice_and_more", 2022, 10, 30),
        IslandMystic::seed("dice", 2022, 10, 30)
    );
}

#[test]
fn seed_counts_code_points_not_bytes() {
    assert_eq!(IslandMystic::seed("é日本𝄞", 2023, 1, 3), 215997774);
    assert_eq!(
        IslandMystic::seed("é日本𝄞", 2023, 1, 3),
        seed_from_codes(0xe9, 0x65e5, 0x672c, 0x1d11e, 2023, 1, 3)
    );
}

#[test]
fn seed_wraps_around_modulo_two_to_the_32() {
    let largest = "\u{10FFFF}\u{10FFFF}\u{10FFFF}\u{10FFFF}";
    assert_eq!(IslandMystic::seed(largest, 9999, 12, 31), 3634386944);
    assert_eq!(IslandMystic::seed("zzzz", 262142, 12, 31), 2656611765);
    assert_eq!(IslandMystic::seed("abcd", -5, 3, 1), 27933060);
    assert_eq!(
        seed_from_codes(u32::MAX, u32::MAX, u32::MAX, u32::MAX, i32::MIN, 255, 255),
        (i32::MIN as u32)
            .wrapping_mul(10000)
            .wrapping_add(25500)
            .wrapping_add(255)
            .wrapping_add(287234u32.wrapping_mul(u32::MAX))
            .wrapping_add(71u32.wrapping_mul(u32::MAX))
            .wrapping_add(97u32.wrapping_mul(u32::MAX))
            .wrapping_add(1045u32.wrapping_mul(u32::MAX))
    );
}

#[test]
fn seed_check_agrees_with_the_checks_on_names() {
    let seed = IslandMystic::seed("diceroll123", 2023, 4, 21);
    assert!(seed_check(seed, true));
    let seed = IslandMystic::seed("diceroll123", 2022, 10, 30);
    assert!(!seed_check(seed, true));
    let seed = IslandMystic::seed("diceroll123", 2030, 6, 21);
    assert!(!seed_check(seed, true));
    assert!(seed_check(seed, false));
}

/// The primary decision written out on the draws of a generator.
fn primary_by_draws(seed: u32) -> bool {
    let mut rng = rust_neotools::php5random::Php5Random::new(seed);
    let d: Vec<u32> = (0..8).map(|_| rng.rand()).collect();
    match d[0] % 3 {
        2 => d[1] % 2 == 1 && d[6] % 23 > 1 && d[6] % 23 < 5 && d[7] % 20 == 11,
        0 => d[7] % 20 == 11,
        _ => false,
    }
}

#[test]
fn primary_locale_reads_the_documented_draws() {
    // Wins on each of the two branches must occur among the seeds tried.
    let mut wins = [0usize; 3];
    for seed in 0..20_000u32 {
        let seed = seed.wrapping_mul(2654435761);
        let won = seed_check(seed, true);
        assert_eq!(won, primary_by_draws(seed));
        let first = rust_neotools::php5random::Php5Random::new(seed).rand() % 3;
        if won {
            wins[first as usize] += 1;
        }
    }
    assert!(wins[0] > 0);
    assert_eq!(wins[1], 0);
    assert!(wins[2] > 0);
}

#[test]
fn secondary_locale_reads_the_first_draw() {
    let mut wins = 0;
    for seed in 0..20_000u32 {
        let mut rng = rust_neotools::php5random::Php5Random::new(seed);
        let expected = rng.rand() % 920 == 0;
        assert_eq!(seed_check(seed, false), expected);
        if expected {
            wins += 1;
        }
    }
    assert!(wins > 0);
}

#[test]
fn new_rng_is_seeded_from_name_and_date() {
    let mut a = IslandMystic::new_rng("diceroll123", 2022, 10, 30);
    assert_eq!(IslandMystic::seed("diceroll123", 2022, 10, 30), 49067033);
    let mut b = rust_neotools::php5random::Php5Random::new(49067033);
    for _ in 0..20 {
        assert_eq!(a.rand(), b.rand());
    }
}

#[test]
fn walk_with_step_zero_finds_nothing() {
    // Even on a date on which the name wins.
    assert!(IslandMystic::check_rust("diceroll123", 2023, 4, 21));
    assert_eq!(
        IslandMystic::brute_force_user_rust("diceroll123", 2023, 4, 21, 0, true),
        None
    );
    let day = Date { year: 2023, month: 4, day: 21 };
    assert_eq!(IslandMystic::brute_force_user(&day, "diceroll123", 0, true), None);
}

#[test]
fn walk_from_a_day_that_does_not_exist_finds_nothing() {
    assert_eq!(
        IslandMystic::brute_force_user_rust("diceroll123", 2023, 2, 30, 1, true),
        None
    );
    assert_eq!(
        IslandMystic::brute_force_user_rust("diceroll123", 2023, 13, 1, 1, true),
        None
    );
    assert_eq!(
        IslandMystic::brute_force_user_rust("diceroll123", 2023, 0, 0, -1, false),
        None
    );
    assert_eq!(
        IslandMystic::brute_force_user_rust("diceroll123", 300000, 1, 1, -1, false),
        None
    );
}

#[test]
fn walk_returns_the_start_where_the_name_wins_there() {
    assert_eq!(
        IslandMystic::brute_force_user_rust("diceroll123", 2023, 4, 21, 1, true),
        Some(Date { year: 2023, month: 4, day: 21 })
    );
    assert_eq!(
        IslandMystic::brute_force_user_rust("diceroll123", 2023, 4, 21, i64::MIN, true),
        Some(Date { year: 2023, month: 4, day: 21 })
    );
}

#[test]
fn walk_backwards_and_in_larger_steps() {
    assert_eq!(
        IslandMystic::brute_force_user_rust("diceroll123", 2023, 4, 25, -1, true),
        Some(Date { year: 2023, month: 4, day: 21 })
    );
    assert_eq!(
        IslandMystic::brute_force_user_rust("diceroll123", 2023, 1, 1, 7, true),
        Some(Date { year: 2023, month: 8, day: 6 })
    );
    assert_eq!(
        IslandMystic::brute_force_user_rust("diceroll123", 2022, 10, 30, 1, true),
        Some(Date { year: 2023, month: 3, day: 4 })
    );
    assert_eq!(
        IslandMystic::brute_force_user_rust("diceroll123", 2030, 6, 1, 1, false),
        Some(Date { year: 2030, month: 6, day: 21 })
    );
    assert_eq!(
        IslandMystic::brute_force_user_rust("diceroll123", 2030, 6, 30, -1, false),
        Some(Date { year: 2030, month: 6, day: 21 })
    );
}

#[test]
fn walk_finds_the_first_win_and_no_earlier_stop_wins() {
    let start = NaiveDate::from_ymd_opt(2000, 1, 1).unwrap();
    for (name, step, english) in [("yee", 3i64, true), ("abc", -5, true), ("neopet", 1, false)] {
        let found = IslandMystic::brute_force_user_rust(name, 2000, 1, 1, step, english).unwrap();
        let end = NaiveDate::from_ymd_opt(found.year, found.month as u32, found.day as u32).unwrap();
        let days = (end - start).num_days();
        assert_eq!(days % step, 0);
        assert!(days / step >= 0);
        let mut day = start;
        while day != end {
            let won = if english {
                IslandMystic::check_rust(name, day.year(), day.month() as u8, day.day() as u8)
            } else {
                IslandMystic::check_non_english_rust(name, day.year(), day.month() as u8, day.day() as u8)
            };
            assert!(!won);
            day = day + chrono::TimeDelta::days(step);
        }
        let won = if english {
            IslandMystic::check_rust(name, found.year, found.month, found.day)
        } else {
            IslandMystic::check_non_english_rust(name, found.year, found.month, found.day)
        };
        assert!(won);
    }
}

#[test]
fn walk_that_leaves_the_calendar_finds_nothing() {
    for (year, month, day, step) in [
        (262142, 12, 30, 1i64),
        (262142, 12, 30, 2),
        (-262143, 1, 2, -1),
        (2023, 3, 10, i64::MAX),
        (2023, 3, 10, i64::MIN),
        (2023, 3, 10, 200_000_000),
        (2023, 3, 10, -200_000_000),
    ] {
        // What the walk must find: the first winning stop inside the calendar.
        let mut expected = None;
        let mut at = NaiveDate::from_ymd_opt(year, month, day);
        while let Some(stop) = at {
            if IslandMystic::check_non_english_rust(
                "diceroll123",
                stop.year(),
                stop.month() as u8,
                stop.day() as u8,
            ) {
                expected = Some(Date {
                    year: stop.year(),
                    month: stop.month() as u8,
                    day: stop.day() as u8,
                });
                break;
            }
            at = chrono::TimeDelta::try_days(step).and_then(|delta| stop.checked_add_signed(delta));
        }
        assert_eq!(
            IslandMystic::brute_force_user_rust("diceroll123", year, month as u8, day as u8, step, false),
            expected
        );
        assert_eq!(expected, None);
    }
}

#[test]
fn walk_twice_gives_the_same_date() {
    let a = IslandMystic::brute_force_user_rust("diceroll123", 2023, 3, 31, 1, true);
    let b = IslandMystic::brute_force_user_rust("diceroll123", 2023, 3, 31, 1, true);
    assert_eq!(a, b);
}

#[test]
fn search_of_names_is_sorted_without_repeats() {
    let names = IslandMystic::brute_force_day_rust(2023, 1, 3, true);
    for pair in names.windows(2) {
        assert!(pair[0] < pair[1], "{} before {}", pair[0], pair[1]);
    }
    let mut sorted = names.clone();
    sorted.sort_unstable();
    sorted.dedup();
    assert_eq!(names, sorted);
}

#[test]
fn search_of_names_returns_winners_of_three_or_four_symbols() {
    let names = IslandMystic::brute_force_day_rust(2023, 1, 3, true);
    for name in names.iter() {
        let len = name.chars().count();
        assert!(len == 3 || len == 4);
        assert!(name.chars().all(|c| ALPHABET.contains(c)));
        assert!(IslandMystic::check_rust(name, 2023, 1, 3));
    }
}

#[test]
fn search_of_names_misses_no_short_winner() {
    let names = IslandMystic::brute_force_day_rust(2023, 1, 3, true);
    let mut expected: Vec<String> = ALPHABET
        .chars()
        .cartesian_product(ALPHABET.chars())
        .cartesian_product(ALPHABET.chars())
        .map(|((c0, c1), c2)| [c0, c1, c2].iter().collect::<String>())
        .filter(|name| IslandMystic::check_rust(name, 2023, 1, 3))
        .collect();
    expected.sort_unstable();
    let short: Vec<String> = names.into_iter().filter(|name| name.len() == 3).collect();
    assert!(!expected.is_empty());
    assert_eq!(short, expected);
}

#[test]
fn search_of_names_misses_no_long_winner_with_a_given_start() {
    let names = IslandMystic::brute_force_day_rust(2023, 1, 3, false);
    for start in ["a", "_", "0", "z", "9"] {
        let mut expected: Vec<String> = ALPHABET
            .chars()
            .cartesian_product(ALPHABET.chars())
            .cartesian_product(ALPHABET.chars())
            .map(|((c1, c2), c3)| format!("{}{}{}{}", start, c1, c2, c3))
            .filter(|name| IslandMystic::check_non_english_rust(name, 2023, 1, 3))
            .collect();
        expected.sort_unstable();
        let long: Vec<String> = names
            .iter()
            .filter(|name| name.len() == 4 && name.starts_with(start))
            .cloned()
            .collect();
        assert_eq!(long, expected);
    }
}

#[test]
fn search_of_names_twice_gives_the_same_names() {
    let a = IslandMystic::brute_force_day_rust(2022, 10, 30, false);
    let b = IslandMystic::brute_force_day(&Date { year: 2022, month: 10, day: 30 }, false);
    assert_eq!(a, b);
}

#[test]
fn winners_with_a_first_symbol_are_a_run_of_the_whole_search() {
    let all = IslandMystic::brute_force_day_rust(2023, 1, 3, true);
    // Place 11 of the alphabet in code point order is 'a'.
    let with_a = rust_neotools::islandmystic::winners_with_first(11, 2023, 1, 3, true);
    let expected: Vec<String> = all.into_iter().filter(|name| name.starts_with('a')).collect();
    assert!(!expected.is_empty());
    assert_eq!(with_a, expected);
}
