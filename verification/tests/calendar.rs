//! Calendar arithmetic and timestamp text.

use recurrence_engine::calendar::{
    civil_from_day_index, day_index, days_in_month, leap_year, weekday,
};
use recurrence_engine::timetext::{parse_date_key, parse_instant, parse_storage};

#[test]
fn leap_year_rules() {
    assert!(leap_year(2024));
    assert!(!leap_year(2023));
    assert!(!leap_year(1900));
    assert!(leap_year(2000));
}

#[test]
fn month_lengths() {
    assert_eq!(days_in_month(2024, 2), 29);
    assert_eq!(days_in_month(2023, 2), 28);
    assert_eq!(days_in_month(2024, 4), 30);
    assert_eq!(days_in_month(2024, 12), 31);
}

#[test]
fn day_index_round_trips() {
    let samples = [
        (1, 1, 1),
        (1970, 1, 1),
        (2024, 2, 29),
        (2024, 12, 31),
        (9999, 12, 31),
    ];
    for &(y, m, d) in samples.iter() {
        let di = day_index(y, m, d);
        assert_eq!(civil_from_day_index(di), (y, m, d));
    }
    assert_eq!(day_index(1, 1, 1), 0);
    assert_eq!(day_index(9999, 12, 31), 3652058);
}

#[test]
fn weekday_codes() {
    // 2024-01-15 was a Monday, 2024-01-14 a Sunday.
    assert_eq!(weekday(day_index(2024, 1, 15)), 1);
    assert_eq!(weekday(day_index(2024, 1, 14)), 0);
    assert_eq!(weekday(day_index(2024, 1, 20)), 6);
}

#[test]
fn date_keys_are_strict() {
    assert!(parse_date_key("2024-01-16").is_some());
    assert_eq!(parse_date_key("2024-01-16"), Some(day_index(2024, 1, 16)));
    assert_eq!(parse_date_key("2024-02-30"), None);
    assert_eq!(parse_date_key("2024-13-01"), None);
    assert_eq!(parse_date_key("2024-1-16"), None);
    assert_eq!(parse_date_key("0000-01-01"), None);
    assert_eq!(parse_date_key("garbage"), None);
}

#[test]
fn storage_texts_denote_instants() {
    let t = parse_storage("2024-01-15 09:00:00").unwrap();
    assert_eq!(t, day_index(2024, 1, 15) * 86400 + 9 * 3600);
    assert_eq!(parse_storage("2024-01-15 24:00:00"), None);
    assert_eq!(parse_storage("2024-01-15T09:00:00"), None);
}

#[test]
fn both_grammars_agree_on_utc() {
    let a = parse_instant("2024-01-15 09:00:00").unwrap();
    let b = parse_instant("2024-01-15T09:00:00Z").unwrap();
    assert_eq!(a, b);
    // an offset shifts the instant
    let c = parse_instant("2024-01-15T09:00:00+01:00").unwrap();
    assert_eq!(c, a - 3600);
    assert_eq!(parse_instant("whenever"), None);
}
