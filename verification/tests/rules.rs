//! Rule validation and compilation.

use recurrence_engine::errors::ExpansionError;
use recurrence_engine::rule::{compile_rule, CompiledRule, EndCondition, Frequency};
use recurrence_engine::models::RecurringRule;

fn stored(frequency: &str, interval: i32) -> RecurringRule {
    RecurringRule {
        id: Some(1),
        frequency: String::from(frequency),
        interval,
        days_of_week: None,
        day_of_month: None,
        month_of_year: None,
        end_date: None,
        end_occurrences: None,
        created_at: String::from("2024-01-01 00:00:00"),
    }
}

#[test]
fn compiles_daily() {
    let c: CompiledRule = compile_rule(&stored("DAILY", 3)).unwrap();
    assert!(matches!(c.frequency, Frequency::Daily));
    assert_eq!(c.interval, 3);
    assert_eq!(c.days_of_week.len(), 0);
    assert!(matches!(c.end, EndCondition::Open));
}

#[test]
fn compiles_weekly_sorted_days() {
    let mut rr = stored("WEEKLY", 1);
    rr.days_of_week = Some(String::from("5,1,3,1"));
    let c = compile_rule(&rr).unwrap();
    assert!(matches!(c.frequency, Frequency::Weekly));
    assert_eq!(c.days_of_week, vec![1, 3, 5]);
}

#[test]
fn compiles_yearly_with_end_occurrences() {
    let mut rr = stored("YEARLY", 2);
    rr.day_of_month = Some(29);
    rr.month_of_year = Some(2);
    rr.end_occurrences = Some(10);
    let c = compile_rule(&rr).unwrap();
    assert!(matches!(c.frequency, Frequency::Yearly));
    assert_eq!(c.day_of_month, 29);
    assert_eq!(c.month_of_year, 2);
    assert!(matches!(c.end, EndCondition::EndOccurrences(10)));
}

#[test]
fn compiles_end_date_as_instant() {
    let mut rr = stored("DAILY", 1);
    rr.end_date = Some(String::from("2024-01-20 23:59:59"));
    let c = compile_rule(&rr).unwrap();
    assert!(matches!(c.end, EndCondition::EndDate(_)));
}

#[test]
fn rejects_unknown_frequency() {
    assert_eq!(compile_rule(&stored("SOMETIMES", 1)), Err(ExpansionError::Validation));
    assert_eq!(compile_rule(&stored("daily", 1)), Err(ExpansionError::Validation));
}

#[test]
fn rejects_non_positive_interval() {
    assert_eq!(compile_rule(&stored("DAILY", 0)), Err(ExpansionError::Validation));
    assert_eq!(compile_rule(&stored("DAILY", -4)), Err(ExpansionError::Validation));
}

#[test]
fn rejects_weekly_without_days() {
    assert_eq!(compile_rule(&stored("WEEKLY", 1)), Err(ExpansionError::Validation));
    let mut empty = stored("WEEKLY", 1);
    empty.days_of_week = Some(String::new());
    assert_eq!(compile_rule(&empty), Err(ExpansionError::Validation));
    let mut bad = stored("WEEKLY", 1);
    bad.days_of_week = Some(String::from("1,7"));
    assert_eq!(compile_rule(&bad), Err(ExpansionError::Validation));
    let mut text = stored("WEEKLY", 1);
    text.days_of_week = Some(String::from("mon,wed"));
    assert_eq!(compile_rule(&text), Err(ExpansionError::Validation));
}

#[test]
fn rejects_day_and_month_out_of_range() {
    let mut no_dom = stored("MONTHLY", 1);
    assert_eq!(compile_rule(&no_dom), Err(ExpansionError::Validation));
    no_dom.day_of_month = Some(0);
    assert_eq!(compile_rule(&no_dom), Err(ExpansionError::Validation));
    let mut bad_moy = stored("YEARLY", 1);
    bad_moy.day_of_month = Some(15);
    bad_moy.month_of_year = Some(13);
    assert_eq!(compile_rule(&bad_moy), Err(ExpansionError::Validation));
}

#[test]
fn rejects_conflicting_end_conditions() {
    let mut rr = stored("DAILY", 1);
    rr.end_date = Some(String::from("2024-06-01 00:00:00"));
    rr.end_occurrences = Some(3);
    assert_eq!(compile_rule(&rr), Err(ExpansionError::Validation));
    let mut zero = stored("DAILY", 1);
    zero.end_occurrences = Some(0);
    assert_eq!(compile_rule(&zero), Err(ExpansionError::Validation));
    let mut bad_date = stored("DAILY", 1);
    bad_date.end_date = Some(String::from("the end of days"));
    assert_eq!(compile_rule(&bad_date), Err(ExpansionError::Validation));
}
