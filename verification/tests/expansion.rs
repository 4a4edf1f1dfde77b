//! End-to-end expansion scenarios.

use recurrence_engine::errors::ExpansionError;
use recurrence_engine::expand::expand_recurring_events;
use recurrence_engine::models::{Event, EventException, RecurringRule};

fn event(start: &str, end: &str) -> Event {
    Event {
        id: Some(7),
        title: String::from("Standup"),
        description: Some(String::from("daily sync")),
        start_time: String::from(start),
        end_time: String::from(end),
        is_all_day: false,
        location: Some(String::from("Room 1")),
        priority: 2,
        category_id: Some(3),
        recurring_rule_id: Some(1),
        created_at: String::from("2024-01-01 00:00:00"),
        updated_at: String::from("2024-01-01 00:00:00"),
    }
}

fn rule(frequency: &str, interval: i32) -> RecurringRule {
    RecurringRule {
        id: Some(1),
        frequency: String::from(frequency),
        interval,
        days_of_week: None,
        day_of_month: None,
        month_of_year: None,
        end_date: None,
        end_occurrences: None,
        created_at: String::from("2024-01-01 00:00:00"),
    }
}

fn exception(date: &str) -> EventException {
    EventException {
        id: None,
        event_id: 7,
        original_date: String::from(date),
        is_cancelled: false,
        modified_title: None,
        modified_description: None,
        modified_start_time: None,
        modified_end_time: None,
        modified_location: None,
        created_at: String::from("2024-01-01 00:00:00"),
    }
}

#[test]
fn daily_exactness() {
    let ev = event("2024-01-15 09:00:00", "2024-01-15 10:00:00");
    let rr = rule("DAILY", 1);
    let out = expand_recurring_events(
        7,
        Some(&ev),
        Some(&rr),
        &Vec::new(),
        "2024-01-15T00:00:00Z",
        "2024-01-17T23:59:59Z",
    )
    .unwrap();
    assert_eq!(out.len(), 3);
    assert_eq!(out[0].start_time, "2024-01-15T09:00:00+00:00");
    assert_eq!(out[1].start_time, "2024-01-16T09:00:00+00:00");
    assert_eq!(out[2].start_time, "2024-01-17T09:00:00+00:00");
    assert_eq!(out[0].end_time, "2024-01-15T10:00:00+00:00");
    assert_eq!(out[2].end_time, "2024-01-17T10:00:00+00:00");
    assert_eq!(out[0].id, 7);
    assert_eq!(out[0].title, "Standup");
    assert_eq!(out[0].priority, 2);
    assert_eq!(out[0].category_id, Some(3));
}

#[test]
fn weekly_exactness() {
    let ev = event("2024-01-15 09:00:00", "2024-01-15 10:00:00");
    let mut rr = rule("WEEKLY", 1);
    rr.days_of_week = Some(String::from("1,3,5"));
    let out = expand_recurring_events(
        7,
        Some(&ev),
        Some(&rr),
        &Vec::new(),
        "2024-01-15T00:00:00Z",
        "2024-01-21T23:59:59Z",
    )
    .unwrap();
    assert_eq!(out.len(), 3);
    assert_eq!(out[0].start_time, "2024-01-15T09:00:00+00:00");
    assert_eq!(out[1].start_time, "2024-01-17T09:00:00+00:00");
    assert_eq!(out[2].start_time, "2024-01-19T09:00:00+00:00");
}

#[test]
fn weekly_interval_two_skips_odd_weeks() {
    let ev = event("2024-01-15 09:00:00", "2024-01-15 10:00:00");
    let mut rr = rule("WEEKLY", 2);
    rr.days_of_week = Some(String::from("1"));
    let out = expand_recurring_events(
        7,
        Some(&ev),
        Some(&rr),
        &Vec::new(),
        "2024-01-15T00:00:00Z",
        "2024-02-15T23:59:59Z",
    )
    .unwrap();
    let starts: Vec<&str> = out.iter().map(|o| o.start_time.as_str()).collect();
    assert_eq!(
        starts,
        vec![
            "2024-01-15T09:00:00+00:00",
            "2024-01-29T09:00:00+00:00",
            "2024-02-12T09:00:00+00:00",
        ]
    );
}

#[test]
fn occurrence_budget_is_anchor_relative() {
    // Two Mondays are granted from the anchor on; querying week three
    // onward must yield nothing, although week-three Mondays exist.
    let ev = event("2024-01-01 09:00:00", "2024-01-01 10:00:00");
    let mut rr = rule("WEEKLY", 1);
    rr.days_of_week = Some(String::from("1"));
    rr.end_occurrences = Some(2);
    let out = expand_recurring_events(
        7,
        Some(&ev),
        Some(&rr),
        &Vec::new(),
        "2024-01-15T00:00:00Z",
        "2024-02-15T23:59:59Z",
    )
    .unwrap();
    assert_eq!(out.len(), 0);
    let head = expand_recurring_events(
        7,
        Some(&ev),
        Some(&rr),
        &Vec::new(),
        "2024-01-01T00:00:00Z",
        "2024-02-15T23:59:59Z",
    )
    .unwrap();
    assert_eq!(head.len(), 2);
    assert_eq!(head[0].start_time, "2024-01-01T09:00:00+00:00");
    assert_eq!(head[1].start_time, "2024-01-08T09:00:00+00:00");
}

#[test]
fn cancellation_removes_exactly_one() {
    let ev = event("2024-01-15 09:00:00", "2024-01-15 10:00:00");
    let rr = rule("DAILY", 1);
    let mut x = exception("2024-01-16");
    x.is_cancelled = true;
    let with_exc = expand_recurring_events(
        7,
        Some(&ev),
        Some(&rr),
        &vec![x],
        "2024-01-15T00:00:00Z",
        "2024-01-17T23:59:59Z",
    )
    .unwrap();
    let without = expand_recurring_events(
        7,
        Some(&ev),
        Some(&rr),
        &Vec::new(),
        "2024-01-15T00:00:00Z",
        "2024-01-17T23:59:59Z",
    )
    .unwrap();
    assert_eq!(without.len(), 3);
    assert_eq!(with_exc.len(), 2);
    assert_eq!(with_exc[0].start_time, "2024-01-15T09:00:00+00:00");
    assert_eq!(with_exc[1].start_time, "2024-01-17T09:00:00+00:00");
}

#[test]
fn override_isolation_title() {
    let ev = event("2024-01-15 09:00:00", "2024-01-15 10:00:00");
    let rr = rule("DAILY", 1);
    let mut x = exception("2024-01-16");
    x.modified_title = Some(String::from("Rescheduled sync"));
    let out = expand_recurring_events(
        7,
        Some(&ev),
        Some(&rr),
        &vec![x],
        "2024-01-15T00:00:00Z",
        "2024-01-17T23:59:59Z",
    )
    .unwrap();
    assert_eq!(out.len(), 3);
    assert_eq!(out[0].title, "Standup");
    assert_eq!(out[1].title, "Rescheduled sync");
    assert_eq!(out[2].title, "Standup");
    // untouched fields of the overridden occurrence fall back to the base
    assert_eq!(out[1].location, Some(String::from("Room 1")));
    assert_eq!(out[1].start_time, "2024-01-16T09:00:00+00:00");
}

#[test]
fn modified_start_reorders_and_passes_verbatim() {
    let ev = event("2024-01-15 09:00:00", "2024-01-15 10:00:00");
    let rr = rule("DAILY", 1);
    let mut x = exception("2024-01-15");
    x.modified_start_time = Some(String::from("2024-01-20 09:00:00"));
    let out = expand_recurring_events(
        7,
        Some(&ev),
        Some(&rr),
        &vec![x],
        "2024-01-15T00:00:00Z",
        "2024-01-17T23:59:59Z",
    )
    .unwrap();
    assert_eq!(out.len(), 3);
    assert_eq!(out[0].start_time, "2024-01-16T09:00:00+00:00");
    assert_eq!(out[1].start_time, "2024-01-17T09:00:00+00:00");
    assert_eq!(out[2].start_time, "2024-01-20 09:00:00");
}

#[test]
fn unreadable_override_fields_fall_back() {
    let ev = event("2024-01-15 09:00:00", "2024-01-15 10:00:00");
    let rr = rule("DAILY", 1);
    let mut bad_key = exception("sometime next week");
    bad_key.is_cancelled = true;
    let mut bad_start = exception("2024-01-16");
    bad_start.modified_start_time = Some(String::from("whenever"));
    let out = expand_recurring_events(
        7,
        Some(&ev),
        Some(&rr),
        &vec![bad_key, bad_start],
        "2024-01-15T00:00:00Z",
        "2024-01-17T23:59:59Z",
    )
    .unwrap();
    // the unreadable date key is skipped, the unreadable start is ignored
    assert_eq!(out.len(), 3);
    assert_eq!(out[1].start_time, "2024-01-16T09:00:00+00:00");
}

#[test]
fn idempotence_byte_identical() {
    let ev = event("2024-01-15 09:00:00", "2024-01-15 10:30:00");
    let mut rr = rule("WEEKLY", 1);
    rr.days_of_week = Some(String::from("1,3,5"));
    let mut x = exception("2024-01-17");
    x.modified_title = Some(String::from("Moved"));
    let excs = vec![x];
    let a = expand_recurring_events(
        7,
        Some(&ev),
        Some(&rr),
        &excs,
        "2024-01-15T00:00:00Z",
        "2024-01-21T23:59:59Z",
    )
    .unwrap();
    let b = expand_recurring_events(
        7,
        Some(&ev),
        Some(&rr),
        &excs,
        "2024-01-15T00:00:00Z",
        "2024-01-21T23:59:59Z",
    )
    .unwrap();
    assert_eq!(a.len(), b.len());
    for (x, y) in a.iter().zip(b.iter()) {
        assert_eq!(x.id, y.id);
        assert_eq!(x.title, y.title);
        assert_eq!(x.description, y.description);
        assert_eq!(x.start_time, y.start_time);
        assert_eq!(x.end_time, y.end_time);
        assert_eq!(x.is_all_day, y.is_all_day);
        assert_eq!(x.location, y.location);
        assert_eq!(x.priority, y.priority);
        assert_eq!(x.category_id, y.category_id);
    }
}

#[test]
fn leap_year_clamps_to_feb_28() {
    let ev = event("2024-02-29 09:00:00", "2024-02-29 10:00:00");
    let mut rr = rule("YEARLY", 1);
    rr.day_of_month = Some(29);
    rr.month_of_year = Some(2);
    let out = expand_recurring_events(
        7,
        Some(&ev),
        Some(&rr),
        &Vec::new(),
        "2025-01-01T00:00:00Z",
        "2025-12-31T23:59:59Z",
    )
    .unwrap();
    assert_eq!(out.len(), 1);
    assert_eq!(out[0].start_time, "2025-02-28T09:00:00+00:00");
}

#[test]
fn monthly_clamps_to_month_end() {
    let ev = event("2024-01-31 10:00:00", "2024-01-31 11:00:00");
    let mut rr = rule("MONTHLY", 1);
    rr.day_of_month = Some(31);
    let out = expand_recurring_events(
        7,
        Some(&ev),
        Some(&rr),
        &Vec::new(),
        "2024-01-01T00:00:00Z",
        "2024-04-30T23:59:59Z",
    )
    .unwrap();
    let starts: Vec<&str> = out.iter().map(|o| o.start_time.as_str()).collect();
    assert_eq!(
        starts,
        vec![
            "2024-01-31T10:00:00+00:00",
            "2024-02-29T10:00:00+00:00",
            "2024-03-31T10:00:00+00:00",
            "2024-04-30T10:00:00+00:00",
        ]
    );
}

#[test]
fn monthly_candidate_before_anchor_is_skipped() {
    let ev = event("2024-01-15 09:00:00", "2024-01-15 10:00:00");
    let mut rr = rule("MONTHLY", 1);
    rr.day_of_month = Some(10);
    let out = expand_recurring_events(
        7,
        Some(&ev),
        Some(&rr),
        &Vec::new(),
        "2024-01-01T00:00:00Z",
        "2024-02-29T23:59:59Z",
    )
    .unwrap();
    assert_eq!(out.len(), 1);
    assert_eq!(out[0].start_time, "2024-02-10T09:00:00+00:00");
}

#[test]
fn end_date_cuts_the_series() {
    let ev = event("2024-01-15 09:00:00", "2024-01-15 10:00:00");
    let mut rr = rule("DAILY", 1);
    rr.end_date = Some(String::from("2024-01-16 23:59:59"));
    let out = expand_recurring_events(
        7,
        Some(&ev),
        Some(&rr),
        &Vec::new(),
        "2024-01-15T00:00:00Z",
        "2024-01-20T23:59:59Z",
    )
    .unwrap();
    assert_eq!(out.len(), 2);
    assert_eq!(out[1].start_time, "2024-01-16T09:00:00+00:00");
}

#[test]
fn range_error_never_an_empty_list() {
    let ev = event("2024-01-15 09:00:00", "2024-01-15 10:00:00");
    let rr = rule("DAILY", 1);
    let r = expand_recurring_events(
        7,
        Some(&ev),
        Some(&rr),
        &Vec::new(),
        "2024-01-17T00:00:00Z",
        "2024-01-15T00:00:00Z",
    );
    assert_eq!(r, Err(ExpansionError::Range));
    // the range check outranks the lookup checks
    let r2 = expand_recurring_events(
        7,
        None,
        None,
        &Vec::new(),
        "2024-01-17T00:00:00Z",
        "2024-01-15T00:00:00Z",
    );
    assert_eq!(r2, Err(ExpansionError::Range));
}

#[test]
fn missing_event_and_missing_rule() {
    let ev = event("2024-01-15 09:00:00", "2024-01-15 10:00:00");
    let r = expand_recurring_events(
        7,
        None,
        None,
        &Vec::new(),
        "2024-01-15T00:00:00Z",
        "2024-01-17T23:59:59Z",
    );
    assert_eq!(r, Err(ExpansionError::NotFound));
    let r2 = expand_recurring_events(
        7,
        Some(&ev),
        None,
        &Vec::new(),
        "2024-01-15T00:00:00Z",
        "2024-01-17T23:59:59Z",
    );
    assert_eq!(r2, Err(ExpansionError::NoRecurrenceRule));
}

#[test]
fn unreadable_timestamps_are_rejected() {
    let ev = event("2024-01-15 09:00:00", "2024-01-15 10:00:00");
    let rr = rule("DAILY", 1);
    let r = expand_recurring_events(
        7,
        Some(&ev),
        Some(&rr),
        &Vec::new(),
        "not a timestamp",
        "2024-01-17T23:59:59Z",
    );
    assert_eq!(r, Err(ExpansionError::InvalidTimestamp));
    let bad_event = event("once upon a time", "2024-01-15 10:00:00");
    let r2 = expand_recurring_events(
        7,
        Some(&bad_event),
        Some(&rr),
        &Vec::new(),
        "2024-01-15T00:00:00Z",
        "2024-01-17T23:59:59Z",
    );
    assert_eq!(r2, Err(ExpansionError::InvalidTimestamp));
}

#[test]
fn invalid_rules_are_rejected() {
    let ev = event("2024-01-15 09:00:00", "2024-01-15 10:00:00");
    let window = ("2024-01-15T00:00:00Z", "2024-01-17T23:59:59Z");
    let bad_interval = rule("DAILY", 0);
    let r = expand_recurring_events(7, Some(&ev), Some(&bad_interval), &Vec::new(), window.0, window.1);
    assert_eq!(r, Err(ExpansionError::Validation));
    let bad_freq = rule("INVALID", 1);
    let r2 = expand_recurring_events(7, Some(&ev), Some(&bad_freq), &Vec::new(), window.0, window.1);
    assert_eq!(r2, Err(ExpansionError::Validation));
    let mut bad_dom = rule("MONTHLY", 1);
    bad_dom.day_of_month = Some(32);
    let r3 = expand_recurring_events(7, Some(&ev), Some(&bad_dom), &Vec::new(), window.0, window.1);
    assert_eq!(r3, Err(ExpansionError::Validation));
    let bare_weekly = rule("WEEKLY", 1);
    let r4 = expand_recurring_events(7, Some(&ev), Some(&bare_weekly), &Vec::new(), window.0, window.1);
    assert_eq!(r4, Err(ExpansionError::Validation));
    let mut both_ends = rule("DAILY", 1);
    both_ends.end_date = Some(String::from("2024-06-01 00:00:00"));
    both_ends.end_occurrences = Some(5);
    let r5 = expand_recurring_events(7, Some(&ev), Some(&both_ends), &Vec::new(), window.0, window.1);
    assert_eq!(r5, Err(ExpansionError::Validation));
}

#[test]
fn iteration_cap_reports_overflow_guard() {
    let ev = event("0001-01-01 00:00:00", "0001-01-01 01:00:00");
    let rr = rule("DAILY", 1);
    let r = expand_recurring_events(
        7,
        Some(&ev),
        Some(&rr),
        &Vec::new(),
        "0001-01-01T00:00:00Z",
        "0400-01-01T00:00:00Z",
    );
    assert_eq!(r, Err(ExpansionError::OverflowGuard));
}

#[test]
fn empty_window_match_is_success() {
    let ev = event("2024-01-15 09:00:00", "2024-01-15 10:00:00");
    let mut rr = rule("DAILY", 1);
    rr.end_date = Some(String::from("2024-01-20 00:00:00"));
    let out = expand_recurring_events(
        7,
        Some(&ev),
        Some(&rr),
        &Vec::new(),
        "2024-06-01T00:00:00Z",
        "2024-06-30T23:59:59Z",
    )
    .unwrap();
    assert_eq!(out.len(), 0);
}

#[test]
fn daily_crosses_month_boundary() {
    let ev = event("2024-01-30 09:00:00", "2024-01-30 10:00:00");
    let rr = rule("DAILY", 1);
    let out = expand_recurring_events(
        7,
        Some(&ev),
        Some(&rr),
        &Vec::new(),
        "2024-01-30T00:00:00Z",
        "2024-02-05T23:59:59Z",
    )
    .unwrap();
    let starts: Vec<&str> = out.iter().map(|o| o.start_time.as_str()).collect();
    assert_eq!(
        starts,
        vec![
            "2024-01-30T09:00:00+00:00",
            "2024-01-31T09:00:00+00:00",
            "2024-02-01T09:00:00+00:00",
            "2024-02-02T09:00:00+00:00",
            "2024-02-03T09:00:00+00:00",
            "2024-02-04T09:00:00+00:00",
            "2024-02-05T09:00:00+00:00",
        ]
    );
}

#[test]
fn late_event_crossing_midnight_keeps_its_day() {
    let ev = event("2024-01-15 23:30:00", "2024-01-16 00:30:00");
    let rr = rule("DAILY", 1);
    let out = expand_recurring_events(
        7,
        Some(&ev),
        Some(&rr),
        &Vec::new(),
        "2024-01-15T00:00:00Z",
        "2024-01-17T23:59:59Z",
    )
    .unwrap();
    assert_eq!(out.len(), 3);
    assert_eq!(out[0].start_time, "2024-01-15T23:30:00+00:00");
    assert_eq!(out[0].end_time, "2024-01-16T00:30:00+00:00");
    assert_eq!(out[2].start_time, "2024-01-17T23:30:00+00:00");
    assert_eq!(out[2].end_time, "2024-01-18T00:30:00+00:00");
}

#[test]
fn large_and_minimum_intervals() {
    let ev = event("2024-01-15 09:00:00", "2024-01-15 10:00:00");
    let yearly_step = rule("DAILY", 365);
    let out = expand_recurring_events(
        7,
        Some(&ev),
        Some(&yearly_step),
        &Vec::new(),
        "2024-01-01T00:00:00Z",
        "2026-01-31T23:59:59Z",
    )
    .unwrap();
    let starts: Vec<&str> = out.iter().map(|o| o.start_time.as_str()).collect();
    assert_eq!(
        starts,
        vec![
            "2024-01-15T09:00:00+00:00",
            "2025-01-14T09:00:00+00:00",
            "2026-01-14T09:00:00+00:00",
        ]
    );
    let minimal = rule("DAILY", 1);
    let two = expand_recurring_events(
        7,
        Some(&ev),
        Some(&minimal),
        &Vec::new(),
        "2024-01-15T00:00:00Z",
        "2024-01-16T23:59:59Z",
    )
    .unwrap();
    assert_eq!(two.len(), 2);
}

#[test]
fn duration_is_carried_to_every_occurrence() {
    let ev = event("2024-01-15 09:00:00", "2024-01-15 10:30:00");
    let rr = rule("DAILY", 1);
    let out = expand_recurring_events(
        7,
        Some(&ev),
        Some(&rr),
        &Vec::new(),
        "2024-01-15T00:00:00Z",
        "2024-01-16T23:59:59Z",
    )
    .unwrap();
    assert_eq!(out[0].end_time, "2024-01-15T10:30:00+00:00");
    assert_eq!(out[1].end_time, "2024-01-16T10:30:00+00:00");
}
