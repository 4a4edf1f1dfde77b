//! Plain data records of the calendar application.
//!
//! The engine reads `Event`, `RecurringRule` and `EventException` and
//! produces `EventResponse` values; the remaining records belong to the
//! surrounding application and carry no behaviour of their own. Timestamps
//! are carried as text, either in the storage form `YYYY-MM-DD HH:MM:SS`
//! (read as UTC) or as an RFC 3339 date-time.

use vstd::prelude::*;

verus! {

/// A category that events and tasks may belong to.
#[derive(Debug, Clone)]
pub struct Category {
    pub id: Option<i64>,
    pub name: String,
    pub color: String,
    pub symbol: String,
    pub created_at: String,
    pub updated_at: String,
}

/// A calendar event; `recurring_rule_id` links it to its recurrence rule.
#[derive(Debug, Clone)]
pub struct Event {
    pub id: Option<i64>,
    pub title: String,
    pub description: Option<String>,
    pub start_time: String,
    pub end_time: String,
    pub is_all_day: bool,
    pub location: Option<String>,
    pub priority: i32,
    pub category_id: Option<i64>,
    pub recurring_rule_id: Option<i64>,
    pub created_at: String,
    pub updated_at: String,
}

/// A to-do item.
#[derive(Debug, Clone)]
pub struct Task {
    pub id: Option<i64>,
    pub title: String,
    pub description: Option<String>,
    pub due_date: Option<String>,
    pub priority: i32,
    pub status: String,
    pub category_id: Option<i64>,
    pub recurring_rule_id: Option<i64>,
    pub kanban_column_id: Option<i64>,
    pub kanban_order: Option<i32>,
    pub completed_at: Option<String>,
    pub created_at: String,
    pub updated_at: String,
}

/// A recurrence rule as stored: loosely typed text and optional fields.
/// `compile_rule` turns it into the checked form the engine works on.
#[derive(Debug, Clone)]
pub struct RecurringRule {
    pub id: Option<i64>,
    pub frequency: String,
    pub interval: i32,
    pub days_of_week: Option<String>,
    pub day_of_month: Option<i32>,
    pub month_of_year: Option<i32>,
    pub end_date: Option<String>,
    pub end_occurrences: Option<i32>,
    pub created_at: String,
}

/// A per-occurrence override, keyed by the date (`YYYY-MM-DD`) of the
/// candidate occurrence it targets.
#[derive(Debug, Clone)]
pub struct EventException {
    pub id: Option<i64>,
    pub event_id: i64,
    pub original_date: String,
    pub is_cancelled: bool,
    pub modified_title: Option<String>,
    pub modified_description: Option<String>,
    pub modified_start_time: Option<String>,
    pub modified_end_time: Option<String>,
    pub modified_location: Option<String>,
    pub created_at: String,
}

/// One materialized occurrence of a recurring event, as returned to callers.
#[derive(Debug, Clone, PartialEq)]
pub struct EventResponse {
    pub id: i64,
    pub title: String,
    pub description: Option<String>,
    pub start_time: String,
    pub end_time: String,
    pub is_all_day: bool,
    pub location: Option<String>,
    pub priority: i32,
    pub category_id: Option<i64>,
}

/// A recurrence rule in the shape the surrounding application serves it.
#[derive(Debug, Clone)]
pub struct RecurringRuleResponse {
    pub id: i64,
    pub frequency: String,
    pub interval: i32,
    pub days_of_week: Option<String>,
    pub day_of_month: Option<i32>,
    pub month_of_year: Option<i32>,
    pub end_date: Option<String>,
    pub end_occurrences: Option<i32>,
}

/// A subscribed holiday calendar feed.
#[derive(Debug, Clone)]
pub struct HolidayFeed {
    pub id: Option<i64>,
    pub url: String,
    pub name: String,
    pub is_visible: bool,
    pub last_sync_time: Option<String>,
    pub sync_error: Option<String>,
    pub created_at: Option<String>,
    pub updated_at: Option<String>,
}

/// A kanban board column.
#[derive(Debug, Clone)]
pub struct KanbanColumn {
    pub id: Option<i64>,
    pub name: String,
    pub column_order: i32,
}

/// Links a note to the entity (event or task) it annotates.
#[derive(Debug, Clone)]
pub struct NoteLink {
    pub id: Option<i64>,
    pub note_id: i64,
    pub entity_type: String,
    pub entity_id: i64,
}

/// A person that can be attached to events.
#[derive(Debug, Clone)]
pub struct Participant {
    pub id: Option<i64>,
    pub name: String,
    pub email: Option<String>,
    pub avatar_location: Option<String>,
    pub created_at: Option<String>,
    pub updated_at: Option<String>,
}

/// A reminder attached to an event or task.
#[derive(Debug, Clone)]
pub struct Reminder {
    pub id: Option<i64>,
    pub item_type: String,
    pub item_id: i64,
    pub trigger_time: String,
    pub offset_description: String,
    pub is_dismissed: bool,
    pub created_at: Option<String>,
}

/// One hit of a cross-entity text search.
#[derive(Debug, Clone)]
pub struct SearchResult {
    pub id: i64,
    pub title: String,
    pub description: Option<String>,
    pub item_type: String,
    pub date: Option<String>,
    pub category_id: Option<i64>,
    pub priority: Option<i32>,
    pub status: Option<String>,
}

/// A task in the shape the surrounding application serves it.
#[derive(Debug, Clone)]
pub struct TaskResponse {
    pub id: i64,
    pub title: String,
    pub description: Option<String>,
    pub due_date: Option<String>,
    pub priority: i32,
    pub status: String,
    pub category_id: Option<i64>,
    pub recurring_rule_id: Option<i64>,
    pub kanban_column_id: Option<i64>,
    pub kanban_order: Option<i32>,
    pub completed_at: Option<String>,
}

/// One tracked span of work time.
#[derive(Debug, Clone)]
pub struct TimeEntry {
    pub id: Option<i64>,
    pub item_type: String,
    pub item_id: Option<i64>,
    pub start_time: String,
    pub end_time: Option<String>,
    pub duration_seconds: Option<i32>,
    pub timer_type: String,
    pub created_at: Option<String>,
}

} // verus!
