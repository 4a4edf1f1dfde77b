//! The failures an expansion can report.

use vstd::prelude::*;

verus! {

/// Everything that can go wrong while expanding a recurring event.
///
/// Expansion is deterministic, so none of these are ever retried; each is
/// returned to the caller as a typed result.
#[derive(Debug, Clone, Copy, PartialEq, Eq, Structural)]
pub enum ExpansionError {
    /// Malformed rule parameters: a non-positive interval, a day or month
    /// out of range, an unknown frequency, an empty weekday set on a weekly
    /// rule, an unreadable rule end date, or both end conditions at once.
    Validation,
    /// The referenced event does not exist.
    NotFound,
    /// The event exists but has no recurrence rule attached.
    NoRecurrenceRule,
    /// The query start lies after the query end.
    Range,
    /// A query or event timestamp could not be read as an instant
    /// (or lies outside years 1..=9999).
    InvalidTimestamp,
    /// The candidate iteration cap was reached before the window was
    /// exhausted; the expansion is abandoned rather than truncated.
    OverflowGuard,
}

} // verus!
