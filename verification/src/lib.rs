//! A verified recurrence expansion engine for calendar events.
//!
//! Given one recurring-event definition (a base event plus a recurrence
//! rule) and a set of date-keyed exceptions, the engine produces the
//! concrete, ordered list of occurrences that fall inside a queried time
//! window. Calendar arithmetic (leap years, irregular month lengths,
//! weekday sets, termination conditions) and exception merging are
//! implemented and verified here; persistence and transport stay with the
//! caller.
#![verifier::loop_isolation(false)]

pub mod calendar;
pub mod errors;
pub mod expand;
pub mod generator;
pub mod laws;
pub mod merger;
pub mod models;
pub mod rfc3339;
pub mod rule;
pub mod timetext;
