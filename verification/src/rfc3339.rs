//! RFC 3339 text, read and written through chrono.
//!
//! The RFC 3339 grammar (offsets, leap seconds, fractional seconds) is
//! chrono's business; this crate only needs the instant a text denotes and
//! the canonical text of an instant. Both are functions of their argument
//! alone, so each is given a name here and every contract above speaks
//! through that name.

use vstd::prelude::*;

verus! {

/// The instant (in non-leap seconds since 1970-01-01T00:00:00 UTC) that an
/// RFC 3339 date-time text denotes, or `None` when the text is not a valid
/// RFC 3339 date-time. Named, not defined: it stands for what
/// `chrono::DateTime::parse_from_rfc3339` accepts and returns.
pub uninterp spec fn rfc3339_instant(s: Seq<char>) -> Option<int>;

/// The RFC 3339 text of an instant, given in non-leap seconds since
/// 1970-01-01T00:00:00 UTC and rendered at offset +00:00. Named, not
/// defined: it stands for what `chrono::DateTime::to_rfc3339` prints.
pub uninterp spec fn rfc3339_text(epoch_secs: int) -> Seq<char>;

/// Relies on `chrono::DateTime::parse_from_rfc3339`, which accepts exactly
/// the RFC 3339 date-time grammar, and `chrono::DateTime::timestamp`, which
/// returns the parsed instant's non-leap seconds since the Unix epoch.
/// The outcome depends on the text alone.
#[verifier::external_body]
pub(crate) fn parse_rfc3339_epoch(s: &str) -> (r: Option<i64>)
    ensures
        (r matches Some(t) ==> rfc3339_instant(s@) == Some(t as int)),
        (r is None ==> rfc3339_instant(s@) is None),
{
    chrono::DateTime::parse_from_rfc3339(s).ok().map(|dt| dt.timestamp())
}

/// Relies on `chrono::DateTime::<Utc>::from_timestamp`, which is `Some` for
/// every count of seconds within roughly 262,000 years of the common era
/// and `None` beyond, and on `chrono::DateTime::to_rfc3339`. The text
/// depends on the instant alone.
#[verifier::external_body]
pub(crate) fn format_epoch_rfc3339(t: i64) -> (r: Option<String>)
    ensures
        (r matches Some(s) ==> s@ == rfc3339_text(t as int)),
        (-62135596800 <= t <= 4000000000000 ==> r is Some),
{
    chrono::DateTime::<chrono::Utc>::from_timestamp(t, 0).map(|dt| dt.to_rfc3339())
}

} // verus!
