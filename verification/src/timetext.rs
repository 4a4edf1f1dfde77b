//! The application's own timestamp texts, parsed and verified.
//!
//! Two grammars belong to this crate: the date key `YYYY-MM-DD` that
//! exceptions are keyed by, and the storage form `YYYY-MM-DD HH:MM:SS`,
//! read as UTC. Any other text is handed to the RFC 3339 reader
//! (`crate::rfc3339`) as a fallback.

use vstd::prelude::*;
use crate::calendar::{
    valid_ymd, day_index_of, MAX_DAY_INDEX, MAX_INSTANT, UNIX_EPOCH_OFFSET,
};
use crate::rfc3339::{rfc3339_instant, parse_rfc3339_epoch};

verus! {

/// An ASCII decimal digit.
pub open spec fn is_digit(c: char) -> bool {
    48 <= c as int <= 57
}

/// The value of an ASCII decimal digit.
pub open spec fn digit_of(c: char) -> int {
    c as int - 48
}

/// Whether `s` is shaped `YYYY-MM-DD` (digits and dashes in place).
pub open spec fn date_key_wf(s: Seq<char>) -> bool {
    &&& s.len() == 10
    &&& is_digit(s[0]) && is_digit(s[1]) && is_digit(s[2]) && is_digit(s[3])
    &&& s[4] == '-'
    &&& is_digit(s[5]) && is_digit(s[6])
    &&& s[7] == '-'
    &&& is_digit(s[8]) && is_digit(s[9])
}

/// The `(year, month, day)` a well-formed date key spells.
pub open spec fn date_key_ymd(s: Seq<char>) -> (int, int, int) {
    (
        digit_of(s[0]) * 1000 + digit_of(s[1]) * 100 + digit_of(s[2]) * 10 + digit_of(s[3]),
        digit_of(s[5]) * 10 + digit_of(s[6]),
        digit_of(s[8]) * 10 + digit_of(s[9]),
    )
}

/// The calendar date a date key denotes: `None` when the text is not
/// shaped `YYYY-MM-DD` or does not name a supported date.
pub open spec fn date_key_fields(s: Seq<char>) -> Option<(int, int, int)> {
    if date_key_wf(s) {
        let (y, m, d) = date_key_ymd(s);
        if valid_ymd(y, m, d) {
            Some((y, m, d))
        } else {
            None
        }
    } else {
        None
    }
}

/// The day index a date key denotes, when it denotes one.
pub open spec fn date_key_day(s: Seq<char>) -> Option<int> {
    match date_key_fields(s) {
        Some(f) => Some(day_index_of(f.0, f.1, f.2)),
        None => None,
    }
}

/// Whether `s` is shaped `YYYY-MM-DD HH:MM:SS`.
pub open spec fn storage_wf(s: Seq<char>) -> bool {
    &&& s.len() == 19
    &&& date_key_wf(s.subrange(0, 10))
    &&& s[10] == ' '
    &&& is_digit(s[11]) && is_digit(s[12])
    &&& s[13] == ':'
    &&& is_digit(s[14]) && is_digit(s[15])
    &&& s[16] == ':'
    &&& is_digit(s[17]) && is_digit(s[18])
}

/// The second-of-day a well-formed storage text spells.
pub open spec fn storage_tod(s: Seq<char>) -> int {
    (digit_of(s[11]) * 10 + digit_of(s[12])) * 3600 + (digit_of(s[14]) * 10 + digit_of(
        s[15],
    )) * 60 + digit_of(s[17]) * 10 + digit_of(s[18])
}

/// The instant (seconds from 0001-01-01T00:00:00 UTC) a storage text
/// denotes: `None` when the shape, the date or the time of day is off.
pub open spec fn storage_instant(s: Seq<char>) -> Option<int> {
    if storage_wf(s) {
        match date_key_day(s.subrange(0, 10)) {
            Some(di) => {
                let h = digit_of(s[11]) * 10 + digit_of(s[12]);
                let mi = digit_of(s[14]) * 10 + digit_of(s[15]);
                let se = digit_of(s[17]) * 10 + digit_of(s[18]);
                if h <= 23 && mi <= 59 && se <= 59 {
                    Some(di * 86400 + storage_tod(s))
                } else {
                    None
                }
            },
            None => None,
        }
    } else {
        None
    }
}

/// The instant a timestamp text denotes: the storage grammar where it
/// applies, else RFC 3339; `None` when neither reads it or the instant
/// lies outside years 1..=9999.
pub open spec fn instant_of_text(s: Seq<char>) -> Option<int> {
    if storage_instant(s) is Some {
        storage_instant(s)
    } else {
        match rfc3339_instant(s) {
            Some(e) => if 0 <= e + UNIX_EPOCH_OFFSET <= MAX_INSTANT {
                Some(e + UNIX_EPOCH_OFFSET)
            } else {
                None
            },
            None => None,
        }
    }
}

/// Reads the digit at position `i`, if it is one.
fn digit_at(s: &str, i: usize) -> (r: Option<i64>)
    requires
        i < s@.len(),
    ensures
        (r matches Some(v) ==> is_digit(s@[i as int]) && v == digit_of(s@[i as int])),
        (r is None ==> !is_digit(s@[i as int])),
{
    let c = s.get_char(i);
    let v = c as u32;
    if 48 <= v && v <= 57 {
        Some(((v - 48) as i64))
    } else {
        None
    }
}

/// True when the character at `i` is `c`.
fn char_at_is(s: &str, i: usize, c: char) -> (r: bool)
    requires
        i < s@.len(),
    ensures
        r == (s@[i as int] == c),
{
    s.get_char(i) == c
}

/// Reads a date key `YYYY-MM-DD` into its day index.
pub fn parse_date_key(s: &str) -> (r: Option<i64>)
    ensures
        (r matches Some(di) ==> date_key_day(s@) == Some(di as int) && 0 <= di
            <= MAX_DAY_INDEX),
        (r is None ==> date_key_day(s@) is None),
{
    match parse_date_key_fields(s) {
        Some((y, m, d)) => {
            proof {
                crate::calendar::lemma_day_index_bounds(y as int, m as int, d as int);
            }
            Some(crate::calendar::day_index(y, m, d))
        },
        None => None,
    }
}

/// Reads a date key `YYYY-MM-DD` into its `(year, month, day)`.
pub fn parse_date_key_fields(s: &str) -> (r: Option<(i64, i64, i64)>)
    ensures
        (r matches Some(f) ==> date_key_fields(s@) == Some(
            (f.0 as int, f.1 as int, f.2 as int),
        ) && valid_ymd(f.0 as int, f.1 as int, f.2 as int)),
        (r is None ==> date_key_fields(s@) is None),
{
    if s.unicode_len() != 10 {
        return None;
    }
    if !(char_at_is(s, 4, '-') && char_at_is(s, 7, '-')) {
        return None;
    }
    let (d0, d1, d2, d3) = match (digit_at(s, 0), digit_at(s, 1), digit_at(s, 2), digit_at(
        s,
        3,
    )) {
        (Some(a), Some(b), Some(c), Some(d)) => (a, b, c, d),
        _ => { return None },
    };
    let (m0, m1) = match (digit_at(s, 5), digit_at(s, 6)) {
        (Some(a), Some(b)) => (a, b),
        _ => { return None },
    };
    let (e0, e1) = match (digit_at(s, 8), digit_at(s, 9)) {
        (Some(a), Some(b)) => (a, b),
        _ => { return None },
    };
    let y = d0 * 1000 + d1 * 100 + d2 * 10 + d3;
    let m = m0 * 10 + m1;
    let d = e0 * 10 + e1;
    if y < 1 {
        return None;
    }
    if m < 1 || m > 12 {
        return None;
    }
    if d < 1 || d > crate::calendar::days_in_month(y, m) {
        return None;
    }
    Some((y, m, d))
}

/// Reads a storage text `YYYY-MM-DD HH:MM:SS` into its instant.
pub fn parse_storage(s: &str) -> (r: Option<i64>)
    ensures
        (r matches Some(t) ==> storage_instant(s@) == Some(t as int) && 0 <= t
            <= MAX_INSTANT),
        (r is None ==> storage_instant(s@) is None),
{
    if s.unicode_len() != 19 {
        return None;
    }
    if !(char_at_is(s, 10, ' ') && char_at_is(s, 13, ':') && char_at_is(s, 16, ':')) {
        return None;
    }
    let date_part = s.substring_char(0, 10);
    proof {
        assert(date_part@ == s@.subrange(0, 10));
    }
    let di = match parse_date_key(date_part) {
        Some(di) => di,
        None => { return None },
    };
    let (h0, h1) = match (digit_at(s, 11), digit_at(s, 12)) {
        (Some(a), Some(b)) => (a, b),
        _ => { return None },
    };
    let (i0, i1) = match (digit_at(s, 14), digit_at(s, 15)) {
        (Some(a), Some(b)) => (a, b),
        _ => { return None },
    };
    let (s0, s1) = match (digit_at(s, 17), digit_at(s, 18)) {
        (Some(a), Some(b)) => (a, b),
        _ => { return None },
    };
    let h = h0 * 10 + h1;
    let mi = i0 * 10 + i1;
    let se = s0 * 10 + s1;
    if h > 23 || mi > 59 || se > 59 {
        return None;
    }
    Some(di * 86400 + h * 3600 + mi * 60 + se)
}

/// Reads a timestamp text into its instant: the storage grammar first,
/// then RFC 3339. Rejects instants outside years 1..=9999.
pub fn parse_instant(s: &str) -> (r: Option<i64>)
    ensures
        (r matches Some(t) ==> instant_of_text(s@) == Some(t as int) && 0 <= t
            <= MAX_INSTANT),
        (r is None ==> instant_of_text(s@) is None),
{
    match parse_storage(s) {
        Some(t) => Some(t),
        None => {
            match parse_rfc3339_epoch(s) {
                Some(e) => {
                    if -UNIX_EPOCH_OFFSET <= e && e <= MAX_INSTANT - UNIX_EPOCH_OFFSET {
                        Some(e + UNIX_EPOCH_OFFSET)
                    } else {
                        None
                    }
                },
                None => None,
            }
        },
    }
}

} // verus!
