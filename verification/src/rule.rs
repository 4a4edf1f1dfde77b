//! Recurrence rules: the checked form the engine runs on, and the
//! validation that builds it from a stored `RecurringRule`.
//!
//! A stored rule is loosely typed text (`"WEEKLY"`, `"1,3,5"`). Validation
//! happens once, at rule creation or update time; expansion then works on
//! the closed, checked `CompiledRule` and can no longer hit an "unknown
//! string" at runtime.

use vstd::prelude::*;
use crate::calendar::MAX_INSTANT;
use crate::errors::ExpansionError;
use crate::models::RecurringRule;
use crate::timetext::{is_digit, digit_of, instant_of_text, parse_instant};

verus! {

/// How often a rule repeats.
#[derive(Debug, Clone, Copy, PartialEq, Eq, Structural)]
pub enum Frequency {
    Daily,
    Weekly,
    Monthly,
    Yearly,
}

/// When a rule stops producing occurrences. A rule carries exactly one of
/// these; an end date and an occurrence count never coexist.
#[derive(Debug, Clone, Copy, PartialEq, Eq, Structural)]
pub enum EndCondition {
    /// Open-ended: only the queried window bounds the expansion.
    Open,
    /// No candidate after this instant (seconds from 0001-01-01 UTC).
    EndDate(i64),
    /// At most this many occurrences, counted from the anchor.
    EndOccurrences(i64),
}

/// A validated recurrence rule, normalized for expansion:
/// weekday codes sorted and deduplicated, unused fields pinned to 1.
#[derive(Debug, Clone, PartialEq)]
pub struct CompiledRule {
    pub frequency: Frequency,
    pub interval: i64,
    pub days_of_week: Vec<i64>,
    pub day_of_month: i64,
    pub month_of_year: i64,
    pub end: EndCondition,
}

impl CompiledRule {
    /// The invariant every compiled rule satisfies.
    pub open spec fn wf(self) -> bool {
        &&& 1 <= self.interval <= 0x7fffffff
        &&& match self.frequency {
            Frequency::Weekly => {
                &&& 1 <= self.days_of_week@.len() <= 7
                &&& forall|i: int|
                    0 <= i < self.days_of_week@.len() ==> 0 <= #[trigger] self.days_of_week@[i]
                        <= 6
                &&& forall|i: int, j: int|
                    0 <= i < j < self.days_of_week@.len() ==> self.days_of_week@[i]
                        < self.days_of_week@[j]
            },
            _ => self.days_of_week@.len() == 0,
        }
        &&& 1 <= self.day_of_month <= 31
        &&& 1 <= self.month_of_year <= 12
        &&& match self.end {
            EndCondition::Open => true,
            EndCondition::EndDate(ed) => 0 <= ed <= MAX_INSTANT,
            EndCondition::EndOccurrences(n) => 1 <= n <= 0x7fffffff,
        }
    }
}

/// The frequency a stored frequency text names, if any.
pub open spec fn frequency_of_text(s: Seq<char>) -> Option<Frequency> {
    if s == "DAILY"@ {
        Some(Frequency::Daily)
    } else if s == "WEEKLY"@ {
        Some(Frequency::Weekly)
    } else if s == "MONTHLY"@ {
        Some(Frequency::Monthly)
    } else if s == "YEARLY"@ {
        Some(Frequency::Yearly)
    } else {
        None
    }
}

/// Whether a weekday-set text is shaped like `1,3,5`: single digits
/// `0..=6` separated by single commas.
pub open spec fn dow_text_wf(s: Seq<char>) -> bool {
    &&& s.len() >= 1
    &&& s.len() % 2 == 1
    &&& forall|i: int|
        0 <= i < s.len() && i % 2 == 0 ==> is_digit(#[trigger] s[i]) && digit_of(s[i]) <= 6
    &&& forall|i: int| 0 <= i < s.len() && i % 2 == 1 ==> #[trigger] s[i] == ','
}

/// Whether weekday `w` occurs in a weekday-set text.
pub open spec fn dow_has(s: Seq<char>, w: int) -> bool {
    exists|i: int| 0 <= i < s.len() && i % 2 == 0 && digit_of(#[trigger] s[i]) == w
}

/// Whether `days` is the canonical (ascending, duplicate-free) list of the
/// weekdays a weekday-set text names.
pub open spec fn dow_days_canonical(s: Seq<char>, days: Seq<i64>) -> bool {
    &&& forall|i: int, j: int| 0 <= i < j < days.len() ==> days[i] < days[j]
    &&& forall|w: i64| #[trigger] days.contains(w) <==> (0 <= w <= 6 && dow_has(s, w as int))
}

/// Whether a stored rule is acceptable: this is exactly the check the
/// rule-authoring path performs before a rule may be saved.
pub open spec fn rule_acceptable(rule: RecurringRule) -> bool {
    &&& frequency_of_text(rule.frequency@) is Some
    &&& rule.interval >= 1
    &&& (frequency_of_text(rule.frequency@) == Some(Frequency::Weekly) ==> (match rule
        .days_of_week {
        Some(s) => dow_text_wf(s@),
        None => false,
    }))
    &&& ((frequency_of_text(rule.frequency@) == Some(Frequency::Monthly)
        || frequency_of_text(rule.frequency@) == Some(Frequency::Yearly)) ==> (match rule
        .day_of_month {
        Some(d) => 1 <= d <= 31,
        None => false,
    }))
    &&& (frequency_of_text(rule.frequency@) == Some(Frequency::Yearly) ==> (match rule
        .month_of_year {
        Some(m) => 1 <= m <= 12,
        None => false,
    }))
    &&& !(rule.end_date is Some && rule.end_occurrences is Some)
    &&& (match rule.end_date {
        Some(t) => instant_of_text(t@) is Some,
        None => true,
    })
    &&& (match rule.end_occurrences {
        Some(n) => n >= 1,
        None => true,
    })
}

/// Whether `c` is the compiled form of the stored rule.
pub open spec fn compiled_from(rule: RecurringRule, c: CompiledRule) -> bool {
    let freq = frequency_of_text(rule.frequency@)->Some_0;
    &&& c.wf()
    &&& Some(c.frequency) == frequency_of_text(rule.frequency@)
    &&& c.interval == rule.interval
    &&& (freq == Frequency::Weekly ==> dow_days_canonical(
        rule.days_of_week->Some_0@,
        c.days_of_week@,
    ))
    &&& ((freq == Frequency::Monthly || freq == Frequency::Yearly) ==> c.day_of_month
        == rule.day_of_month->Some_0)
    &&& (!(freq == Frequency::Monthly || freq == Frequency::Yearly) ==> c.day_of_month == 1)
    &&& (freq == Frequency::Yearly ==> c.month_of_year == rule.month_of_year->Some_0)
    &&& (freq != Frequency::Yearly ==> c.month_of_year == 1)
    &&& c.end == (match rule.end_date {
        Some(t) => EndCondition::EndDate(instant_of_text(t@)->Some_0 as i64),
        None => match rule.end_occurrences {
            Some(n) => EndCondition::EndOccurrences(n as i64),
            None => EndCondition::Open,
        },
    })
}

/// Compares two texts character by character.
pub fn text_is(s: &str, t: &str) -> (r: bool)
    ensures
        r == (s@ == t@),
{
    let n = s.unicode_len();
    if n != t.unicode_len() {
        proof {
            assert(s@ != t@);
        }
        return false;
    }
    let mut i: usize = 0;
    while i < n
        invariant
            0 <= i <= n,
            n == s@.len() == t@.len(),
            forall|j: int| 0 <= j < i ==> s@[j] == t@[j],
        decreases n - i,
    {
        if s.get_char(i) != t.get_char(i) {
            proof {
                assert(s@[i as int] != t@[i as int]);
            }
            return false;
        }
        i = i + 1;
    }
    proof {
        assert(s@ =~= t@);
    }
    true
}

/// True when weekday `w` occurs in the weekday-set text.
fn dow_text_has(s: &str, w: i64) -> (r: bool)
    requires
        0 <= w <= 6,
    ensures
        r == dow_has(s@, w as int),
{
    let n = s.unicode_len();
    let mut i: usize = 0;
    let mut found = false;
    while i < n
        invariant
            0 <= i <= n,
            n == s@.len(),
            found == exists|k: int|
                0 <= k < i && k % 2 == 0 && digit_of(#[trigger] s@[k]) == w,
        decreases n - i,
    {
        if i % 2 == 0 {
            let c = s.get_char(i);
            let v = c as u32;
            if 48 <= v && v <= 57 && (v - 48) as i64 == w {
                proof {
                    assert(digit_of(s@[i as int]) == w);
                }
                found = true;
            }
        }
        i = i + 1;
    }
    found
}

/// Checks the shape of a weekday-set text.
fn dow_text_check(s: &str) -> (r: bool)
    ensures
        r == dow_text_wf(s@),
{
    let n = s.unicode_len();
    if n < 1 || n % 2 == 0 {
        return false;
    }
    let mut i: usize = 0;
    while i < n
        invariant
            0 <= i <= n,
            n == s@.len(),
            n >= 1 && n % 2 == 1,
            forall|k: int|
                0 <= k < i && k % 2 == 0 ==> is_digit(#[trigger] s@[k]) && digit_of(s@[k])
                    <= 6,
            forall|k: int| 0 <= k < i && k % 2 == 1 ==> #[trigger] s@[k] == ',',
        decreases n - i,
    {
        let c = s.get_char(i);
        if i % 2 == 0 {
            let v = c as u32;
            if !(48 <= v && v <= 54) {
                proof {
                    assert(!(is_digit(s@[i as int]) && digit_of(s@[i as int]) <= 6));
                }
                return false;
            }
        } else {
            if c != ',' {
                return false;
            }
        }
        i = i + 1;
    }
    true
}

/// The canonical weekday list of a weekday-set text.
fn dow_collect(s: &str) -> (days: Vec<i64>)
    ensures
        dow_days_canonical(s@, days@),
        forall|i: int| 0 <= i < days@.len() ==> 0 <= #[trigger] days@[i] <= 6,
        forall|i: int, j: int| 0 <= i < j < days@.len() ==> days@[i] < days@[j],
        days@.len() <= 7,
{
    let mut days: Vec<i64> = Vec::new();
    let mut w: i64 = 0;
    while w < 7
        invariant
            0 <= w <= 7,
            days@.len() <= w,
            forall|i: int| 0 <= i < days@.len() ==> 0 <= #[trigger] days@[i] < w,
            forall|i: int, j: int| 0 <= i < j < days@.len() ==> days@[i] < days@[j],
            forall|x: i64| #[trigger] days@.contains(x) <==> (0 <= x < w && dow_has(
                s@,
                x as int,
            )),
        decreases 7 - w,
    {
        let ghost prev = days@;
        if dow_text_has(s, w) {
            days.push(w);
            proof {
                assert forall|x: i64|
                    #[trigger] days@.contains(x) <==> (0 <= x < w + 1 && dow_has(
                        s@,
                        x as int,
                    )) by {
                    if days@.contains(x) {
                        if x != w {
                            let k = choose|k: int| 0 <= k < days@.len() && days@[k] == x;
                            assert(prev[k] == x);
                            assert(prev.contains(x));
                        }
                    }
                    if 0 <= x < w + 1 && dow_has(s@, x as int) {
                        if x != w {
                            assert(prev.contains(x));
                            let k = choose|k: int| 0 <= k < prev.len() && prev[k] == x;
                            assert(days@[k] == x);
                            assert(days@.contains(x));
                        } else {
                            assert(days@.last() == x);
                            assert(days@.contains(x));
                        }
                    }
                }
            }
        } else {
            proof {
                assert forall|x: i64|
                    #[trigger] days@.contains(x) <==> (0 <= x < w + 1 && dow_has(
                        s@,
                        x as int,
                    )) by {}
            }
        }
        w = w + 1;
    }
    days
}

/// Validates a stored rule and builds the form expansion runs on.
///
/// Returns `Validation` exactly when the stored rule is not acceptable:
/// unknown frequency, interval below 1, missing or malformed weekday set
/// on a weekly rule, day of month outside 1..=31 on a monthly or yearly
/// rule, month outside 1..=12 on a yearly rule, an unreadable end date,
/// an occurrence count below 1, or both end conditions at once.
pub fn compile_rule(rule: &RecurringRule) -> (r: Result<CompiledRule, ExpansionError>)
    ensures
        r is Ok <==> rule_acceptable(*rule),
        (r matches Ok(c) ==> compiled_from(*rule, c)),
        (r matches Err(e) ==> e == ExpansionError::Validation),
{
    let frequency = if text_is(rule.frequency.as_str(), "DAILY") {
        Frequency::Daily
    } else if text_is(rule.frequency.as_str(), "WEEKLY") {
        Frequency::Weekly
    } else if text_is(rule.frequency.as_str(), "MONTHLY") {
        Frequency::Monthly
    } else if text_is(rule.frequency.as_str(), "YEARLY") {
        Frequency::Yearly
    } else {
        return Err(ExpansionError::Validation);
    };
    if rule.interval < 1 {
        return Err(ExpansionError::Validation);
    }
    let days_of_week: Vec<i64> = if matches!(frequency, Frequency::Weekly) {
        match &rule.days_of_week {
            Some(text) => {
                if !dow_text_check(text.as_str()) {
                    return Err(ExpansionError::Validation);
                }
                let days = dow_collect(text.as_str());
                proof {
                    let s = rule.days_of_week->Some_0@;
                    let w0 = digit_of(s[0]);
                    assert(dow_has(s, w0));
                    assert(days@.contains(w0 as i64));
                }
                days
            },
            None => {
                return Err(ExpansionError::Validation);
            },
        }
    } else {
        Vec::new()
    };
    let day_of_month: i64 = if matches!(frequency, Frequency::Monthly | Frequency::Yearly) {
        match rule.day_of_month {
            Some(d) => {
                if d < 1 || d > 31 {
                    return Err(ExpansionError::Validation);
                }
                d as i64
            },
            None => {
                return Err(ExpansionError::Validation);
            },
        }
    } else {
        1
    };
    let month_of_year: i64 = if matches!(frequency, Frequency::Yearly) {
        match rule.month_of_year {
            Some(m) => {
                if m < 1 || m > 12 {
                    return Err(ExpansionError::Validation);
                }
                m as i64
            },
            None => {
                return Err(ExpansionError::Validation);
            },
        }
    } else {
        1
    };
    if rule.end_date.is_some() && rule.end_occurrences.is_some() {
        return Err(ExpansionError::Validation);
    }
    let end = match &rule.end_date {
        Some(text) => {
            match parse_instant(text.as_str()) {
                Some(t) => EndCondition::EndDate(t),
                None => {
                    return Err(ExpansionError::Validation);
                },
            }
        },
        None => match rule.end_occurrences {
            Some(n) => {
                if n < 1 {
                    return Err(ExpansionError::Validation);
                }
                EndCondition::EndOccurrences(n as i64)
            },
            None => EndCondition::Open,
        },
    };
    Ok(
        CompiledRule {
            frequency,
            interval: rule.interval as i64,
            days_of_week,
            day_of_month,
            month_of_year,
            end,
        },
    )
}

} // verus!
