//! The expansion facade: one recurring event, one query window, one
//! ordered occurrence list or one typed error.
//!
//! The caller loads the event, its rule and its exceptions (that is
//! persistence's business) and hands the snapshot in; expansion itself is
//! a pure, deterministic function of that snapshot. Validation runs in a
//! fixed order: query timestamps, then the window, then the lookup
//! results, then the rule, then the event's own timestamps.

use vstd::prelude::*;
use crate::calendar::MAX_INSTANT;
use crate::errors::ExpansionError;
use crate::generator::{
    generate_candidates, generated_ok, stops_at, ITERATION_CAP,
};
use crate::merger::{merge_occurrences, merged_views, OccurrenceView};
use crate::models::{Event, EventException, EventResponse, RecurringRule};
use crate::rule::{compile_rule, compiled_from, rule_acceptable, CompiledRule};
use crate::timetext::{instant_of_text, parse_instant};

verus! {

/// Whether some stop index below the iteration cap exists: exactly when
/// the candidate scan ends on its own.
pub open spec fn scan_stops(c: CompiledRule, a: int, qs: int, qe: int) -> bool {
    exists|k: int| 0 <= k < ITERATION_CAP && stops_at(c, a, qs, qe, k)
}

/// The successful outcome: for some compiled form of the rule and some
/// candidate list the generator contract admits, `views` is the merged,
/// ordered occurrence list. (Both witnesses are unique up to the
/// contracts; `lemma_expansion_deterministic` turns that into equality.)
pub open spec fn expansion_result(
    rr: RecurringRule,
    ev: Event,
    event_id: int,
    dur: int,
    excs: Seq<EventException>,
    a: int,
    qs: int,
    qe: int,
    views: Seq<OccurrenceView>,
) -> bool {
    exists|c: CompiledRule, cands: Seq<i64>|
        #![trigger generated_ok(c, a, qs, qe, cands)]
        {
            &&& compiled_from(rr, c)
            &&& scan_stops(c, a, qs, qe)
            &&& generated_ok(c, a, qs, qe, cands)
            &&& cands.len() <= ITERATION_CAP
            &&& views =~= merged_views(ev, event_id, dur, excs, cands)
        }
}

/// The overflow outcome: the rule compiles, but no stop index below the
/// iteration cap exists for this window.
pub open spec fn expansion_overflows(rr: RecurringRule, a: int, qs: int, qe: int) -> bool {
    exists|c: CompiledRule|
        #![trigger compiled_from(rr, c)]
        compiled_from(rr, c) && !scan_stops(c, a, qs, qe)
}

/// The duration carried to every occurrence: the base event's span, or
/// zero where its end precedes its start.
pub open spec fn duration_of(a: int, aend: int) -> int {
    if aend >= a {
        aend - a
    } else {
        0
    }
}

/// Everything `expand_recurring_events` promises, as one predicate over
/// the inputs and the outcome (occurrences abstracted to their views).
///
/// Reading top to bottom gives the order in which failures are reported;
/// each error is returned exactly on the stated inputs.
pub open spec fn expansion_post(
    event_id: int,
    event: Option<Event>,
    rule: Option<RecurringRule>,
    excs: Seq<EventException>,
    start_text: Seq<char>,
    end_text: Seq<char>,
    r: Result<Seq<OccurrenceView>, ExpansionError>,
) -> bool {
    match (instant_of_text(start_text), instant_of_text(end_text)) {
        (None, _) => r == Result::<Seq<OccurrenceView>, ExpansionError>::Err(
            ExpansionError::InvalidTimestamp,
        ),
        (_, None) => r == Result::<Seq<OccurrenceView>, ExpansionError>::Err(
            ExpansionError::InvalidTimestamp,
        ),
        (Some(qs), Some(qe)) => if qs > qe {
            r == Result::<Seq<OccurrenceView>, ExpansionError>::Err(ExpansionError::Range)
        } else {
            match event {
                None => r == Result::<Seq<OccurrenceView>, ExpansionError>::Err(
                    ExpansionError::NotFound,
                ),
                Some(ev) => match rule {
                    None => r == Result::<Seq<OccurrenceView>, ExpansionError>::Err(
                        ExpansionError::NoRecurrenceRule,
                    ),
                    Some(rr) => if !rule_acceptable(rr) {
                        r == Result::<Seq<OccurrenceView>, ExpansionError>::Err(
                            ExpansionError::Validation,
                        )
                    } else {
                        match (instant_of_text(ev.start_time@), instant_of_text(
                            ev.end_time@,
                        )) {
                            (None, _) => r == Result::<Seq<OccurrenceView>, ExpansionError>::Err(
                                ExpansionError::InvalidTimestamp,
                            ),
                            (_, None) => r == Result::<Seq<OccurrenceView>, ExpansionError>::Err(
                                ExpansionError::InvalidTimestamp,
                            ),
                            (Some(a), Some(aend)) => match r {
                                Ok(views) => expansion_result(
                                    rr,
                                    ev,
                                    event_id,
                                    duration_of(a, aend),
                                    excs,
                                    a,
                                    qs,
                                    qe,
                                    views,
                                ),
                                Err(e) => e == ExpansionError::OverflowGuard
                                    && expansion_overflows(rr, a, qs, qe),
                            },
                        }
                    },
                },
            }
        },
    }
}

/// The views of a returned occurrence list.
pub open spec fn views_of(v: Seq<EventResponse>) -> Seq<OccurrenceView> {
    v.map_values(|o: EventResponse| o@)
}

/// The result with its occurrence list abstracted to views.
pub open spec fn result_views(r: Result<Vec<EventResponse>, ExpansionError>) -> Result<
    Seq<OccurrenceView>,
    ExpansionError,
> {
    match r {
        Ok(v) => Ok(views_of(v@)),
        Err(e) => Err(e),
    }
}

/// Expands one recurring event into the concrete occurrences that fall
/// inside `[start_date, end_date]`, with exceptions applied, ordered by
/// effective start instant (ties by candidate index).
///
/// The caller hands in what it loaded: the event (if the id resolved),
/// its rule (if one is attached) and the event's exception rows. The
/// query bounds, like every timestamp here, are read as storage-format
/// text (`YYYY-MM-DD HH:MM:SS`, as UTC) or RFC 3339 text, and must fall
/// in years 1..=9999. An empty result is success, not an error.
pub fn expand_recurring_events(
    event_id: i64,
    event: Option<&Event>,
    rule: Option<&RecurringRule>,
    exceptions: &Vec<EventException>,
    start_date: &str,
    end_date: &str,
) -> (r: Result<Vec<EventResponse>, ExpansionError>)
    ensures
        expansion_post(
            event_id as int,
            (match event {
                Some(e) => Some(*e),
                None => None,
            }),
            (match rule {
                Some(x) => Some(*x),
                None => None,
            }),
            exceptions@,
            start_date@,
            end_date@,
            result_views(r),
        ),
{
    let qs = match parse_instant(start_date) {
        Some(t) => t,
        None => {
            return Err(ExpansionError::InvalidTimestamp);
        },
    };
    let qe = match parse_instant(end_date) {
        Some(t) => t,
        None => {
            return Err(ExpansionError::InvalidTimestamp);
        },
    };
    if qs > qe {
        return Err(ExpansionError::Range);
    }
    let ev = match event {
        Some(e) => e,
        None => {
            return Err(ExpansionError::NotFound);
        },
    };
    let rr = match rule {
        Some(x) => x,
        None => {
            return Err(ExpansionError::NoRecurrenceRule);
        },
    };
    let compiled = match compile_rule(rr) {
        Ok(c) => c,
        Err(e) => {
            return Err(e);
        },
    };
    let anchor = match parse_instant(ev.start_time.as_str()) {
        Some(t) => t,
        None => {
            return Err(ExpansionError::InvalidTimestamp);
        },
    };
    let anchor_end = match parse_instant(ev.end_time.as_str()) {
        Some(t) => t,
        None => {
            return Err(ExpansionError::InvalidTimestamp);
        },
    };
    let duration = if anchor_end >= anchor {
        anchor_end - anchor
    } else {
        0
    };
    let candidates = match generate_candidates(&compiled, anchor, qs, qe) {
        Ok(v) => v,
        Err(e) => {
            proof {
                assert(compiled_from(*rr, compiled));
                assert(expansion_overflows(*rr, anchor as int, qs as int, qe as int));
            }
            return Err(e);
        },
    };
    let occurrences = merge_occurrences(ev, event_id, duration, exceptions, &candidates);
    proof {
        let a = anchor as int;
        let iqs = qs as int;
        let iqe = qe as int;
        let dur = duration as int;
        assert(generated_ok(compiled, a, iqs, iqe, candidates@));
        assert(views_of(occurrences@) =~= merged_views(
            *ev,
            event_id as int,
            dur,
            exceptions@,
            candidates@,
        ));
        assert(expansion_result(
            *rr,
            *ev,
            event_id as int,
            dur,
            exceptions@,
            a,
            iqs,
            iqe,
            views_of(occurrences@),
        ));
    }
    Ok(occurrences)
}

} // verus!
