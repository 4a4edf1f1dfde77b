//! The engine's laws: properties that hold of every expansion, proved
//! once and for all rather than sampled by tests.

use vstd::prelude::*;
use crate::errors::ExpansionError;
use crate::expand::{duration_of, expansion_post, scan_stops};
use crate::generator::{
    emitted, generated_ok, nth_candidate, raw_candidate, start_offset, value_emitted,
    value_present, within_end, ITERATION_CAP,
};
use crate::merger::{
    cancelled_at, exception_day, find_exception, merge_pairs, merged_views, occurrence_view_of,
    base_view_of, overridden_view_of, pairs_sorted, sort_key_of, sort_pairs,
    lemma_merge_pairs_elems, lemma_sort_pairs_ensures, OccurrenceView,
};
use crate::models::{Event, EventException, RecurringRule};
use crate::rule::{
    compiled_from, dow_days_canonical, rule_acceptable, CompiledRule, EndCondition, Frequency,
};
use crate::timetext::instant_of_text;

verus! {

/// Two strictly ascending sequences with the same members are equal.
pub proof fn lemma_strict_sorted_equal(v1: Seq<i64>, v2: Seq<i64>)
    requires
        forall|i: int, j: int| 0 <= i < j < v1.len() ==> v1[i] < v1[j],
        forall|i: int, j: int| 0 <= i < j < v2.len() ==> v2[i] < v2[j],
        forall|x: i64| v1.contains(x) <==> v2.contains(x),
    ensures
        v1 =~= v2,
    decreases v1.len(),
{
    if v1.len() == 0 {
        if v2.len() > 0 {
            assert(v2.contains(v2[0]));
        }
    } else if v2.len() == 0 {
        assert(v1.contains(v1[0]));
    } else {
        assert(v1.contains(v1[0]));
        assert(v2.contains(v1[0]));
        assert(v1.contains(v2[0]));
        let i1 = choose|i: int| 0 <= i < v1.len() && v1[i] == v2[0];
        let i2 = choose|i: int| 0 <= i < v2.len() && v2[i] == v1[0];
        assert(v1[0] <= v1[i1] == v2[0]);
        assert(v2[0] <= v2[i2] == v1[0]);
        assert(v1[0] == v2[0]);
        let t1 = v1.drop_first();
        let t2 = v2.drop_first();
        assert forall|i: int, j: int| 0 <= i < j < t1.len() implies t1[i] < t1[j] by {
            assert(t1[i] == v1[i + 1] && t1[j] == v1[j + 1]);
        }
        assert forall|i: int, j: int| 0 <= i < j < t2.len() implies t2[i] < t2[j] by {
            assert(t2[i] == v2[i + 1] && t2[j] == v2[j + 1]);
        }
        assert forall|x: i64| t1.contains(x) <==> t2.contains(x) by {
            if t1.contains(x) {
                let i = choose|i: int| 0 <= i < t1.len() && t1[i] == x;
                assert(v1[i + 1] == x);
                assert(v1.contains(x));
                assert(v1[0] < x);
                assert(v2.contains(x));
                let j = choose|j: int| 0 <= j < v2.len() && v2[j] == x;
                assert(j != 0);
                assert(t2[j - 1] == x);
                assert(t2.contains(x));
            }
            if t2.contains(x) {
                let i = choose|i: int| 0 <= i < t2.len() && t2[i] == x;
                assert(v2[i + 1] == x);
                assert(v2.contains(x));
                assert(v2[0] < x);
                assert(v1.contains(x));
                let j = choose|j: int| 0 <= j < v1.len() && v1[j] == x;
                assert(j != 0);
                assert(t1[j - 1] == x);
                assert(t1.contains(x));
            }
        }
        lemma_strict_sorted_equal(t1, t2);
        assert forall|i: int| 0 <= i < v1.len() implies v1[i] == v2[i] by {
            if i > 0 {
                assert(v1[i] == t1[i - 1]);
                assert(v2[i] == t2[i - 1]);
            }
        }
        assert(v1 =~= v2);
    }
}

/// Two ascending weekday lists naming the same set are equal.
pub proof fn lemma_canonical_days_equal(s: Seq<char>, d1: Seq<i64>, d2: Seq<i64>)
    requires
        dow_days_canonical(s, d1),
        dow_days_canonical(s, d2),
    ensures
        d1 =~= d2,
{
    lemma_strict_sorted_equal(d1, d2);
}

/// Whether two compiled rules agree on everything the generator reads.
pub open spec fn rules_agree(c1: CompiledRule, c2: CompiledRule) -> bool {
    &&& c1.frequency == c2.frequency
    &&& c1.interval == c2.interval
    &&& c1.days_of_week@ == c2.days_of_week@
    &&& c1.day_of_month == c2.day_of_month
    &&& c1.month_of_year == c2.month_of_year
    &&& c1.end == c2.end
}

/// Two compiled forms of one stored rule agree.
pub proof fn lemma_compiled_agree(rr: RecurringRule, c1: CompiledRule, c2: CompiledRule)
    requires
        compiled_from(rr, c1),
        compiled_from(rr, c2),
    ensures
        rules_agree(c1, c2),
{
    if c1.frequency is Weekly {
        lemma_canonical_days_equal(
            rr.days_of_week->Some_0@,
            c1.days_of_week@,
            c2.days_of_week@,
        );
    } else {
        assert(c1.days_of_week@ =~= c2.days_of_week@);
    }
}

/// Agreeing rules generate the same candidates.
pub proof fn lemma_agree_same_candidates(c1: CompiledRule, c2: CompiledRule, a: int)
    requires
        rules_agree(c1, c2),
    ensures
        forall|k: int| raw_candidate(c1, a, k) == #[trigger] raw_candidate(c2, a, k),
        start_offset(c1, a) == start_offset(c2, a),
        forall|k: int| nth_candidate(c1, a, k) == #[trigger] nth_candidate(c2, a, k),
        forall|t: int, k: int| within_end(c1, t, k) == #[trigger] within_end(c2, t, k),
        forall|qs: int, qe: int, k: int|
            emitted(c1, a, qs, qe, k) == #[trigger] emitted(c2, a, qs, qe, k),
        forall|qs: int, qe: int, k: int|
            crate::generator::stops_at(c1, a, qs, qe, k) == #[trigger] crate::generator::stops_at(
                c2,
                a,
                qs,
                qe,
                k,
            ),
{
    assert forall|k: int| raw_candidate(c1, a, k) == #[trigger] raw_candidate(c2, a, k) by {
        match c1.frequency {
            Frequency::Daily => {},
            Frequency::Weekly => {},
            Frequency::Monthly => {},
            Frequency::Yearly => {},
        }
    }
}

/// The generator's contract admits only one candidate list.
pub proof fn lemma_candidates_unique(
    rr: RecurringRule,
    c1: CompiledRule,
    c2: CompiledRule,
    a: int,
    qs: int,
    qe: int,
    v1: Seq<i64>,
    v2: Seq<i64>,
)
    requires
        compiled_from(rr, c1),
        compiled_from(rr, c2),
        generated_ok(c1, a, qs, qe, v1),
        generated_ok(c2, a, qs, qe, v2),
    ensures
        v1 =~= v2,
{
    lemma_compiled_agree(rr, c1, c2);
    lemma_agree_same_candidates(c1, c2, a);
    assert forall|x: i64| v1.contains(x) <==> v2.contains(x) by {
        if v1.contains(x) {
            let i = choose|i: int| 0 <= i < v1.len() && v1[i] == x;
            assert(value_emitted(c1, a, qs, qe, v1[i]));
            let e = choose|e: int|
                #![trigger nth_candidate(c1, a, e)]
                emitted(c1, a, qs, qe, e) && x as int == nth_candidate(c1, a, e);
            assert(emitted(c2, a, qs, qe, e));
            assert(value_present(c2, a, v2, e));
            let j = choose|j: int|
                #![trigger v2[j]]
                0 <= j < v2.len() && v2[j] as int == nth_candidate(c2, a, e);
            assert(v2[j] == x);
        }
        if v2.contains(x) {
            let i = choose|i: int| 0 <= i < v2.len() && v2[i] == x;
            assert(value_emitted(c2, a, qs, qe, v2[i]));
            let e = choose|e: int|
                #![trigger nth_candidate(c2, a, e)]
                emitted(c2, a, qs, qe, e) && x as int == nth_candidate(c2, a, e);
            assert(emitted(c1, a, qs, qe, e));
            assert(value_present(c1, a, v1, e));
            let j = choose|j: int|
                #![trigger v1[j]]
                0 <= j < v1.len() && v1[j] as int == nth_candidate(c1, a, e);
            assert(v1[j] == x);
        }
    }
    lemma_strict_sorted_equal(v1, v2);
}

/// A found exception lies in the list and is keyed to the day searched.
pub proof fn lemma_find_exception_in_range(excs: Seq<EventException>, day: int, i0: int)
    requires
        0 <= i0,
    ensures
        (match find_exception(excs, day, i0) {
            Some(i) => i0 <= i < excs.len() && exception_day(excs[i]) == Some(day),
            None => true,
        }),
    decreases excs.len() - i0,
{
    if i0 < excs.len() {
        if exception_day(excs[i0]) != Some(day) {
            lemma_find_exception_in_range(excs, day, i0 + 1);
        }
    }
}

/// Containment: the effective start of every returned occurrence is its
/// candidate's instant — which lies inside the queried window — unless a
/// readable modified start of one of the exceptions replaced it.
pub proof fn lemma_containment(
    c: CompiledRule,
    a: int,
    qs: int,
    qe: int,
    cands: Seq<i64>,
    excs: Seq<EventException>,
)
    requires
        generated_ok(c, a, qs, qe, cands),
        cands.len() <= 0x7fffffff,
    ensures
        forall|p: (i64, i64)|
            #[trigger] sort_pairs(merge_pairs(excs, cands)).contains(p) ==> (qs <= p.0 <= qe
                || exists|i: int|
                0 <= i < excs.len() && (match #[trigger] excs[i].modified_start_time {
                    Some(s) => instant_of_text(s@) == Some(p.0 as int),
                    None => false,
                })),
{
    lemma_sort_pairs_ensures(merge_pairs(excs, cands));
    lemma_merge_pairs_elems(excs, cands);
    assert forall|p: (i64, i64)|
        #[trigger] sort_pairs(merge_pairs(excs, cands)).contains(p) implies (qs <= p.0 <= qe
        || exists|i: int|
        0 <= i < excs.len() && (match #[trigger] excs[i].modified_start_time {
            Some(s) => instant_of_text(s@) == Some(p.0 as int),
            None => false,
        })) by {
        assert(merge_pairs(excs, cands).contains(p));
        let t = cands[p.1 as int];
        assert(qs <= t <= qe);
        assert(p.0 as int == sort_key_of(excs, t as int));
        lemma_find_exception_in_range(excs, t as int / 86400, 0);
        match find_exception(excs, t as int / 86400, 0) {
            Some(i) => {
                match excs[i].modified_start_time {
                    Some(s) => {
                        if instant_of_text(s@) is Some {
                            assert(instant_of_text(excs[i].modified_start_time->Some_0@)
                                == Some(p.0 as int));
                        } else {
                            assert(p.0 == t);
                        }
                    },
                    None => {
                        assert(p.0 == t);
                    },
                }
            },
            None => {
                assert(p.0 == t);
            },
        }
    }
}

/// Containment without overrides: where no exception carries a modified
/// start, every effective start lies inside the queried window.
pub proof fn lemma_containment_in_window(
    c: CompiledRule,
    a: int,
    qs: int,
    qe: int,
    cands: Seq<i64>,
    excs: Seq<EventException>,
)
    requires
        generated_ok(c, a, qs, qe, cands),
        cands.len() <= 0x7fffffff,
        forall|i: int| 0 <= i < excs.len() ==> #[trigger] excs[i].modified_start_time is None,
    ensures
        forall|p: (i64, i64)|
            #[trigger] sort_pairs(merge_pairs(excs, cands)).contains(p) ==> qs <= p.0 <= qe,
{
    lemma_containment(c, a, qs, qe, cands, excs);
}

/// The returned occurrences are ordered: the pairs behind the merged list
/// ascend by effective start instant, ties broken by candidate index, and
/// sorting loses nothing.
pub proof fn lemma_output_ordered(excs: Seq<EventException>, cands: Seq<i64>)
    ensures
        pairs_sorted(sort_pairs(merge_pairs(excs, cands))),
        sort_pairs(merge_pairs(excs, cands)).len() == merge_pairs(excs, cands).len(),
{
    lemma_sort_pairs_ensures(merge_pairs(excs, cands));
}

/// An occurrence budget is spent from the anchor on, not from the queried
/// window: once the first `n` candidates at or after the anchor lie before
/// the window's start, the window yields nothing at all.
pub proof fn lemma_budget_exhausted(
    c: CompiledRule,
    a: int,
    qs: int,
    qe: int,
    n: i64,
    cands: Seq<i64>,
)
    requires
        generated_ok(c, a, qs, qe, cands),
        c.end == EndCondition::EndOccurrences(n),
        forall|k: int| 0 <= k < n ==> #[trigger] nth_candidate(c, a, k) < qs,
    ensures
        cands.len() == 0,
{
    if cands.len() > 0 {
        assert(value_emitted(c, a, qs, qe, cands[0]));
        let e = choose|e: int|
            #![trigger nth_candidate(c, a, e)]
            emitted(c, a, qs, qe, e) && cands[0] as int == nth_candidate(c, a, e);
        assert(within_end(c, nth_candidate(c, a, e), e));
        assert(e < n);
        assert(nth_candidate(c, a, e) < qs);
        assert(qs <= nth_candidate(c, a, e));
    }
}

/// A lone override touches only the matching occurrence: the candidate on
/// the exception's date key carries the overridden fields, and every other
/// candidate materializes exactly as the base event — same title, same
/// everything.
pub proof fn lemma_override_isolation(
    ev: Event,
    event_id: int,
    dur: int,
    x: EventException,
    t: int,
)
    ensures
        exception_day(x) == Some(t / 86400) ==> occurrence_view_of(
            ev,
            event_id,
            dur,
            seq![x],
            t,
        ) =~= overridden_view_of(ev, event_id, dur, x, t),
        exception_day(x) != Some(t / 86400) ==> occurrence_view_of(
            ev,
            event_id,
            dur,
            seq![x],
            t,
        ) =~= base_view_of(ev, event_id, dur, t),
{
    let s = seq![x];
    assert(s[0] == x);
    if exception_day(x) == Some(t / 86400) {
        assert(find_exception(s, t / 86400, 0) == Some(0int));
    } else {
        assert(find_exception(s, t / 86400, 1) is None);
        assert(find_exception(s, t / 86400, 0) is None);
    }
}

/// How many candidates fall on the day index `d`.
pub open spec fn count_on_day(cands: Seq<i64>, d: int) -> int
    decreases cands.len(),
{
    if cands.len() == 0 {
        0
    } else {
        count_on_day(cands.drop_last(), d) + (if cands.last() as int / 86400 == d {
            1int
        } else {
            0int
        })
    }
}

/// Under a lone cancelling exception, exactly the candidates on its date
/// key are dropped.
proof fn lemma_merge_pairs_len_single(x: EventException, cands: Seq<i64>, d: int)
    requires
        x.is_cancelled,
        exception_day(x) == Some(d),
    ensures
        merge_pairs(seq![x], cands).len() == cands.len() - count_on_day(cands, d),
        count_on_day(cands, d) <= cands.len(),
    decreases cands.len(),
{
    let s = seq![x];
    assert(s[0] == x);
    if cands.len() > 0 {
        lemma_merge_pairs_len_single(x, cands.drop_last(), d);
        let t = cands.last() as int;
        if t / 86400 == d {
            assert(find_exception(s, t / 86400, 0) == Some(0int));
            assert(cancelled_at(s, t));
        } else {
            assert(find_exception(s, t / 86400, 1) is None);
            assert(find_exception(s, t / 86400, 0) is None);
            assert(!cancelled_at(s, t));
        }
    }
}

/// With no exceptions at all, every candidate survives.
proof fn lemma_merge_pairs_len_empty(cands: Seq<i64>)
    ensures
        merge_pairs(Seq::<EventException>::empty(), cands).len() == cands.len(),
    decreases cands.len(),
{
    let s = Seq::<EventException>::empty();
    if cands.len() > 0 {
        lemma_merge_pairs_len_empty(cands.drop_last());
        let t = cands.last() as int;
        assert(find_exception(s, t / 86400, 0) is None);
        assert(!cancelled_at(s, t));
    }
}

/// Cancellation: a lone cancelling exception removes exactly the
/// occurrences on its date key. For the same candidates, the expansion
/// without exceptions returns one occurrence per candidate, and with the
/// cancelling exception on a key that exactly one candidate hits, exactly
/// one fewer.
pub proof fn lemma_cancellation(
    ev: Event,
    event_id: int,
    dur: int,
    x: EventException,
    cands: Seq<i64>,
    d: int,
)
    requires
        x.is_cancelled,
        exception_day(x) == Some(d),
        count_on_day(cands, d) == 1,
    ensures
        merged_views(ev, event_id, dur, Seq::<EventException>::empty(), cands).len()
            == cands.len(),
        merged_views(ev, event_id, dur, seq![x], cands).len() == cands.len() - 1,
{
    lemma_merge_pairs_len_single(x, cands, d);
    lemma_merge_pairs_len_empty(cands);
    lemma_sort_pairs_ensures(merge_pairs(seq![x], cands));
    lemma_sort_pairs_ensures(merge_pairs(Seq::<EventException>::empty(), cands));
}

/// Idempotence: expansion is a function of its inputs. Two results that
/// both satisfy the expansion contract on the same inputs are identical,
/// so two identical calls return identical ordered output.
pub proof fn lemma_expansion_deterministic(
    event_id: int,
    event: Option<Event>,
    rule: Option<RecurringRule>,
    excs: Seq<EventException>,
    start_text: Seq<char>,
    end_text: Seq<char>,
    r1: Result<Seq<OccurrenceView>, ExpansionError>,
    r2: Result<Seq<OccurrenceView>, ExpansionError>,
)
    requires
        expansion_post(event_id, event, rule, excs, start_text, end_text, r1),
        expansion_post(event_id, event, rule, excs, start_text, end_text, r2),
    ensures
        r1 == r2,
{
    match (instant_of_text(start_text), instant_of_text(end_text)) {
        (Some(qs), Some(qe)) => {
            if qs <= qe {
                match (event, rule) {
                    (Some(ev), Some(rr)) => {
                        if rule_acceptable(rr) {
                            match (instant_of_text(ev.start_time@), instant_of_text(
                                ev.end_time@,
                            )) {
                                (Some(a), Some(aend)) => {
                                    let dur = duration_of(a, aend);
                                    match (r1, r2) {
                                        (Ok(views1), Ok(views2)) => {
                                            let (c1, cands1) = choose|
                                                c: CompiledRule,
                                                cands: Seq<i64>,
                                            |
                                                #![trigger generated_ok(c, a, qs, qe, cands)]
                                                {
                                                    &&& compiled_from(rr, c)
                                                    &&& scan_stops(c, a, qs, qe)
                                                    &&& generated_ok(c, a, qs, qe, cands)
                                                    &&& cands.len() <= ITERATION_CAP
                                                    &&& views1 =~= merged_views(
                                                        ev,
                                                        event_id,
                                                        dur,
                                                        excs,
                                                        cands,
                                                    )
                                                };
                                            let (c2, cands2) = choose|
                                                c: CompiledRule,
                                                cands: Seq<i64>,
                                            |
                                                #![trigger generated_ok(c, a, qs, qe, cands)]
                                                {
                                                    &&& compiled_from(rr, c)
                                                    &&& scan_stops(c, a, qs, qe)
                                                    &&& generated_ok(c, a, qs, qe, cands)
                                                    &&& cands.len() <= ITERATION_CAP
                                                    &&& views2 =~= merged_views(
                                                        ev,
                                                        event_id,
                                                        dur,
                                                        excs,
                                                        cands,
                                                    )
                                                };
                                            lemma_candidates_unique(
                                                rr,
                                                c1,
                                                c2,
                                                a,
                                                qs,
                                                qe,
                                                cands1,
                                                cands2,
                                            );
                                            assert(views1 =~= views2);
                                        },
                                        (Ok(views1), Err(e2)) => {
                                            let (c1, cands1) = choose|
                                                c: CompiledRule,
                                                cands: Seq<i64>,
                                            |
                                                #![trigger generated_ok(c, a, qs, qe, cands)]
                                                {
                                                    &&& compiled_from(rr, c)
                                                    &&& scan_stops(c, a, qs, qe)
                                                    &&& generated_ok(c, a, qs, qe, cands)
                                                    &&& cands.len() <= ITERATION_CAP
                                                    &&& views1 =~= merged_views(
                                                        ev,
                                                        event_id,
                                                        dur,
                                                        excs,
                                                        cands,
                                                    )
                                                };
                                            let c2 = choose|c: CompiledRule|
                                                #![trigger compiled_from(rr, c)]
                                                compiled_from(rr, c) && !scan_stops(c, a, qs, qe);
                                            lemma_compiled_agree(rr, c1, c2);
                                            lemma_agree_same_candidates(c1, c2, a);
                                            let k = choose|k: int|
                                                0 <= k < ITERATION_CAP && crate::generator::stops_at(
                                                    c1,
                                                    a,
                                                    qs,
                                                    qe,
                                                    k,
                                                );
                                            assert(crate::generator::stops_at(c2, a, qs, qe, k));
                                            assert(false);
                                        },
                                        (Err(e1), Ok(views2)) => {
                                            let (c2, cands2) = choose|
                                                c: CompiledRule,
                                                cands: Seq<i64>,
                                            |
                                                #![trigger generated_ok(c, a, qs, qe, cands)]
                                                {
                                                    &&& compiled_from(rr, c)
                                                    &&& scan_stops(c, a, qs, qe)
                                                    &&& generated_ok(c, a, qs, qe, cands)
                                                    &&& cands.len() <= ITERATION_CAP
                                                    &&& views2 =~= merged_views(
                                                        ev,
                                                        event_id,
                                                        dur,
                                                        excs,
                                                        cands,
                                                    )
                                                };
                                            let c1 = choose|c: CompiledRule|
                                                #![trigger compiled_from(rr, c)]
                                                compiled_from(rr, c) && !scan_stops(c, a, qs, qe);
                                            lemma_compiled_agree(rr, c1, c2);
                                            lemma_agree_same_candidates(c1, c2, a);
                                            let k = choose|k: int|
                                                0 <= k < ITERATION_CAP && crate::generator::stops_at(
                                                    c2,
                                                    a,
                                                    qs,
                                                    qe,
                                                    k,
                                                );
                                            assert(crate::generator::stops_at(c1, a, qs, qe, k));
                                            assert(false);
                                        },
                                        (Err(e1), Err(e2)) => {},
                                    }
                                },
                                _ => {},
                            }
                        }
                    },
                    _ => {},
                }
            }
        },
        _ => {},
    }
}

} // verus!
