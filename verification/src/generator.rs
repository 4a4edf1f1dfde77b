//! Candidate generation: the ascending sequence of instants a compiled
//! rule produces from its anchor, cut to the queried window and to the
//! rule's own end condition.
//!
//! The *raw* candidate sequence starts at index 0 in the anchor's own
//! period (its day, week, month or year); the few raw candidates that fall
//! before the anchor are computed but never emitted and never counted,
//! so an occurrence budget (`EndOccurrences`) is spent from the anchor on,
//! regardless of the queried window.

use vstd::prelude::*;
use vstd::arithmetic::mul::{
    lemma_mul_strict_inequality, lemma_mul_inequality, lemma_mul_is_associative,
    lemma_mul_is_distributive_sub_other_way, lemma_mul_nonnegative,
};
use vstd::arithmetic::div_mod::{
    lemma_div_is_ordered, lemma_fundamental_div_mod, lemma_mod_division_less_than_divisor,
};
use crate::calendar::{
    civil_of, clamped_day_of, day_index_of, lemma_civil_of_in_range, lemma_day_index_lex_mono,
    proper_date, weekday_of, MAX_DAY_INDEX, MAX_INSTANT,
};
use crate::errors::ExpansionError;
use crate::rule::{CompiledRule, EndCondition, Frequency};

verus! {

/// The candidate iteration safety cap: however adversarial the rule, no
/// expansion examines more than this many raw candidates.
pub const ITERATION_CAP: i64 = 100000;

/// An anchor instant the engine accepts.
pub open spec fn anchor_ok(a: int) -> bool {
    0 <= a <= MAX_INSTANT
}

/// The day index an instant falls on.
pub open spec fn day_of_instant(a: int) -> int {
    a / 86400
}

/// The second of day of an instant.
pub open spec fn tod_of_instant(a: int) -> int {
    a % 86400
}

/// The Sunday at or before the anchor's day: day one of the anchor's week.
pub open spec fn week_base_of(a: int) -> int {
    day_of_instant(a) - weekday_of(day_of_instant(a))
}

/// Months from January of year 1 to month `m` of year `y`.
pub open spec fn month_index_of(y: int, m: int) -> int {
    (y - 1) * 12 + (m - 1)
}

/// The raw candidate of index `k` (`k >= 0`): the `k`-th instant the rule
/// names, counted from the anchor's own period, before any window or end
/// condition applies.
///
/// - Daily: every `interval` days from the anchor.
/// - Weekly: within every `interval`-th week (weeks run Sunday to
///   Saturday), each listed weekday at the anchor's time of day.
/// - Monthly: every `interval` months, on the rule's day of month, clamped
///   to the last day of shorter months.
/// - Yearly: every `interval` years, on the rule's month and day of month,
///   clamped to the last day of that month (a Feb-29 rule lands on Feb 28
///   outside leap years).
pub open spec fn raw_candidate(c: CompiledRule, a: int, k: int) -> int {
    match c.frequency {
        Frequency::Daily => a + k * (c.interval as int) * 86400,
        Frequency::Weekly => {
            let m = c.days_of_week@.len() as int;
            let day = week_base_of(a) + (k / m) * ((c.interval as int) * 7) + (c.days_of_week@[k
                % m] as int);
            day * 86400 + tod_of_instant(a)
        },
        Frequency::Monthly => {
            let ac = civil_of(day_of_instant(a));
            let mm = month_index_of(ac.0, ac.1) + k * (c.interval as int);
            let y = mm / 12 + 1;
            let mo = mm % 12 + 1;
            day_index_of(y, mo, clamped_day_of(y, mo, c.day_of_month as int)) * 86400
                + tod_of_instant(a)
        },
        Frequency::Yearly => {
            let y = civil_of(day_of_instant(a)).0 + k * (c.interval as int);
            let mo = c.month_of_year as int;
            day_index_of(y, mo, clamped_day_of(y, mo, c.day_of_month as int)) * 86400
                + tod_of_instant(a)
        },
    }
}

/// How many entries of an ascending weekday list lie below `wd`.
pub open spec fn count_below(days: Seq<i64>, wd: int) -> int
    decreases days.len(),
{
    if days.len() == 0 {
        0
    } else {
        (if (days[0] as int) < wd {
            1int
        } else {
            0int
        }) + count_below(days.drop_first(), wd)
    }
}

/// The index of the first raw candidate at or after the anchor. Only the
/// anchor's own period can hold raw candidates before the anchor.
pub open spec fn start_offset(c: CompiledRule, a: int) -> int {
    match c.frequency {
        Frequency::Daily => 0,
        Frequency::Weekly => count_below(c.days_of_week@, weekday_of(day_of_instant(a))),
        Frequency::Monthly => if raw_candidate(c, a, 0) < a {
            1int
        } else {
            0int
        },
        Frequency::Yearly => if raw_candidate(c, a, 0) < a {
            1int
        } else {
            0int
        },
    }
}

/// The `k`-th candidate at or after the anchor (`k >= 0`), in ascending
/// order. This is the sequence an occurrence budget counts.
pub open spec fn nth_candidate(c: CompiledRule, a: int, k: int) -> int {
    raw_candidate(c, a, k + start_offset(c, a))
}

/// Whether the candidate instant `t`, the `k`-th at or after the anchor,
/// passes the rule's end condition.
pub open spec fn within_end(c: CompiledRule, t: int, k: int) -> bool {
    match c.end {
        EndCondition::Open => true,
        EndCondition::EndDate(ed) => t <= ed as int,
        EndCondition::EndOccurrences(n) => k < n as int,
    }
}

/// Whether the `k`-th candidate at or after the anchor is returned for the
/// window `[qs, qe]`: it must lie in the window and pass the end condition.
pub open spec fn emitted(c: CompiledRule, a: int, qs: int, qe: int, k: int) -> bool {
    &&& 0 <= k
    &&& qs <= nth_candidate(c, a, k) <= qe
    &&& within_end(c, nth_candidate(c, a, k), k)
}

/// Whether the scan may stop at raw index `k`: the candidate has left the
/// window or the end date behind, or the occurrence budget is spent. From
/// this index on (candidates ascending) nothing further is emitted.
pub open spec fn stops_at(c: CompiledRule, a: int, qs: int, qe: int, k: int) -> bool {
    let t = raw_candidate(c, a, k);
    ||| t > qe
    ||| (match c.end {
        EndCondition::EndDate(ed) => t > ed as int,
        _ => false,
    })
    ||| (match c.end {
        EndCondition::EndOccurrences(n) => t >= a && k - start_offset(c, a) >= n as int,
        _ => false,
    })
}

/// Raw candidates are strictly ascending in their index.
pub proof fn lemma_raw_mono(c: CompiledRule, a: int, k1: int, k2: int)
    requires
        c.wf(),
        anchor_ok(a),
        0 <= k1 < k2,
    ensures
        raw_candidate(c, a, k1) < raw_candidate(c, a, k2),
{
    let iv = c.interval as int;
    match c.frequency {
        Frequency::Daily => {
            lemma_mul_is_associative(k1, iv, 86400);
            lemma_mul_is_associative(k2, iv, 86400);
            lemma_mul_strict_inequality(k1, k2, iv * 86400);
        },
        Frequency::Weekly => {
            let m = c.days_of_week@.len() as int;
            let w1 = k1 / m;
            let j1 = k1 % m;
            let w2 = k2 / m;
            let j2 = k2 % m;
            lemma_div_is_ordered(k1, k2, m);
            lemma_fundamental_div_mod(k1, m);
            lemma_fundamental_div_mod(k2, m);
            lemma_mod_division_less_than_divisor(k1, m);
            lemma_mod_division_less_than_divisor(k2, m);
            vstd::arithmetic::div_mod::lemma_div_pos_is_pos(k1, m);
            vstd::arithmetic::div_mod::lemma_div_pos_is_pos(k2, m);
            if w1 == w2 {
                assert(j1 < j2);
                assert((c.days_of_week@[j1] as int) < (c.days_of_week@[j2] as int));
            } else {
                assert(w1 < w2);
                assert(w2 * (iv * 7) - w1 * (iv * 7) == (w2 - w1) * (iv * 7)) by {
                    lemma_mul_is_distributive_sub_other_way(iv * 7, w2, w1);
                }
                assert((w2 - w1) * (iv * 7) >= 1 * (iv * 7)) by {
                    lemma_mul_inequality(1, w2 - w1, iv * 7);
                }
                assert(0 <= (c.days_of_week@[j1] as int) <= 6);
                assert(0 <= (c.days_of_week@[j2] as int) <= 6);
            }
        },
        Frequency::Monthly => {
            lemma_anchor_civil(a);
            let ac = civil_of(day_of_instant(a));
            let am0 = month_index_of(ac.0, ac.1);
            assert(am0 >= 0);
            let mm1 = am0 + k1 * iv;
            let mm2 = am0 + k2 * iv;
            lemma_mul_nonnegative(k1, iv);
            lemma_mul_strict_inequality(k1, k2, iv);
            lemma_month_index_date_mono(c, mm1, mm2);
        },
        Frequency::Yearly => {
            lemma_anchor_civil(a);
            let ay = civil_of(day_of_instant(a)).0;
            let y1 = ay + k1 * iv;
            let y2 = ay + k2 * iv;
            lemma_mul_nonnegative(k1, iv);
            lemma_mul_strict_inequality(k1, k2, iv);
            let mo = c.month_of_year as int;
            let d1 = clamped_day_of(y1, mo, c.day_of_month as int);
            let d2 = clamped_day_of(y2, mo, c.day_of_month as int);
            lemma_day_index_lex_mono(y1, mo, d1, y2, mo, d2);
        },
    }
}

/// The anchor's day has a supported civil date.
pub proof fn lemma_anchor_civil(a: int)
    requires
        anchor_ok(a),
    ensures
        0 <= day_of_instant(a) <= MAX_DAY_INDEX,
        0 <= tod_of_instant(a) < 86400,
        a == day_of_instant(a) * 86400 + tod_of_instant(a),
        proper_date(
            civil_of(day_of_instant(a)).0,
            civil_of(day_of_instant(a)).1,
            civil_of(day_of_instant(a)).2,
        ),
        civil_of(day_of_instant(a)).0 <= 9999,
        day_index_of(
            civil_of(day_of_instant(a)).0,
            civil_of(day_of_instant(a)).1,
            civil_of(day_of_instant(a)).2,
        ) == day_of_instant(a),
{
    lemma_civil_of_in_range(day_of_instant(a));
}

/// Two month indices in order give dates in order, whatever the clamping.
proof fn lemma_month_index_date_mono(c: CompiledRule, mm1: int, mm2: int)
    requires
        c.wf(),
        0 <= mm1 < mm2,
    ensures
        day_index_of(
            mm1 / 12 + 1,
            mm1 % 12 + 1,
            clamped_day_of(mm1 / 12 + 1, mm1 % 12 + 1, c.day_of_month as int),
        ) < day_index_of(
            mm2 / 12 + 1,
            mm2 % 12 + 1,
            clamped_day_of(mm2 / 12 + 1, mm2 % 12 + 1, c.day_of_month as int),
        ),
{
    let y1 = mm1 / 12 + 1;
    let mo1 = mm1 % 12 + 1;
    let y2 = mm2 / 12 + 1;
    let mo2 = mm2 % 12 + 1;
    let d1 = clamped_day_of(y1, mo1, c.day_of_month as int);
    let d2 = clamped_day_of(y2, mo2, c.day_of_month as int);
    assert(proper_date(y1, mo1, d1));
    assert(proper_date(y2, mo2, d2));
    if y1 == y2 {
        assert(mo1 < mo2);
    } else {
        assert(y1 < y2);
    }
    lemma_day_index_lex_mono(y1, mo1, d1, y2, mo2, d2);
}

/// `count_below` of an ascending list is the index where `wd` would sit.
pub proof fn lemma_count_below_sorted(days: Seq<i64>, wd: int)
    requires
        forall|i: int, j: int| 0 <= i < j < days.len() ==> days[i] < days[j],
    ensures
        0 <= count_below(days, wd) <= days.len(),
        forall|i: int|
            0 <= i < days.len() ==> ((days[i] as int) < wd <==> i < count_below(days, wd)),
    decreases days.len(),
{
    if days.len() > 0 {
        let tail = days.drop_first();
        assert forall|i: int, j: int| 0 <= i < j < tail.len() implies tail[i] < tail[j] by {
            assert(tail[i] == days[i + 1]);
            assert(tail[j] == days[j + 1]);
        }
        lemma_count_below_sorted(tail, wd);
        assert forall|i: int|
            0 <= i < days.len() implies ((days[i] as int) < wd <==> i < count_below(
            days,
            wd,
        )) by {
            if i > 0 {
                assert(days[i] == tail[i - 1]);
                if (days[0] as int) >= wd {
                    assert(days[0] < days[i]);
                }
            } else {
                if count_below(tail, wd) > 0 {
                    assert((tail[0] as int) < wd);
                    assert(days[0] < days[1]);
                }
            }
        }
    }
}

/// A raw candidate lies before the anchor exactly when its index lies
/// before `start_offset`; in particular `nth_candidate` never does.
pub proof fn lemma_offset_correct(c: CompiledRule, a: int)
    requires
        c.wf(),
        anchor_ok(a),
    ensures
        0 <= start_offset(c, a),
        start_offset(c, a) <= (match c.frequency {
            Frequency::Daily => 0int,
            Frequency::Weekly => c.days_of_week@.len() as int,
            _ => 1int,
        }),
        forall|k: int| 0 <= k ==> (raw_candidate(c, a, k) < a <==> k < start_offset(c, a)),
{
    let iv = c.interval as int;
    lemma_anchor_civil(a);
    let ad = day_of_instant(a);
    let tod = tod_of_instant(a);
    match c.frequency {
        Frequency::Daily => {
            assert forall|k: int| 0 <= k implies raw_candidate(c, a, k) >= a by {
                lemma_mul_nonnegative(k, iv);
                lemma_mul_nonnegative(k * iv, 86400);
                lemma_mul_is_associative(k, iv, 86400);
            }
        },
        Frequency::Weekly => {
            let days = c.days_of_week@;
            let m = days.len() as int;
            let wd = weekday_of(ad);
            let wb = week_base_of(a);
            lemma_count_below_sorted(days, wd);
            let off = count_below(days, wd);
            assert forall|k: int| 0 <= k implies (raw_candidate(c, a, k) < a <==> k
                < off) by {
                lemma_fundamental_div_mod(k, m);
                lemma_mod_division_less_than_divisor(k, m);
                vstd::arithmetic::div_mod::lemma_div_pos_is_pos(k, m);
                let w = k / m;
                let j = k % m;
                let day = wb + w * (iv * 7) + (days[j] as int);
                assert(raw_candidate(c, a, k) == day * 86400 + tod);
                assert(a == ad * 86400 + tod);
                if k < m {
                    assert(w == 0) by {
                        vstd::arithmetic::div_mod::lemma_basic_div(k, m);
                    }
                    assert(j == k) by {
                        vstd::arithmetic::div_mod::lemma_small_mod(k as nat, m as nat);
                    }
                    assert(w * (iv * 7) == 0) by (nonlinear_arith)
                        requires
                            w == 0,
                    ;
                    assert(day == wb + (days[k] as int));
                    assert((days[k] as int) < wd <==> k < off);
                    assert(day < ad <==> (days[k] as int) < wd);
                    assert(raw_candidate(c, a, k) < a <==> day < ad);
                } else {
                    assert(w >= 1) by {
                        if w < 1 {
                            assert(w == 0);
                            assert(m * w == 0) by (nonlinear_arith)
                                requires
                                    w == 0,
                            ;
                            assert(k == m * w + j);
                            assert(k < m);
                        }
                    }
                    assert(w * (iv * 7) >= 1 * (iv * 7)) by {
                        lemma_mul_inequality(1, w, iv * 7);
                    }
                    assert(iv * 7 >= 7);
                    assert(0 <= (days[j] as int));
                    assert(wd <= 6);
                    assert(day >= wb + 7 > wb + wd == ad);
                    assert(off <= m);
                }
            }
        },
        Frequency::Monthly => {
            assert forall|k: int| 1 <= k implies raw_candidate(c, a, k) >= a by {
                let ac = civil_of(ad);
                let am0 = month_index_of(ac.0, ac.1);
                let mm = am0 + k * iv;
                assert(k * iv >= 1) by {
                    lemma_mul_inequality(1, k, iv);
                }
                let y = mm / 12 + 1;
                let mo = mm % 12 + 1;
                let d = clamped_day_of(y, mo, c.day_of_month as int);
                assert(mm / 12 >= am0 / 12 && (mm / 12 == am0 / 12 ==> mm % 12 > am0 % 12)) by {
                    lemma_div_is_ordered(am0 + 1, mm, 12);
                    lemma_div_is_ordered(am0, mm, 12);
                    lemma_fundamental_div_mod(mm, 12);
                    lemma_fundamental_div_mod(am0, 12);
                }
                assert(am0 / 12 == ac.0 - 1 && am0 % 12 == ac.1 - 1) by {
                    lemma_fundamental_div_mod(am0, 12);
                    lemma_mod_division_less_than_divisor(am0, 12);
                    lemma_div_is_ordered(0, am0, 12);
                    assert(am0 == (ac.0 - 1) * 12 + (ac.1 - 1));
                    vstd::arithmetic::div_mod::lemma_hoist_over_denominator(
                        ac.1 - 1,
                        ac.0 - 1,
                        12,
                    );
                    vstd::arithmetic::div_mod::lemma_small_mod((ac.1 - 1) as nat, 12);
                    vstd::arithmetic::div_mod::lemma_mod_multiples_vanish(
                        ac.0 - 1,
                        ac.1 - 1,
                        12,
                    );
                }
                assert(proper_date(y, mo, d));
                lemma_day_index_lex_mono(ac.0, ac.1, ac.2, y, mo, d);
                assert(day_index_of(y, mo, d) > ad);
            }
        },
        Frequency::Yearly => {
            assert forall|k: int| 1 <= k implies raw_candidate(c, a, k) >= a by {
                let ac = civil_of(ad);
                let y = ac.0 + k * iv;
                assert(k * iv >= 1) by {
                    lemma_mul_inequality(1, k, iv);
                }
                let mo = c.month_of_year as int;
                let d = clamped_day_of(y, mo, c.day_of_month as int);
                assert(proper_date(y, mo, d));
                lemma_day_index_lex_mono(ac.0, ac.1, ac.2, y, mo, d);
                assert(day_index_of(y, mo, d) > ad);
            }
        },
    }
}

/// Whether `x` is the instant of some emitted candidate.
pub open spec fn value_emitted(c: CompiledRule, a: int, qs: int, qe: int, x: i64) -> bool {
    exists|e: int|
        #![trigger nth_candidate(c, a, e)]
        emitted(c, a, qs, qe, e) && x as int == nth_candidate(c, a, e)
}

/// Whether the instant of candidate `e` occurs in `v`.
pub open spec fn value_present(c: CompiledRule, a: int, v: Seq<i64>, e: int) -> bool {
    exists|i: int| #![trigger v[i]] 0 <= i < v.len() && v[i] as int == nth_candidate(c, a, e)
}

/// What `generate_candidates` promises of a returned vector: strictly
/// ascending, inside the window, and exactly the emitted candidates.
pub open spec fn generated_ok(c: CompiledRule, a: int, qs: int, qe: int, v: Seq<i64>) -> bool {
    &&& forall|i: int, j: int| 0 <= i < j < v.len() ==> v[i] < v[j]
    &&& forall|i: int| 0 <= i < v.len() ==> qs <= #[trigger] v[i] <= qe
    &&& forall|i: int|
        0 <= i < v.len() ==> value_emitted(c, a, qs, qe, #[trigger] v[i])
    &&& forall|e: int| #[trigger] emitted(c, a, qs, qe, e) ==> value_present(c, a, v, e)
    &&& (match c.end {
        EndCondition::EndOccurrences(n) => v.len() <= n,
        _ => true,
    })
}

/// The raw candidate of index `k`, or `None` when it falls beyond the last
/// supported instant (and so beyond any query window).
fn raw_at(rule: &CompiledRule, anchor: i64, ay: i64, am: i64, k: i64) -> (r: Option<i64>)
    requires
        rule.wf(),
        anchor_ok(anchor as int),
        0 <= k <= ITERATION_CAP,
        ay as int == civil_of(day_of_instant(anchor as int)).0,
        am as int == civil_of(day_of_instant(anchor as int)).1,
    ensures
        (r matches Some(t) ==> t as int == raw_candidate(*rule, anchor as int, k as int) && t
            <= MAX_INSTANT),
        (r is None ==> raw_candidate(*rule, anchor as int, k as int) > MAX_INSTANT),
{
    proof {
        lemma_anchor_civil(anchor as int);
    }
    let tod = anchor % 86400;
    let ad = anchor / 86400;
    match rule.frequency {
        Frequency::Daily => {
            proof {
                lemma_mul_nonnegative(k as int, rule.interval as int);
                lemma_mul_inequality(k as int, 100000, rule.interval as int);
                lemma_mul_inequality(rule.interval as int, 0x7fffffff, 100000);
                lemma_mul_is_associative(k as int, rule.interval as int, 86400);
            }
            let d = k * rule.interval;
            if d > 3652060 {
                proof {
                    lemma_mul_inequality(3652061, d as int, 86400);
                }
                return None;
            }
            let t = anchor + d * 86400;
            if t > MAX_INSTANT {
                None
            } else {
                Some(t)
            }
        },
        Frequency::Weekly => {
            let mi = rule.days_of_week.len() as i64;
            let w = k / mi;
            let j = (k % mi) as usize;
            proof {
                lemma_mod_division_less_than_divisor(k as int, mi as int);
                vstd::arithmetic::div_mod::lemma_div_pos_is_pos(k as int, mi as int);
                lemma_div_is_ordered(k as int, 100000, mi as int);
                vstd::arithmetic::div_mod::lemma_div_is_ordered_by_denominator(
                    100000,
                    1,
                    mi as int,
                );
                lemma_mul_nonnegative(w as int, (rule.interval * 7) as int);
                lemma_mul_inequality(w as int, 100000, (rule.interval * 7) as int);
                lemma_mul_inequality((rule.interval * 7) as int, 7 * 0x7fffffffint, 100000);
            }
            let dj = rule.days_of_week[j];
            let wd = crate::calendar::weekday(ad);
            let wb = ad - wd;
            let wk = w * (rule.interval * 7);
            let day = wb + wk + dj;
            if day > MAX_DAY_INDEX {
                proof {
                    lemma_mul_inequality(3652059, day as int, 86400);
                }
                None
            } else {
                proof {
                    lemma_mul_inequality(day as int, 3652058, 86400);
                    lemma_mul_inequality(-7, day as int, 86400);
                }
                Some(day * 86400 + tod)
            }
        },
        Frequency::Monthly => {
            let am0 = (ay - 1) * 12 + (am - 1);
            proof {
                lemma_mul_nonnegative(k as int, rule.interval as int);
                lemma_mul_inequality(k as int, 100000, rule.interval as int);
                lemma_mul_inequality(rule.interval as int, 0x7fffffff, 100000);
            }
            let mm = am0 + k * rule.interval;
            if mm > 119987 {
                proof {
                    lemma_beyond_month_horizon(*rule, anchor as int, k as int, mm as int);
                }
                None
            } else {
                let y = mm / 12 + 1;
                let mo = mm % 12 + 1;
                let dim = crate::calendar::days_in_month(y, mo);
                let d = if rule.day_of_month <= dim {
                    rule.day_of_month
                } else {
                    dim
                };
                let di = crate::calendar::day_index(y, mo, d);
                proof {
                    lemma_mul_inequality(di as int, MAX_DAY_INDEX as int, 86400);
                    lemma_mul_nonnegative(di as int, 86400);
                }
                Some(di * 86400 + tod)
            }
        },
        Frequency::Yearly => {
            proof {
                lemma_mul_nonnegative(k as int, rule.interval as int);
                lemma_mul_inequality(k as int, 100000, rule.interval as int);
                lemma_mul_inequality(rule.interval as int, 0x7fffffff, 100000);
            }
            let y = ay + k * rule.interval;
            if y > 9999 {
                proof {
                    lemma_beyond_year_horizon(
                        civil_of(day_of_instant(anchor as int)).0 + (k as int) * (
                        rule.interval as int),
                        rule.month_of_year as int,
                        rule.day_of_month as int,
                    );
                }
                None
            } else {
                let mo = rule.month_of_year;
                let dim = crate::calendar::days_in_month(y, mo);
                let d = if rule.day_of_month <= dim {
                    rule.day_of_month
                } else {
                    dim
                };
                let di = crate::calendar::day_index(y, mo, d);
                proof {
                    lemma_mul_inequality(di as int, MAX_DAY_INDEX as int, 86400);
                    lemma_mul_nonnegative(di as int, 86400);
                }
                Some(di * 86400 + tod)
            }
        },
    }
}

/// Once the scan may stop at raw index `k`, no candidate from emission
/// index `since` on is emitted: candidates only grow.
proof fn lemma_no_more_emitted(c: CompiledRule, a: int, qs: int, qe: int, k: int, since: int)
    requires
        c.wf(),
        anchor_ok(a),
        qs <= qe,
        0 <= k,
        stops_at(c, a, qs, qe, k),
        since == (if k >= start_offset(c, a) {
            k - start_offset(c, a)
        } else {
            0int
        }),
    ensures
        forall|e: int| e >= since ==> !emitted(c, a, qs, qe, e),
{
    lemma_offset_correct(c, a);
    let off = start_offset(c, a);
    assert forall|e: int| e >= since implies !emitted(c, a, qs, qe, e) by {
        if e >= 0 {
            let kk = e + off;
            assert(kk >= k);
            if kk > k {
                lemma_raw_mono(c, a, k, kk);
            }
            let t = raw_candidate(c, a, kk);
            assert(t >= raw_candidate(c, a, k));
            assert(nth_candidate(c, a, e) == t);
            if raw_candidate(c, a, k) > qe {
                assert(!emitted(c, a, qs, qe, e));
            } else if (match c.end {
                EndCondition::EndDate(ed) => raw_candidate(c, a, k) > ed as int,
                _ => false,
            }) {
                assert(!within_end(c, t, e));
            } else {
                assert(match c.end {
                    EndCondition::EndOccurrences(n) => raw_candidate(c, a, k) >= a && k - off
                        >= n as int,
                    _ => false,
                });
                assert(k >= off);
                assert(e >= since >= (match c.end {
                    EndCondition::EndOccurrences(n) => n as int,
                    _ => 0int,
                }));
                assert(!within_end(c, t, e));
            }
        }
    }
}

/// When the scan stops at raw index `k`, what it has collected so far is
/// the complete result.
#[verifier::rlimit(30)]
proof fn lemma_scan_complete(
    c: CompiledRule,
    a: int,
    qs: int,
    qe: int,
    k: int,
    since: int,
    out: Seq<i64>,
    emap: Seq<int>,
)
    requires
        c.wf(),
        anchor_ok(a),
        qs <= qe,
        0 <= k,
        stops_at(c, a, qs, qe, k),
        since == (if k >= start_offset(c, a) {
            k - start_offset(c, a)
        } else {
            0int
        }),
        forall|i: int, j: int| 0 <= i < j < out.len() ==> out[i] < out[j],
        forall|i: int| 0 <= i < out.len() ==> qs <= #[trigger] out[i] as int <= qe,
        emap.len() == out.len(),
        forall|i: int| 0 <= i < emap.len() ==> 0 <= #[trigger] emap[i] < since,
        forall|i: int| 0 <= i < emap.len() ==> emitted(c, a, qs, qe, #[trigger] emap[i]),
        forall|i: int|
            0 <= i < emap.len() ==> out[i] as int == nth_candidate(c, a, #[trigger] emap[i]),
        forall|e: int|
            0 <= e < since && #[trigger] emitted(c, a, qs, qe, e) ==> value_present(
                c,
                a,
                out,
                e,
            ),
        out.len() <= since,
        (match c.end {
            EndCondition::EndOccurrences(n) => since <= n,
            _ => true,
        }),
    ensures
        generated_ok(c, a, qs, qe, out),
{
    lemma_no_more_emitted(c, a, qs, qe, k, since);
    assert forall|i: int| 0 <= i < out.len() implies value_emitted(
        c,
        a,
        qs,
        qe,
        #[trigger] out[i],
    ) by {
        let e = emap[i];
        assert(emitted(c, a, qs, qe, e) && out[i] as int == nth_candidate(c, a, e));
    }
    assert forall|e: int| #[trigger] emitted(c, a, qs, qe, e) implies value_present(
        c,
        a,
        out,
        e,
    ) by {
        assert(e < since);
        assert(0 <= e);
    }
}

/// Scans raw candidates in ascending order and collects every emitted one.
///
/// Returns `OverflowGuard` exactly when the scan cannot stop on its own
/// within `ITERATION_CAP` raw candidates; candidates before the query
/// start are examined (so the occurrence budget stays anchored at the
/// anchor) but not returned.
#[verifier::rlimit(30)]
pub fn generate_candidates(rule: &CompiledRule, anchor: i64, qs: i64, qe: i64) -> (r: Result<
    Vec<i64>,
    ExpansionError,
>)
    requires
        rule.wf(),
        anchor_ok(anchor as int),
        0 <= qs <= qe <= MAX_INSTANT,
    ensures
        (r matches Ok(v) ==> generated_ok(*rule, anchor as int, qs as int, qe as int, v@)),
        (r matches Ok(v) ==> v@.len() <= ITERATION_CAP),
        (r is Ok <==> exists|k: int|
            0 <= k < ITERATION_CAP && stops_at(*rule, anchor as int, qs as int, qe as int, k)),
        (r matches Err(e) ==> e == ExpansionError::OverflowGuard),
{
    let ghost c = *rule;
    let ghost a = anchor as int;
    let ghost iqs = qs as int;
    let ghost iqe = qe as int;
    let ghost off = start_offset(c, a);
    proof {
        lemma_offset_correct(c, a);
    }
    let anchor_civil = crate::calendar::civil_from_day_index(anchor / 86400);
    let ay = anchor_civil.0;
    let am = anchor_civil.1;
    let mut out: Vec<i64> = Vec::new();
    let ghost mut emap: Seq<int> = Seq::empty();
    let mut k: i64 = 0;
    let mut since: i64 = 0;
    loop
        invariant
            rule.wf(),
            anchor_ok(a),
            0 <= iqs <= iqe <= MAX_INSTANT,
            c == *rule,
            a == anchor as int,
            iqs == qs as int,
            iqe == qe as int,
            0 <= off,
            off == start_offset(c, a),
            ay as int == civil_of(day_of_instant(a)).0,
            am as int == civil_of(day_of_instant(a)).1,
            0 <= k <= ITERATION_CAP,
            since as int == (if k as int >= off {
                k as int - off
            } else {
                0int
            }),
            forall|kk: int| 0 <= kk < k as int ==> !stops_at(c, a, iqs, iqe, kk),
            forall|i: int, j: int| 0 <= i < j < out@.len() ==> out@[i] < out@[j],
            forall|i: int| 0 <= i < out@.len() ==> qs <= #[trigger] out@[i] <= qe,
            emap.len() == out@.len(),
            forall|i: int| 0 <= i < emap.len() ==> 0 <= #[trigger] emap[i] < since as int,
            forall|i: int|
                0 <= i < emap.len() ==> emitted(c, a, iqs, iqe, #[trigger] emap[i]),
            forall|i: int|
                0 <= i < emap.len() ==> out@[i] as int == nth_candidate(
                    c,
                    a,
                    #[trigger] emap[i],
                ),
            forall|e: int|
                0 <= e < since as int && #[trigger] emitted(c, a, iqs, iqe, e)
                    ==> value_present(c, a, out@, e),
            out@.len() <= since as int,
            (match c.end {
                EndCondition::EndOccurrences(n) => since <= n,
                _ => true,
            }),
        decreases ITERATION_CAP - k,
    {
        if k == ITERATION_CAP {
            return Err(ExpansionError::OverflowGuard);
        }
        let t_opt = raw_at(rule, anchor, ay, am, k);
        let t = match t_opt {
            Some(t) => t,
            None => {
                proof {
                    assert(stops_at(c, a, iqs, iqe, k as int));
                    lemma_scan_complete(c, a, iqs, iqe, k as int, since as int, out@, emap);
                }
                return Ok(out);
            },
        };
        assert(t as int == raw_candidate(c, a, k as int));
        if t > qe {
            proof {
                assert(stops_at(c, a, iqs, iqe, k as int));
                lemma_scan_complete(c, a, iqs, iqe, k as int, since as int, out@, emap);
            }
            return Ok(out);
        }
        let stop_date = match rule.end {
            EndCondition::EndDate(ed) => t > ed,
            _ => false,
        };
        if stop_date {
            proof {
                assert(stops_at(c, a, iqs, iqe, k as int));
                lemma_scan_complete(c, a, iqs, iqe, k as int, since as int, out@, emap);
            }
            return Ok(out);
        }
        if t < anchor {
            proof {
                assert(raw_candidate(c, a, k as int) < a);
                assert((k as int) < off);
                assert(!stops_at(c, a, iqs, iqe, k as int));
            }
            k = k + 1;
            continue;
        }
        proof {
            assert(raw_candidate(c, a, k as int) >= a);
            assert(k as int >= off);
        }
        let stop_count = match rule.end {
            EndCondition::EndOccurrences(n) => since >= n,
            _ => false,
        };
        if stop_count {
            proof {
                assert(stops_at(c, a, iqs, iqe, k as int));
                lemma_scan_complete(c, a, iqs, iqe, k as int, since as int, out@, emap);
            }
            return Ok(out);
        }
        proof {
            assert(!stops_at(c, a, iqs, iqe, k as int));
            assert(nth_candidate(c, a, since as int) == t as int);
        }
        if t >= qs {
            proof {
                assert(emitted(c, a, iqs, iqe, since as int));
                assert forall|i: int| 0 <= i < out@.len() implies out@[i] < t by {
                    lemma_raw_mono(c, a, emap[i] + off, k as int);
                }
            }
            let ghost old_out = out@;
            out.push(t);
            proof {
                emap = emap.push(since as int);
                assert forall|e: int|
                    0 <= e < since as int + 1 && #[trigger] emitted(c, a, iqs, iqe, e)
                        implies value_present(c, a, out@, e) by {
                    if e < since as int {
                        assert(value_present(c, a, old_out, e));
                        let i = choose|i: int|
                            #![trigger old_out[i]]
                            0 <= i < old_out.len() && old_out[i] as int == nth_candidate(
                                c,
                                a,
                                e,
                            );
                        assert(out@[i] as int == nth_candidate(c, a, e));
                    } else {
                        assert(out@[out@.len() - 1] as int == nth_candidate(c, a, e));
                    }
                }
            }
        } else {
            proof {
                assert(!emitted(c, a, iqs, iqe, since as int));
            }
        }
        since = since + 1;
        k = k + 1;
    }
}

/// A monthly candidate beyond month index 119987 lies beyond year 9999.
proof fn lemma_beyond_month_horizon(c: CompiledRule, a: int, k: int, mm: int)
    requires
        c.wf(),
        anchor_ok(a),
        c.frequency is Monthly,
        mm == month_index_of(
            civil_of(day_of_instant(a)).0,
            civil_of(day_of_instant(a)).1,
        ) + k * (c.interval as int),
        mm > 119987,
    ensures
        raw_candidate(c, a, k) > MAX_INSTANT,
{
    let y = mm / 12 + 1;
    let mo = mm % 12 + 1;
    assert(y >= 10000) by {
        lemma_div_is_ordered(119988, mm, 12);
    }
    lemma_mod_division_less_than_divisor(mm, 12);
    lemma_beyond_year_horizon(y, mo, c.day_of_month as int);
}

/// Any date in a year past 9999 has a day index past `MAX_DAY_INDEX`,
/// hence an instant past `MAX_INSTANT`.
proof fn lemma_beyond_year_horizon(y: int, mo: int, dom: int)
    requires
        y >= 10000,
        1 <= mo <= 12,
        1 <= dom,
    ensures
        day_index_of(y, mo, clamped_day_of(y, mo, dom)) * 86400 > MAX_INSTANT,
{
    let d = clamped_day_of(y, mo, dom);
    crate::calendar::lemma_days_before_year_mono(10000, y);
    assert(crate::calendar::days_before_year(10000) == 3652059);
    assert(day_index_of(y, mo, d) >= 3652059);
    lemma_mul_inequality(3652059, day_index_of(y, mo, d), 86400);
}

} // verus!
