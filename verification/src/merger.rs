//! Exception merging: candidates become occurrences, overrides applied.
//!
//! Each candidate instant is keyed by its calendar date. An exception row
//! whose `original_date` names that date either cancels the occurrence or
//! replaces single fields of it. Exceptions whose date key cannot be read
//! are skipped, and a modified timestamp that no grammar reads is ignored
//! field-wise; a single bad override never aborts an expansion. Where
//! several exceptions name one date, the first in the given order counts.
//!
//! The final list is ordered by effective start instant, ties broken by
//! candidate index.

use vstd::prelude::*;
use crate::calendar::{MAX_INSTANT, UNIX_EPOCH_OFFSET};
use crate::models::{Event, EventException, EventResponse};
use crate::rfc3339::{rfc3339_text, format_epoch_rfc3339};
use crate::timetext::{date_key_day, instant_of_text, parse_date_key, parse_instant};

verus! {

/// The mathematical content of an `EventResponse`.
#[verifier::ext_equal]
pub struct OccurrenceView {
    pub id: int,
    pub title: Seq<char>,
    pub description: Option<Seq<char>>,
    pub start_time: Seq<char>,
    pub end_time: Seq<char>,
    pub is_all_day: bool,
    pub location: Option<Seq<char>>,
    pub priority: int,
    pub category_id: Option<int>,
}

/// The view of an optional text.
pub open spec fn text_opt_view(s: Option<String>) -> Option<Seq<char>> {
    match s {
        Some(x) => Some(x@),
        None => None,
    }
}

/// The view of an optional identifier.
pub open spec fn id_opt_view(x: Option<i64>) -> Option<int> {
    match x {
        Some(v) => Some(v as int),
        None => None,
    }
}

impl View for EventResponse {
    type V = OccurrenceView;

    open spec fn view(&self) -> OccurrenceView {
        OccurrenceView {
            id: self.id as int,
            title: self.title@,
            description: text_opt_view(self.description),
            start_time: self.start_time@,
            end_time: self.end_time@,
            is_all_day: self.is_all_day,
            location: text_opt_view(self.location),
            priority: self.priority as int,
            category_id: id_opt_view(self.category_id),
        }
    }
}

/// The day index an exception row is keyed to, when its key is readable.
pub open spec fn exception_day(x: EventException) -> Option<int> {
    date_key_day(x.original_date@)
}

/// The first exception (from position `i` on) keyed to `day`.
pub open spec fn find_exception(excs: Seq<EventException>, day: int, i: int) -> Option<int>
    decreases excs.len() - i,
{
    if i < 0 || i >= excs.len() {
        None
    } else if exception_day(excs[i]) == Some(day) {
        Some(i)
    } else {
        find_exception(excs, day, i + 1)
    }
}

/// Whether the candidate at instant `t` is cancelled by an exception.
pub open spec fn cancelled_at(excs: Seq<EventException>, t: int) -> bool {
    match find_exception(excs, t / 86400, 0) {
        Some(i) => excs[i].is_cancelled,
        None => false,
    }
}

/// The effective start instant of the candidate at `t`: the exception's
/// readable modified start, else `t` itself. This is the sort key.
pub open spec fn sort_key_of(excs: Seq<EventException>, t: int) -> int {
    match find_exception(excs, t / 86400, 0) {
        Some(i) => match excs[i].modified_start_time {
            Some(s) => match instant_of_text(s@) {
                Some(ts) => ts,
                None => t,
            },
            None => t,
        },
        None => t,
    }
}

/// The occurrence built from the base event alone at candidate `t`.
pub open spec fn base_view_of(ev: Event, event_id: int, dur: int, t: int) -> OccurrenceView {
    OccurrenceView {
        id: event_id,
        title: ev.title@,
        description: text_opt_view(ev.description),
        start_time: rfc3339_text(t - UNIX_EPOCH_OFFSET),
        end_time: rfc3339_text(t + dur - UNIX_EPOCH_OFFSET),
        is_all_day: ev.is_all_day,
        location: text_opt_view(ev.location),
        priority: ev.priority as int,
        category_id: id_opt_view(ev.category_id),
    }
}

/// The occurrence built at candidate `t` under exception `x`: each
/// modified field replaces the base field for this one occurrence; a
/// modified timestamp no grammar reads falls back to the computed one.
pub open spec fn overridden_view_of(
    ev: Event,
    event_id: int,
    dur: int,
    x: EventException,
    t: int,
) -> OccurrenceView {
    OccurrenceView {
        id: event_id,
        title: match x.modified_title {
            Some(s) => s@,
            None => ev.title@,
        },
        description: match x.modified_description {
            Some(s) => Some(s@),
            None => text_opt_view(ev.description),
        },
        start_time: match x.modified_start_time {
            Some(s) => if instant_of_text(s@) is Some {
                s@
            } else {
                rfc3339_text(t - UNIX_EPOCH_OFFSET)
            },
            None => rfc3339_text(t - UNIX_EPOCH_OFFSET),
        },
        end_time: match x.modified_end_time {
            Some(s) => if instant_of_text(s@) is Some {
                s@
            } else {
                rfc3339_text(t + dur - UNIX_EPOCH_OFFSET)
            },
            None => rfc3339_text(t + dur - UNIX_EPOCH_OFFSET),
        },
        is_all_day: ev.is_all_day,
        location: match x.modified_location {
            Some(s) => Some(s@),
            None => text_opt_view(ev.location),
        },
        priority: ev.priority as int,
        category_id: id_opt_view(ev.category_id),
    }
}

/// The occurrence a surviving candidate at `t` materializes to.
pub open spec fn occurrence_view_of(
    ev: Event,
    event_id: int,
    dur: int,
    excs: Seq<EventException>,
    t: int,
) -> OccurrenceView {
    match find_exception(excs, t / 86400, 0) {
        Some(i) => overridden_view_of(ev, event_id, dur, excs[i], t),
        None => base_view_of(ev, event_id, dur, t),
    }
}

/// The `(sort key, candidate index)` pairs of the surviving candidates,
/// in candidate order.
pub open spec fn merge_pairs(excs: Seq<EventException>, cands: Seq<i64>) -> Seq<(i64, i64)>
    decreases cands.len(),
{
    if cands.len() == 0 {
        Seq::empty()
    } else {
        let init = merge_pairs(excs, cands.drop_last());
        if cancelled_at(excs, cands.last() as int) {
            init
        } else {
            init + seq![
                (sort_key_of(excs, cands.last() as int) as i64, (cands.len() - 1) as i64),
            ]
        }
    }
}

/// Ordering of occurrences: by effective start instant, then by
/// candidate index.
pub open spec fn pair_le(p: (i64, i64), q: (i64, i64)) -> bool {
    p.0 < q.0 || (p.0 == q.0 && p.1 <= q.1)
}

/// Inserts `p` behind every leading element that sorts at or before it.
pub open spec fn insert_pair(s: Seq<(i64, i64)>, p: (i64, i64)) -> Seq<(i64, i64)>
    decreases s.len(),
{
    if s.len() == 0 {
        seq![p]
    } else if pair_le(s[0], p) {
        seq![s[0]] + insert_pair(s.drop_first(), p)
    } else {
        seq![p] + s
    }
}

/// Insertion sort of the pairs, as a function.
pub open spec fn sort_pairs(s: Seq<(i64, i64)>) -> Seq<(i64, i64)>
    decreases s.len(),
{
    if s.len() == 0 {
        Seq::empty()
    } else {
        insert_pair(sort_pairs(s.drop_last()), s.last())
    }
}

/// Whether a pair sequence is sorted.
pub open spec fn pairs_sorted(s: Seq<(i64, i64)>) -> bool {
    forall|i: int, j: int| 0 <= i < j < s.len() ==> pair_le(s[i], s[j])
}

/// The fully merged, ordered occurrence list, as a function of the inputs.
pub open spec fn merged_views(
    ev: Event,
    event_id: int,
    dur: int,
    excs: Seq<EventException>,
    cands: Seq<i64>,
) -> Seq<OccurrenceView> {
    sort_pairs(merge_pairs(excs, cands)).map_values(
        |p: (i64, i64)| occurrence_view_of(ev, event_id, dur, excs, cands[p.1 as int] as int),
    )
}

/// `insert_pair` splits `s` at the first position whose element does not
/// sort at or before `p`.
proof fn lemma_insert_pair_at(s: Seq<(i64, i64)>, p: (i64, i64), j: int)
    requires
        0 <= j <= s.len(),
        forall|i: int| 0 <= i < j ==> pair_le(#[trigger] s[i], p),
        j < s.len() ==> !pair_le(s[j], p),
    ensures
        insert_pair(s, p) =~= s.subrange(0, j) + seq![p] + s.subrange(j, s.len() as int),
    decreases s.len(),
{
    if s.len() == 0 {
    } else if pair_le(s[0], p) {
        assert(j >= 1);
        let tail = s.drop_first();
        assert forall|i: int| 0 <= i < j - 1 implies pair_le(#[trigger] tail[i], p) by {
            assert(tail[i] == s[i + 1]);
        }
        assert(j - 1 < tail.len() ==> !pair_le(tail[j - 1], p));
        lemma_insert_pair_at(tail, p, j - 1);
        assert(insert_pair(s, p) =~= seq![s[0]] + insert_pair(tail, p));
    } else {
        assert(j == 0);
    }
}

/// Inserting keeps a sorted sequence sorted.
proof fn lemma_insert_pair_sorted(s: Seq<(i64, i64)>, p: (i64, i64))
    requires
        pairs_sorted(s),
    ensures
        pairs_sorted(insert_pair(s, p)),
        insert_pair(s, p).len() == s.len() + 1,
    decreases s.len(),
{
    if s.len() == 0 {
    } else if pair_le(s[0], p) {
        let tail = s.drop_first();
        assert forall|i: int, j: int| 0 <= i < j < tail.len() implies pair_le(
            tail[i],
            tail[j],
        ) by {
            assert(tail[i] == s[i + 1]);
            assert(tail[j] == s[j + 1]);
        }
        lemma_insert_pair_sorted(tail, p);
        let r = seq![s[0]] + insert_pair(tail, p);
        assert forall|i: int, j: int| 0 <= i < j < r.len() implies pair_le(r[i], r[j]) by {
            if i == 0 {
                lemma_insert_pair_elems(tail, p);
                let x = r[j];
                assert(insert_pair(tail, p)[j - 1] == x);
                assert(insert_pair(tail, p).contains(x));
                if x == p {
                    assert(pair_le(s[0], p));
                } else {
                    assert(tail.contains(x));
                    let ti = choose|ti: int| 0 <= ti < tail.len() && tail[ti] == x;
                    assert(tail[ti] == s[ti + 1]);
                    assert(pair_le(s[0], s[ti + 1]));
                }
            } else {
                assert(insert_pair(tail, p)[i - 1] == r[i]);
                assert(insert_pair(tail, p)[j - 1] == r[j]);
            }
        }
        assert(insert_pair(s, p) =~= r);
    } else {
        let r = seq![p] + s;
        assert forall|i: int, j: int| 0 <= i < j < r.len() implies pair_le(r[i], r[j]) by {
            if i == 0 {
                if j == 1 {
                    assert(r[j] == s[0]);
                    assert(!pair_le(s[0], p));
                    assert(pair_le(p, s[0]));
                } else {
                    assert(r[j] == s[j - 1]);
                    assert(pair_le(s[0], s[j - 1]));
                    assert(pair_le(p, s[0]));
                }
            } else {
                assert(r[i] == s[i - 1]);
                assert(r[j] == s[j - 1]);
            }
        }
        assert(insert_pair(s, p) =~= r);
    }
}

/// The elements after an insertion are the old ones and `p`.
proof fn lemma_insert_pair_elems(s: Seq<(i64, i64)>, p: (i64, i64))
    ensures
        insert_pair(s, p).len() == s.len() + 1,
        forall|x: (i64, i64)|
            #[trigger] insert_pair(s, p).contains(x) <==> (s.contains(x) || x == p),
    decreases s.len(),
{
    if s.len() == 0 {
        assert forall|x: (i64, i64)| #[trigger] insert_pair(s, p).contains(x) <==> (s.contains(
            x,
        ) || x == p) by {
            if insert_pair(s, p).contains(x) {
                assert(insert_pair(s, p)[0] == p);
            }
            if x == p {
                assert(insert_pair(s, p)[0] == x);
            }
        }
    } else if pair_le(s[0], p) {
        let tail = s.drop_first();
        lemma_insert_pair_elems(tail, p);
        let r = seq![s[0]] + insert_pair(tail, p);
        assert(insert_pair(s, p) =~= r);
        assert forall|x: (i64, i64)| #[trigger] insert_pair(s, p).contains(x) <==> (s.contains(
            x,
        ) || x == p) by {
            if insert_pair(s, p).contains(x) {
                let i = choose|i: int| 0 <= i < r.len() && r[i] == x;
                if i == 0 {
                    assert(s[0] == x);
                    assert(s.contains(x));
                } else {
                    assert(insert_pair(tail, p)[i - 1] == x);
                    assert(insert_pair(tail, p).contains(x));
                    if x != p {
                        assert(tail.contains(x));
                        let ti = choose|ti: int| 0 <= ti < tail.len() && tail[ti] == x;
                        assert(s[ti + 1] == x);
                        assert(s.contains(x));
                    }
                }
            }
            if s.contains(x) {
                let i = choose|i: int| 0 <= i < s.len() && s[i] == x;
                if i == 0 {
                    assert(r[0] == x);
                } else {
                    assert(tail[i - 1] == x);
                    assert(tail.contains(x));
                    assert(insert_pair(tail, p).contains(x));
                    let ri = choose|ri: int|
                        0 <= ri < insert_pair(tail, p).len() && insert_pair(tail, p)[ri] == x;
                    assert(r[ri + 1] == x);
                }
            }
            if x == p {
                assert(insert_pair(tail, p).contains(x));
                let ri = choose|ri: int|
                    0 <= ri < insert_pair(tail, p).len() && insert_pair(tail, p)[ri] == x;
                assert(r[ri + 1] == x);
            }
        }
    } else {
        let r = seq![p] + s;
        assert(insert_pair(s, p) =~= r);
        assert forall|x: (i64, i64)| #[trigger] insert_pair(s, p).contains(x) <==> (s.contains(
            x,
        ) || x == p) by {
            if insert_pair(s, p).contains(x) {
                let i = choose|i: int| 0 <= i < r.len() && r[i] == x;
                if i > 0 {
                    assert(s[i - 1] == x);
                    assert(s.contains(x));
                }
            }
            if s.contains(x) {
                let i = choose|i: int| 0 <= i < s.len() && s[i] == x;
                assert(r[i + 1] == x);
            }
            if x == p {
                assert(r[0] == x);
            }
        }
    }
}

/// Every merged pair points at a surviving candidate and carries its key.
pub proof fn lemma_merge_pairs_elems(excs: Seq<EventException>, cands: Seq<i64>)
    requires
        cands.len() <= 0x7fffffff,
    ensures
        merge_pairs(excs, cands).len() <= cands.len(),
        forall|x: (i64, i64)|
            #[trigger] merge_pairs(excs, cands).contains(x) ==> 0 <= x.1 < cands.len()
                && x.0 as int == sort_key_of(excs, cands[x.1 as int] as int)
                && !cancelled_at(excs, cands[x.1 as int] as int),
    decreases cands.len(),
{
    if cands.len() > 0 {
        let init = cands.drop_last();
        lemma_merge_pairs_elems(excs, init);
        assert forall|x: (i64, i64)|
            #[trigger] merge_pairs(excs, cands).contains(x) implies 0 <= x.1 < cands.len()
            && x.0 as int == sort_key_of(excs, cands[x.1 as int] as int) && !cancelled_at(
            excs,
            cands[x.1 as int] as int,
        ) by {
            let s = merge_pairs(excs, cands);
            let base = merge_pairs(excs, init);
            let i = choose|i: int| 0 <= i < s.len() && s[i] == x;
            if i < base.len() {
                assert(base[i] == x);
                assert(base.contains(x));
                assert(init[x.1 as int] == cands[x.1 as int]);
            } else {
                assert(!cancelled_at(excs, cands.last() as int));
                assert(x == (
                    sort_key_of(excs, cands.last() as int) as i64,
                    (cands.len() - 1) as i64,
                ));
            }
        }
    }
}

/// What sorting promises: same length, sorted, same elements.
pub proof fn lemma_sort_pairs_ensures(s: Seq<(i64, i64)>)
    ensures
        sort_pairs(s).len() == s.len(),
        pairs_sorted(sort_pairs(s)),
        forall|x: (i64, i64)| #[trigger] sort_pairs(s).contains(x) <==> s.contains(x),
    decreases s.len(),
{
    if s.len() > 0 {
        let init = s.drop_last();
        lemma_sort_pairs_ensures(init);
        lemma_insert_pair_sorted(sort_pairs(init), s.last());
        lemma_insert_pair_elems(sort_pairs(init), s.last());
        assert forall|x: (i64, i64)| #[trigger] sort_pairs(s).contains(x) <==> s.contains(
            x,
        ) by {
            if sort_pairs(s).contains(x) {
                if x == s.last() {
                    assert(s[s.len() - 1] == x);
                } else {
                    assert(init.contains(x));
                    let i = choose|i: int| 0 <= i < init.len() && init[i] == x;
                    assert(s[i] == x);
                }
            }
            if s.contains(x) {
                let i = choose|i: int| 0 <= i < s.len() && s[i] == x;
                if i < s.len() - 1 {
                    assert(init[i] == x);
                    assert(init.contains(x));
                }
            }
        }
    }
}

/// Finds the first exception keyed to `day`.
fn find_exception_ex(excs: &Vec<EventException>, day: i64) -> (r: Option<usize>)
    ensures
        (match r {
            Some(i) => 0 <= i < excs@.len() && find_exception(excs@, day as int, 0) == Some(
                i as int,
            ),
            None => find_exception(excs@, day as int, 0) is None,
        }),
{
    let mut j: usize = 0;
    while j < excs.len()
        invariant
            0 <= j <= excs@.len(),
            find_exception(excs@, day as int, 0) == find_exception(excs@, day as int, j as int),
        decreases excs@.len() - j,
    {
        match parse_date_key(excs[j].original_date.as_str()) {
            Some(d) => {
                if d == day {
                    proof {
                        assert(exception_day(excs@[j as int]) == Some(day as int));
                    }
                    return Some(j);
                }
            },
            None => {},
        }
        proof {
            assert(exception_day(excs@[j as int]) != Some(day as int));
        }
        j = j + 1;
    }
    None
}

/// Renders an instant as timestamp text.
fn format_instant(t: i64) -> (r: String)
    requires
        0 <= t <= 2 * MAX_INSTANT,
    ensures
        r@ == rfc3339_text(t - UNIX_EPOCH_OFFSET),
{
    match format_epoch_rfc3339(t - UNIX_EPOCH_OFFSET) {
        Some(s) => s,
        None => vstd::pervasive::unreached(),
    }
}

/// Copies an optional text.
fn clone_text_opt(s: &Option<String>) -> (r: Option<String>)
    ensures
        text_opt_view(r) == text_opt_view(*s),
{
    match s {
        Some(x) => Some(x.clone()),
        None => None,
    }
}

/// Materializes the occurrence of one surviving candidate.
fn build_occurrence(
    event: &Event,
    event_id: i64,
    duration: i64,
    exceptions: &Vec<EventException>,
    t: i64,
) -> (r: EventResponse)
    requires
        0 <= t <= MAX_INSTANT,
        0 <= duration <= MAX_INSTANT,
    ensures
        r@ == occurrence_view_of(
            *event,
            event_id as int,
            duration as int,
            exceptions@,
            t as int,
        ),
{
    let day = t / 86400;
    match find_exception_ex(exceptions, day) {
        None => EventResponse {
            id: event_id,
            title: event.title.clone(),
            description: clone_text_opt(&event.description),
            start_time: format_instant(t),
            end_time: format_instant(t + duration),
            is_all_day: event.is_all_day,
            location: clone_text_opt(&event.location),
            priority: event.priority,
            category_id: event.category_id,
        },
        Some(i) => {
            let x = &exceptions[i];
            let title = match &x.modified_title {
                Some(s) => s.clone(),
                None => event.title.clone(),
            };
            let description = match &x.modified_description {
                Some(s) => Some(s.clone()),
                None => clone_text_opt(&event.description),
            };
            let start_time = match &x.modified_start_time {
                Some(s) => match parse_instant(s.as_str()) {
                    Some(_) => s.clone(),
                    None => format_instant(t),
                },
                None => format_instant(t),
            };
            let end_time = match &x.modified_end_time {
                Some(s) => match parse_instant(s.as_str()) {
                    Some(_) => s.clone(),
                    None => format_instant(t + duration),
                },
                None => format_instant(t + duration),
            };
            let location = match &x.modified_location {
                Some(s) => Some(s.clone()),
                None => clone_text_opt(&event.location),
            };
            EventResponse {
                id: event_id,
                title,
                description,
                start_time,
                end_time,
                is_all_day: event.is_all_day,
                location,
                priority: event.priority,
                category_id: event.category_id,
            }
        },
    }
}

/// Builds the `(key, index)` pair of every surviving candidate.
fn merge_pairs_ex(exceptions: &Vec<EventException>, candidates: &Vec<i64>) -> (r: Vec<
    (i64, i64),
>)
    requires
        forall|i: int| 0 <= i < candidates@.len() ==> 0 <= #[trigger] candidates@[i]
            <= MAX_INSTANT,
        candidates@.len() <= 0x7fffffff,
    ensures
        r@ == merge_pairs(exceptions@, candidates@),
{
    let mut pairs: Vec<(i64, i64)> = Vec::new();
    let mut idx: usize = 0;
    while idx < candidates.len()
        invariant
            0 <= idx <= candidates@.len(),
            pairs@ == merge_pairs(exceptions@, candidates@.subrange(0, idx as int)),
        decreases candidates@.len() - idx,
    {
        let t = candidates[idx];
        let day = t / 86400;
        let ghost prefix = candidates@.subrange(0, idx as int);
        let ghost prefix1 = candidates@.subrange(0, idx as int + 1);
        proof {
            assert(prefix1.drop_last() =~= prefix);
            assert(prefix1.last() == candidates@[idx as int]);
        }
        match find_exception_ex(exceptions, day) {
            Some(i) => {
                if !exceptions[i].is_cancelled {
                    let key = match &exceptions[i].modified_start_time {
                        Some(s) => match parse_instant(s.as_str()) {
                            Some(ts) => ts,
                            None => t,
                        },
                        None => t,
                    };
                    proof {
                        assert(key as int == sort_key_of(exceptions@, t as int));
                    }
                    pairs.push((key, idx as i64));
                }
            },
            None => {
                proof {
                    assert(t as int == sort_key_of(exceptions@, t as int));
                }
                pairs.push((t, idx as i64));
            },
        }
        idx = idx + 1;
    }
    proof {
        assert(candidates@.subrange(0, candidates@.len() as int) =~= candidates@);
    }
    pairs
}

/// Decides the pair ordering.
fn pair_le_ex(q: (i64, i64), p: (i64, i64)) -> (r: bool)
    ensures
        r == pair_le(q, p),
{
    q.0 < p.0 || (q.0 == p.0 && q.1 <= p.1)
}

/// Sorts the pairs by key, then candidate index.
fn sort_pairs_ex(pairs: &Vec<(i64, i64)>) -> (r: Vec<(i64, i64)>)
    ensures
        r@ == sort_pairs(pairs@),
{
    let mut srt: Vec<(i64, i64)> = Vec::new();
    let mut i: usize = 0;
    while i < pairs.len()
        invariant
            0 <= i <= pairs@.len(),
            srt@ == sort_pairs(pairs@.subrange(0, i as int)),
        decreases pairs@.len() - i,
    {
        let p = pairs[i];
        let ghost prefix = pairs@.subrange(0, i as int);
        let ghost prefix1 = pairs@.subrange(0, i as int + 1);
        proof {
            assert(prefix1.drop_last() =~= prefix);
            assert(prefix1.last() == pairs@[i as int]);
        }
        let mut j: usize = 0;
        while j < srt.len() && pair_le_ex(srt[j], p)
            invariant
                0 <= j <= srt@.len(),
                forall|jj: int| 0 <= jj < j ==> pair_le(#[trigger] srt@[jj], p),
            decreases srt@.len() - j,
        {
            j = j + 1;
        }
        proof {
            assert(j < srt@.len() ==> !pair_le(srt@[j as int], p));
            lemma_insert_pair_at(srt@, p, j as int);
        }
        srt.insert(j, p);
        i = i + 1;
    }
    proof {
        assert(pairs@.subrange(0, pairs@.len() as int) =~= pairs@);
    }
    srt
}

/// Turns the surviving candidates into their occurrences, ordered by
/// effective start instant with ties broken by candidate index.
pub fn merge_occurrences(
    event: &Event,
    event_id: i64,
    duration: i64,
    exceptions: &Vec<EventException>,
    candidates: &Vec<i64>,
) -> (r: Vec<EventResponse>)
    requires
        0 <= duration <= MAX_INSTANT,
        forall|i: int| 0 <= i < candidates@.len() ==> 0 <= #[trigger] candidates@[i]
            <= MAX_INSTANT,
        candidates@.len() <= 0x7fffffff,
    ensures
        r@.len() == merged_views(
            *event,
            event_id as int,
            duration as int,
            exceptions@,
            candidates@,
        ).len(),
        forall|j: int|
            0 <= j < r@.len() ==> #[trigger] r@[j]@ == merged_views(
                *event,
                event_id as int,
                duration as int,
                exceptions@,
                candidates@,
            )[j],
{
    let ghost views = merged_views(
        *event,
        event_id as int,
        duration as int,
        exceptions@,
        candidates@,
    );
    let pairs = merge_pairs_ex(exceptions, candidates);
    let srt = sort_pairs_ex(&pairs);
    proof {
        lemma_merge_pairs_elems(exceptions@, candidates@);
        lemma_sort_pairs_ensures(pairs@);
    }
    let mut out: Vec<EventResponse> = Vec::new();
    let mut j: usize = 0;
    while j < srt.len()
        invariant
            0 <= j <= srt@.len(),
            srt@ == sort_pairs(merge_pairs(exceptions@, candidates@)),
            views == merged_views(
                *event,
                event_id as int,
                duration as int,
                exceptions@,
                candidates@,
            ),
            views.len() == srt@.len(),
            out@.len() == j,
            forall|jj: int| 0 <= jj < j ==> #[trigger] out@[jj]@ == views[jj],
            forall|x: (i64, i64)| #[trigger] srt@.contains(x) ==> 0 <= x.1 < candidates@.len(),
        decreases srt@.len() - j,
    {
        let p = srt[j];
        proof {
            assert(srt@.contains(srt@[j as int]));
        }
        let idx = p.1 as usize;
        let t = candidates[idx];
        let occ = build_occurrence(event, event_id, duration, exceptions, t);
        proof {
            assert(views[j as int] == occurrence_view_of(
                *event,
                event_id as int,
                duration as int,
                exceptions@,
                candidates@[p.1 as int] as int,
            ));
        }
        out.push(occ);
        j = j + 1;
    }
    out
}

} // verus!
