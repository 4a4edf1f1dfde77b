//! Proleptic Gregorian calendar arithmetic on plain integers.
//!
//! A calendar date is a `(year, month, day)` triple with years `1..=9999`.
//! A *day index* counts days from 0001-01-01 (day index 0). An *instant*
//! counts seconds from 0001-01-01T00:00:00 UTC. All recurrence arithmetic
//! in this crate is carried out on these integers.

use vstd::prelude::*;

verus! {

/// Day index of 9999-12-31, the last supported date.
pub const MAX_DAY_INDEX: i64 = 3652058;

/// Instant of 9999-12-31T23:59:59 UTC, the last supported instant.
pub const MAX_INSTANT: i64 = 315537897599;

/// Seconds from 0001-01-01T00:00:00 UTC to 1970-01-01T00:00:00 UTC.
pub const UNIX_EPOCH_OFFSET: i64 = 62135596800;

/// True exactly for leap years of the proleptic Gregorian calendar.
pub open spec fn is_leap_year(y: int) -> bool {
    y % 4 == 0 && (y % 100 != 0 || y % 400 == 0)
}

/// Number of days in month `m` of year `y` (`m` in `1..=12`).
pub open spec fn days_in_month_of(y: int, m: int) -> int {
    if m == 2 {
        if is_leap_year(y) {
            29
        } else {
            28
        }
    } else if m == 4 || m == 6 || m == 9 || m == 11 {
        30
    } else {
        31
    }
}

/// Days from January 1 of year `y` to the first day of month `m` of year `y`.
pub open spec fn days_before_month_of(y: int, m: int) -> int {
    let base: int = if m == 1 {
        0
    } else if m == 2 {
        31
    } else if m == 3 {
        59
    } else if m == 4 {
        90
    } else if m == 5 {
        120
    } else if m == 6 {
        151
    } else if m == 7 {
        181
    } else if m == 8 {
        212
    } else if m == 9 {
        243
    } else if m == 10 {
        273
    } else if m == 11 {
        304
    } else {
        334
    };
    base + if m >= 3 && is_leap_year(y) {
        1int
    } else {
        0int
    }
}

/// Number of leap years among years `1..y` (exclusive of `y`).
pub open spec fn leap_years_before(y: int) -> int {
    (y - 1) / 4 - (y - 1) / 100 + (y - 1) / 400
}

/// Days from 0001-01-01 to January 1 of year `y`.
pub open spec fn days_before_year(y: int) -> int {
    365 * (y - 1) + leap_years_before(y)
}

/// A well-formed date of the proleptic Gregorian calendar (any year from 1 on).
pub open spec fn proper_date(y: int, m: int, d: int) -> bool {
    1 <= y && 1 <= m <= 12 && 1 <= d <= days_in_month_of(y, m)
}

/// A calendar date this crate supports.
pub open spec fn valid_ymd(y: int, m: int, d: int) -> bool {
    proper_date(y, m, d) && y <= 9999
}

/// Days from 0001-01-01 to the date `(y, m, d)`.
pub open spec fn day_index_of(y: int, m: int, d: int) -> int {
    days_before_year(y) + days_before_month_of(y, m) + (d - 1)
}

/// Weekday of a day index, `0` = Sunday .. `6` = Saturday.
/// (0001-01-01 was a Monday.)
pub open spec fn weekday_of(di: int) -> int {
    (di + 1) % 7
}

/// A target day of month, clamped to the length of month `m` of year `y`.
pub open spec fn clamped_day_of(y: int, m: int, dom: int) -> int {
    if dom <= days_in_month_of(y, m) {
        dom
    } else {
        days_in_month_of(y, m)
    }
}

/// Decides whether `y` is a leap year.
pub fn leap_year(y: i64) -> (r: bool)
    ensures
        r == is_leap_year(y as int),
{
    y % 4 == 0 && (y % 100 != 0 || y % 400 == 0)
}

/// Number of days in month `m` of year `y`.
pub fn days_in_month(y: i64, m: i64) -> (r: i64)
    requires
        1 <= m <= 12,
    ensures
        r == days_in_month_of(y as int, m as int),
        28 <= r <= 31,
{
    if m == 2 {
        if leap_year(y) {
            29
        } else {
            28
        }
    } else if m == 4 || m == 6 || m == 9 || m == 11 {
        30
    } else {
        31
    }
}

/// Days from January 1 of year `y` to the first of month `m`.
pub fn days_before_month(y: i64, m: i64) -> (r: i64)
    requires
        1 <= m <= 12,
    ensures
        r == days_before_month_of(y as int, m as int),
        0 <= r <= 335,
{
    let base: i64 = if m == 1 {
        0
    } else if m == 2 {
        31
    } else if m == 3 {
        59
    } else if m == 4 {
        90
    } else if m == 5 {
        120
    } else if m == 6 {
        151
    } else if m == 7 {
        181
    } else if m == 8 {
        212
    } else if m == 9 {
        243
    } else if m == 10 {
        273
    } else if m == 11 {
        304
    } else {
        334
    };
    if m >= 3 && leap_year(y) {
        base + 1
    } else {
        base
    }
}

/// Days from 0001-01-01 to January 1 of year `y`.
pub fn days_before_year_ex(y: i64) -> (r: i64)
    requires
        1 <= y <= 10001,
    ensures
        r == days_before_year(y as int),
{
    365 * (y - 1) + (y - 1) / 4 - (y - 1) / 100 + (y - 1) / 400
}

/// Days from 0001-01-01 to the date `(y, m, d)`.
pub fn day_index(y: i64, m: i64, d: i64) -> (r: i64)
    requires
        valid_ymd(y as int, m as int, d as int),
    ensures
        r == day_index_of(y as int, m as int, d as int),
        0 <= r <= MAX_DAY_INDEX,
{
    proof {
        lemma_day_index_bounds(y as int, m as int, d as int);
    }
    days_before_year_ex(y) + days_before_month(y, m) + (d - 1)
}

/// Crossing from year `y` to `y + 1` adds 365 or 366 days.
pub proof fn lemma_days_before_year_step(y: int)
    requires
        1 <= y,
    ensures
        days_before_year(y + 1) == days_before_year(y) + 365 + (if is_leap_year(y) {
            1int
        } else {
            0int
        }),
{
    assert(y / 4 == (y - 1) / 4 + (if y % 4 == 0 { 1int } else { 0int }));
    assert(y / 100 == (y - 1) / 100 + (if y % 100 == 0 { 1int } else { 0int }));
    assert(y / 400 == (y - 1) / 400 + (if y % 400 == 0 { 1int } else { 0int }));
    assert(y % 400 == 0 ==> y % 100 == 0 && y % 4 == 0);
    assert(y % 100 == 0 ==> y % 4 == 0);
}

/// `days_before_year` grows with the year.
pub proof fn lemma_days_before_year_mono(y1: int, y2: int)
    requires
        1 <= y1 <= y2,
    ensures
        days_before_year(y1) + 365 * (y2 - y1) <= days_before_year(y2),
        days_before_year(y1) <= days_before_year(y2),
    decreases y2 - y1,
{
    if y1 < y2 {
        lemma_days_before_year_mono(y1, y2 - 1);
        lemma_days_before_year_step(y2 - 1);
    }
}

/// The month table is consistent with the month lengths.
pub proof fn lemma_days_before_month_step(y: int, m: int)
    requires
        1 <= m <= 11,
    ensures
        days_before_month_of(y, m + 1) == days_before_month_of(y, m) + days_in_month_of(y, m),
{
}

/// A date of year `y` has a day index inside year `y`.
pub proof fn lemma_day_index_year_span(y: int, m: int, d: int)
    requires
        proper_date(y, m, d),
    ensures
        days_before_year(y) <= day_index_of(y, m, d) < days_before_year(y + 1),
{
    lemma_days_before_year_step(y);
}

/// A supported date has a day index between 0 and `MAX_DAY_INDEX`.
pub proof fn lemma_day_index_bounds(y: int, m: int, d: int)
    requires
        valid_ymd(y, m, d),
    ensures
        days_before_year(y) <= day_index_of(y, m, d) < days_before_year(y + 1),
        0 <= day_index_of(y, m, d) <= MAX_DAY_INDEX,
{
    lemma_day_index_year_span(y, m, d);
    lemma_days_before_year_mono(1, y);
    lemma_days_before_year_mono(y + 1, 10000);
    assert(days_before_year(1) == 0);
    assert(days_before_year(10000) == 3652059);
}

/// Day indices respect the ordering of dates.
pub proof fn lemma_day_index_lex_mono(y1: int, m1: int, d1: int, y2: int, m2: int, d2: int)
    requires
        proper_date(y1, m1, d1),
        proper_date(y2, m2, d2),
        y1 < y2 || (y1 == y2 && m1 < m2) || (y1 == y2 && m1 == m2 && d1 < d2),
    ensures
        day_index_of(y1, m1, d1) < day_index_of(y2, m2, d2),
{
    if y1 < y2 {
        lemma_day_index_year_span(y1, m1, d1);
        lemma_day_index_year_span(y2, m2, d2);
        lemma_days_before_year_mono(y1 + 1, y2);
    } else if m1 < m2 {
        lemma_days_before_month_step(y1, m1);
        if m1 + 1 < m2 {
            lemma_days_before_month_mono(y1, m1 + 1, m2);
        }
    }
}

/// `days_before_month_of` grows with the month.
pub proof fn lemma_days_before_month_mono(y: int, ma: int, mb: int)
    requires
        1 <= ma <= mb <= 12,
    ensures
        days_before_month_of(y, ma) <= days_before_month_of(y, mb),
{
}

/// Two distinct well-formed dates have distinct day indices.
pub proof fn lemma_day_index_injective(y1: int, m1: int, d1: int, y2: int, m2: int, d2: int)
    requires
        proper_date(y1, m1, d1),
        proper_date(y2, m2, d2),
        day_index_of(y1, m1, d1) == day_index_of(y2, m2, d2),
    ensures
        y1 == y2 && m1 == m2 && d1 == d2,
{
    if y1 < y2 || (y1 == y2 && m1 < m2) || (y1 == y2 && m1 == m2 && d1 < d2) {
        lemma_day_index_lex_mono(y1, m1, d1, y2, m2, d2);
    } else if y2 < y1 || (y1 == y2 && m2 < m1) || (y1 == y2 && m1 == m2 && d2 < d1) {
        lemma_day_index_lex_mono(y2, m2, d2, y1, m1, d1);
    }
}

/// The date of a day index, as the unique valid triple that maps back to it.
pub open spec fn civil_of(di: int) -> (int, int, int) {
    choose|t: (int, int, int)|
        valid_ymd(t.0, t.1, t.2) && day_index_of(t.0, t.1, t.2) == di
}

/// A witness pins `civil_of` down.
pub proof fn lemma_civil_of_is(di: int, y: int, m: int, d: int)
    requires
        valid_ymd(y, m, d),
        day_index_of(y, m, d) == di,
    ensures
        civil_of(di) == (y, m, d),
{
    let t = (y, m, d);
    assert(valid_ymd(t.0, t.1, t.2) && day_index_of(t.0, t.1, t.2) == di);
    let c = civil_of(di);
    lemma_day_index_injective(c.0, c.1, c.2, y, m, d);
}

/// Every day index between 0 and `MAX_DAY_INDEX` belongs to some supported date.
pub proof fn lemma_civil_exists(di: int)
    requires
        0 <= di <= MAX_DAY_INDEX,
    ensures
        exists|t: (int, int, int)|
            valid_ymd(t.0, t.1, t.2) && day_index_of(t.0, t.1, t.2) == di,
    decreases di,
{
    if di == 0 {
        let w: (int, int, int) = (1, 1, 1);
        assert(valid_ymd(w.0, w.1, w.2) && day_index_of(w.0, w.1, w.2) == di);
    } else {
        lemma_civil_exists(di - 1);
        let t = choose|t: (int, int, int)|
            valid_ymd(t.0, t.1, t.2) && day_index_of(t.0, t.1, t.2) == di - 1;
        let y = t.0;
        let m = t.1;
        let d = t.2;
        if d < days_in_month_of(y, m) {
            let w: (int, int, int) = (y, m, d + 1);
            assert(valid_ymd(w.0, w.1, w.2) && day_index_of(w.0, w.1, w.2) == di);
        } else if m < 12 {
            lemma_days_before_month_step(y, m);
            let w: (int, int, int) = (y, m + 1, 1);
            assert(valid_ymd(w.0, w.1, w.2) && day_index_of(w.0, w.1, w.2) == di);
        } else {
            lemma_days_before_year_step(y);
            assert(day_index_of(y + 1, 1, 1) == di);
            if y == 9999 {
                assert(days_before_year(10000) == 3652059);
                assert(!is_leap_year(9999));
                assert(false);
            }
            let w: (int, int, int) = (y + 1, 1, 1);
            assert(valid_ymd(w.0, w.1, w.2) && day_index_of(w.0, w.1, w.2) == di);
        }
    }
}

/// `civil_of` of an in-range day index is a supported date with that index.
pub proof fn lemma_civil_of_in_range(di: int)
    requires
        0 <= di <= MAX_DAY_INDEX,
    ensures
        valid_ymd(civil_of(di).0, civil_of(di).1, civil_of(di).2),
        day_index_of(civil_of(di).0, civil_of(di).1, civil_of(di).2) == di,
{
    lemma_civil_exists(di);
}

/// Date of the day index `di`: the inverse of `day_index`.
pub fn civil_from_day_index(di: i64) -> (r: (i64, i64, i64))
    requires
        0 <= di <= MAX_DAY_INDEX,
    ensures
        valid_ymd(r.0 as int, r.1 as int, r.2 as int),
        day_index_of(r.0 as int, r.1 as int, r.2 as int) == di,
        civil_of(di as int) == (r.0 as int, r.1 as int, r.2 as int),
{
    let mut y: i64 = 1 + di / 366;
    proof {
        let k = (di / 366) as int;
        assert(days_before_year(1 + k) == 365 * k + leap_years_before(1 + k));
        assert(leap_years_before(1 + k) == k / 4 - k / 100 + k / 400);
        assert(k / 4 - k / 100 + k / 400 <= k) by {
            assert(k / 4 <= k);
            assert(k / 400 <= k / 100) by {
                lemma_div_constant_mono(k, 400, 100);
            }
        }
        assert(366 * k <= di);
        assert(days_before_year(y as int) <= di);
        lemma_days_before_year_mono(1, 1 + k);
        assert(y <= 9999) by {
            if y as int > 9999 {
                lemma_days_before_year_mono(10000, y as int);
                assert(days_before_year(10000) == 3652059);
            }
        }
    }
    while days_before_year_ex(y + 1) <= di
        invariant
            1 <= y <= 9999,
            days_before_year(y as int) <= di,
        decreases 9999 - y,
    {
        proof {
            if y as int + 1 > 9999 {
                assert(days_before_year(10000) == 3652059);
            }
        }
        y = y + 1;
    }
    let doy = di - days_before_year_ex(y);
    proof {
        lemma_days_before_year_step(y as int);
    }
    let mut m: i64 = 1;
    while m < 12 && days_before_month(y, m + 1) <= doy
        invariant
            1 <= m <= 12,
            1 <= y <= 9999,
            days_before_month_of(y as int, m as int) <= doy,
            doy == di - days_before_year(y as int),
            days_before_year(y as int) <= di,
            di < days_before_year(y as int + 1),
        decreases 12 - m,
    {
        m = m + 1;
    }
    proof {
        lemma_days_before_year_step(y as int);
        if m < 12 {
            lemma_days_before_month_step(y as int, m as int);
        }
    }
    let d = doy - days_before_month(y, m) + 1;
    proof {
        lemma_civil_of_is(
            di as int,
            y as int,
            m as int,
            d as int,
        );
    }
    (y, m, d)
}

/// Division by a larger positive constant gives a smaller quotient.
proof fn lemma_div_constant_mono(k: int, a: int, b: int)
    requires
        0 <= k,
        0 < b <= a,
    ensures
        k / a <= k / b,
{
    vstd::arithmetic::div_mod::lemma_div_is_ordered_by_denominator(k, b, a);
}

/// Weekday of a day index, `0` = Sunday .. `6` = Saturday.
pub fn weekday(di: i64) -> (r: i64)
    requires
        0 <= di <= MAX_DAY_INDEX,
    ensures
        r == weekday_of(di as int),
        0 <= r <= 6,
{
    (di + 1) % 7
}

} // verus!
