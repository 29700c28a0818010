//! Calendar arithmetic and the per-month day-validity set.

use vstd::prelude::*;

use crate::timepoint::{TimePoint, MAX_YEAR};
use chrono::Datelike;

verus! {

/// A parsed five-field schedule: for every unit the sorted, deduplicated
/// set of admitted values. `dom` or `dow` may be empty when the cron
/// union convention ignores that source (a `*` field next to a restricted
/// partner field).
#[derive(Debug)]
pub struct Schedule {
    pub minutes: Vec<i32>,
    pub hours: Vec<i32>,
    pub dom: Vec<i32>,
    pub months: Vec<i32>,
    pub dow: Vec<i32>,
}

/// Strictly ascending: sorted with no duplicates.
pub open spec fn sorted_strict(v: Seq<i32>) -> bool {
    forall|i: int, j: int| #![trigger v[i], v[j]] 0 <= i < j < v.len() ==> v[i] < v[j]
}

/// Every element lies in the inclusive range `lo ..= hi`.
pub open spec fn all_in(v: Seq<i32>, lo: int, hi: int) -> bool {
    forall|i: int| 0 <= i < v.len() ==> lo <= #[trigger] v[i] <= hi
}

impl Schedule {
    /// Well-formedness: each unit's values sorted, deduplicated and in
    /// domain; minute, hour and month sets never empty.
    pub open spec fn wf(self) -> bool {
        &&& sorted_strict(self.minutes@) && all_in(self.minutes@, 0, 59) && self.minutes@.len()
            > 0
        &&& sorted_strict(self.hours@) && all_in(self.hours@, 0, 23) && self.hours@.len() > 0
        &&& sorted_strict(self.months@) && all_in(self.months@, 1, 12) && self.months@.len() > 0
        &&& sorted_strict(self.dom@) && all_in(self.dom@, 1, 31)
        &&& sorted_strict(self.dow@) && all_in(self.dow@, 0, 6)
    }
}

/// A leap year: divisible by four, except century years not divisible by
/// four hundred.
pub open spec fn spec_is_leap(y: int) -> bool {
    y % 4 == 0 && (y % 100 != 0 || y % 400 == 0)
}

pub fn is_leap_year(year: i32) -> (r: bool)
    requires
        year >= 0,
    ensures
        r == spec_is_leap(year as int),
{
    (year % 4 == 0) && (year % 100 != 0 || year % 400 == 0)
}

/// Number of days of the given month, leap years accounted for.
pub open spec fn spec_days_in_month(y: int, m: int) -> int {
    if m == 2 {
        if spec_is_leap(y) {
            29
        } else {
            28
        }
    } else if m == 4 || m == 6 || m == 9 || m == 11 {
        30
    } else {
        31
    }
}

pub fn days_in_month(year: i32, month: i32) -> (r: i32)
    requires
        year >= 0,
    ensures
        r as int == spec_days_in_month(year as int, month as int),
{
    match month {
        2 => {
            if is_leap_year(year) {
                29
            } else {
                28
            }
        },
        4 | 6 | 9 | 11 => 30,
        _ => 31,
    }
}

/// Days-from-Monday of the first day of the given month; what the
/// calendar library computes for that date. A pure function of year and
/// month.
pub uninterp spec fn first_weekday(y: int, m: int) -> int;

/// Relies on `chrono::NaiveDate::from_ymd_opt`, `Datelike::weekday` and
/// `Weekday::num_days_from_monday`: the weekday of the first day of the
/// month, a value below seven that depends on year and month alone.
/// `from_ymd_opt` returns `Some` for every in-range date, which the
/// bounds on `year` guarantee.
#[verifier::external_body]
pub fn month_first_weekday(year: i32, month: i32) -> (r: i32)
    requires
        1 <= year <= 262_000,
        1 <= month <= 12,
    ensures
        r as int == first_weekday(year as int, month as int),
        0 <= r < 7,
{
    chrono::NaiveDate::from_ymd_opt(year, month as u32, 1)
        .unwrap()
        .weekday()
        .num_days_from_monday() as i32
}

/// The scheduled day-of-week value (cron numbering, Sunday = 0) that day
/// `d` of month (`y`, `m`) carries. Derived from the weekday of the
/// first of the month: day `d` is `d - 1` days later.
pub open spec fn dow_value(y: int, m: int, d: int) -> int {
    (d + first_weekday(y, m)) % 7
}

/// Day `d` is a valid execution day of month (`y`, `m`): the month is
/// scheduled, the day exists in that month, and either the day-of-month
/// set or the day-of-week set admits it.
pub open spec fn day_ok(s: Schedule, y: int, m: int, d: int) -> bool {
    &&& s.months@.contains(m as i32)
    &&& 1 <= d <= spec_days_in_month(y, m)
    &&& (s.dom@.contains(d as i32) || s.dow@.contains(dow_value(y, m, d) as i32))
}

/// The month (`y`, `m`) admits no day at all.
pub open spec fn no_valid_day(s: Schedule, y: int, m: int) -> bool {
    forall|d: int| !#[trigger] day_ok(s, y, m, d)
}

/// The year that month index `mi` falls in (the inverse of
/// [`TimePoint::month_index`]).
pub open spec fn ym_year(mi: int) -> int {
    (mi - 1) / 12
}

/// The month (one to twelve) that month index `mi` names.
pub open spec fn ym_month(mi: int) -> int {
    mi - 12 * ((mi - 1) / 12)
}

/// Month indices decompose uniquely into year and month.
pub proof fn lemma_ym(y: int, m: int)
    requires
        1 <= m <= 12,
        y >= 0,
    ensures
        ym_year(y * 12 + m) == y,
        ym_month(y * 12 + m) == m,
{
    assert((y * 12 + (m - 1)) / 12 == y) by (nonlinear_arith)
        requires
            0 <= m - 1 < 12,
            y >= 0,
    ;
}

/// The month at index `mi` admits no day at all.
pub open spec fn month_empty(s: Schedule, mi: int) -> bool {
    no_valid_day(s, ym_year(mi), ym_month(mi))
}

/// A whole bounded forward scan of months, starting at index `mi0`,
/// admits no day: the calendar-impossibility witness of an
/// unsatisfiable expression.
pub open spec fn unsat_window(s: Schedule, mi0: int) -> bool {
    forall|mi: int| mi0 <= mi <= (ym_year(mi0) + 5) * 12 + 1 ==> #[trigger] month_empty(s, mi)
}

/// `days` is the day-validity set of month (`y`, `m`): ascending,
/// deduplicated, and admitting exactly the days [`day_ok`] admits.
pub open spec fn day_set_for(s: Schedule, y: int, m: int, days: Seq<i32>) -> bool {
    &&& sorted_strict(days)
    &&& all_in(days, 1, 31)
    &&& forall|d: i32| #[trigger] days.contains(d) ==> day_ok(s, y, m, d as int)
    &&& forall|d: i32| #[trigger] day_ok(s, y, m, d as int) ==> days.contains(d)
}

/// In an ascending list the first element is the least.
pub proof fn lemma_sorted_min(v: Seq<i32>, x: i32)
    requires
        sorted_strict(v),
        v.contains(x),
        v.len() > 0,
    ensures
        x >= v[0],
{
    let w = choose|w: int| 0 <= w < v.len() && v[w] == x;
    if w > 0 {
        assert(v[0] < v[w]);
    }
}

/// Month indices decompose uniquely: equal indices with months in
/// range force equal years and months.
pub proof fn lemma_month_index_unique(a: TimePoint, b: TimePoint)
    requires
        a.month_index() == b.month_index(),
        1 <= a.month <= 12,
        1 <= b.month <= 12,
    ensures
        a.year == b.year,
        a.month == b.month,
{
    if a.year < b.year {
        assert(a.year * 12 + a.month <= (b.year - 1) * 12 + 12) by (nonlinear_arith)
            requires
                a.year <= b.year - 1,
                a.month <= 12,
        ;
        assert(b.year * 12 + b.month >= b.year * 12 + 1);
    } else if b.year < a.year {
        assert(b.year * 12 + b.month <= (a.year - 1) * 12 + 12) by (nonlinear_arith)
            requires
                b.year <= a.year - 1,
                b.month <= 12,
        ;
        assert(a.year * 12 + a.month >= a.year * 12 + 1);
    }
}

/// An element of a bounded list is bounded.
pub proof fn lemma_contained_bound(v: Seq<i32>, lo: int, hi: int, x: i32)
    requires
        all_in(v, lo, hi),
        v.contains(x),
    ensures
        lo <= x <= hi,
{
    let w = choose|w: int| 0 <= w < v.len() && v[w] == x;
    assert(lo <= v[w] <= hi);
}

/// Linear membership test.
pub fn contains_val(v: &Vec<i32>, x: i32) -> (r: bool)
    ensures
        r == v@.contains(x),
{
    let mut i: usize = 0;
    while i < v.len()
        invariant
            0 <= i <= v@.len(),
            forall|j: int| 0 <= j < i ==> v@[j] != x,
        decreases v@.len() - i,
    {
        if v[i] == x {
            return true;
        }
        i += 1;
    }
    false
}

/// The next scheduled value strictly after `unit`, or — wrapping — the
/// smallest scheduled value together with an overflow flag.
pub fn get_next(values: &Vec<i32>, unit: i32) -> (r: (i32, bool))
    requires
        values@.len() > 0,
        sorted_strict(values@),
    ensures
        values@.contains(r.0),
        r.1 == !(exists|i: int| 0 <= i < values@.len() && values@[i] > unit),
        !r.1 ==> r.0 > unit && (forall|i: int|
            0 <= i < values@.len() && #[trigger] values@[i] > unit ==> r.0 <= values@[i]),
        r.1 ==> r.0 == values@[0],
{
    let mut i: usize = 0;
    while i < values.len()
        invariant
            values@.len() > 0,
            sorted_strict(values@),
            0 <= i <= values@.len(),
            forall|j: int| 0 <= j < i ==> #[trigger] values@[j] <= unit,
        decreases values@.len() - i,
    {
        if values[i] > unit {
            assert forall|j: int|
                0 <= j < values@.len() && #[trigger] values@[j] > unit implies values@[i as int]
                <= values@[j] by {
                if j < i as int {
                    assert(values@[j] <= unit);
                } else if j > i as int {
                    assert(values@[i as int] < values@[j]);
                }
            }
            return (values[i], false);
        }
        i += 1;
    }
    (values[0], true)
}

/// Advance to the first instant of the following month. The minute is
/// set one below zero so that a later minute search may still pick
/// minute zero itself.
pub fn next_month(time: TimePoint) -> (r: TimePoint)
    requires
        1 <= time.month <= 12,
        time.year < MAX_YEAR + 32,
    ensures
        r.month_index() == time.month_index() + 1,
        1 <= r.month <= 12,
        time.year <= r.year <= time.year + 1,
        r.day == 1 && r.hour == 0 && r.minute == -1,
{
    let mut time = time;
    if time.month == 12 {
        time.year = time.year + 1;
        time.month = 0;
    }
    time.month = time.month + 1;
    time.day = 1;
    time.hour = 0;
    time.minute = -1;
    time
}

/// The sorted, deduplicated day-validity set of month (`year`, `month`):
/// exactly the days that [`day_ok`] admits, merging the day-of-month
/// values and the day-of-week projection.
pub fn adjust_days_to_month(s: &Schedule, year: i32, month: i32) -> (days: Vec<i32>)
    requires
        s.wf(),
        1 <= month <= 12,
        1 <= year <= MAX_YEAR + 32,
    ensures
        day_set_for(*s, year as int, month as int, days@),
{
    let mut days: Vec<i32> = Vec::new();
    if !contains_val(&s.months, month) {
        assert(forall|d: i32| !#[trigger] day_ok(*s, year as int, month as int, d as int));
        assert(forall|d: i32| !#[trigger] days@.contains(d));
        return days;
    }
    let f = month_first_weekday(year, month);
    let dim = days_in_month(year, month);
    let mut d: i32 = 1;
    while d <= dim
        invariant
            s.wf(),
            1 <= month <= 12,
            1 <= year <= MAX_YEAR + 32,
            s.months@.contains(month),
            0 <= f < 7,
            f as int == first_weekday(year as int, month as int),
            dim as int == spec_days_in_month(year as int, month as int),
            1 <= d <= dim + 1,
            sorted_strict(days@),
            all_in(days@, 1, 31),
            forall|i: int| 0 <= i < days@.len() ==> #[trigger] days@[i] < d,
            forall|x: i32| days@.contains(x) <==> (#[trigger] day_ok(
                *s,
                year as int,
                month as int,
                x as int,
            ) && x < d),
        decreases dim + 1 - d,
    {
        let dow_hit = contains_val(&s.dow, (d + f) % 7);
        proof {
            assert((d + f) % 7 == dow_value(year as int, month as int, d as int));
        }
        if contains_val(&s.dom, d) || dow_hit {
            let ghost old_days = days@;
            days.push(d);
            assert(days@ == old_days.push(d));
            assert forall|x: i32| old_days.contains(x) implies days@.contains(x) by {
                let idx = choose|i: int| 0 <= i < old_days.len() && old_days[i] == x;
                assert(days@[idx] == x);
            }
            assert(days@.contains(d)) by {
                assert(days@[days@.len() - 1] == d);
            }
            assert(forall|x: i32| days@.contains(x) ==> old_days.contains(x) || x == d);
            assert(day_ok(*s, year as int, month as int, d as int));
        }
        d += 1;
    }
    proof {
        assert forall|x: i32| #[trigger] days@.contains(x) implies day_ok(
            *s,
            year as int,
            month as int,
            x as int,
        ) by {}
        assert forall|x: i32| #[trigger] day_ok(*s, year as int, month as int, x as int) implies
            days@.contains(x) by {
            assert(x <= dim);
        }
    }
    days
}

} // verus!
