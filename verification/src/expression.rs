//! Five-field calendar expressions and their next occurrence.

use vstd::prelude::*;

use crate::errors::CronError;
use crate::helpers::{
    adjust_days_to_month, all_in, contains_val, day_ok, day_set_for, dow_value, get_next,
    lemma_contained_bound, lemma_ym, month_empty, next_month, no_valid_day, sorted_strict,
    unsat_window, ym_month, ym_year, Schedule,
};
use crate::timepoint::{TimePoint, MAX_YEAR};
use crate::unit::{
    first_index_of, is_field_unit, spec_hi, spec_lo, spec_range_values, spec_to_num, Unit,
};

verus! {

// ---------------------------------------------------------------------
// field-level parsing specification
// ---------------------------------------------------------------------
/// A field split at every comma; empty segments are kept (and later
/// rejected, since an empty segment denotes no value set).
pub open spec fn spec_split_commas(s: Seq<char>) -> Seq<Seq<char>>
    decreases s.len(),
    via spec_split_commas_decreases
{
    let k = first_index_of(s, ',');
    if k == -1 {
        seq![s]
    } else {
        seq![s.subrange(0, k)] + spec_split_commas(s.skip(k + 1))
    }
}

#[via_fn]
proof fn spec_split_commas_decreases(s: Seq<char>) {
    crate::unit::lemma_first_index_of(s, ',');
}

/// Every comma-separated segment of the field denotes a value set.
pub open spec fn field_parses(u: Unit, f: Seq<char>) -> bool {
    forall|i: int|
        0 <= i < spec_split_commas(f).len() ==> spec_range_values(
            u,
            #[trigger] spec_split_commas(f)[i],
        ) is Some
}

/// The union of the value sets of the field's segments admits `x`.
pub open spec fn field_contains(u: Unit, f: Seq<char>, x: i32) -> bool {
    exists|i: int|
        0 <= i < spec_split_commas(f).len() && spec_range_values(
            u,
            #[trigger] spec_split_commas(f)[i],
        ) is Some && spec_range_values(u, spec_split_commas(f)[i]).unwrap().contains(x)
}

/// The field is the single unconstrained token `*`.
pub open spec fn is_star(f: Seq<char>) -> bool {
    f.len() == 1 && f[0] == '*'
}

// ---------------------------------------------------------------------
// splitting and merging executable code
// ---------------------------------------------------------------------
/// Split a field at every comma.
fn split_commas(f: &[char]) -> (r: Vec<Vec<char>>)
    ensures
        r@.len() == spec_split_commas(f@).len(),
        forall|i: int| 0 <= i < r@.len() ==> #[trigger] r@[i]@ == spec_split_commas(f@)[i],
    decreases f@.len(),
{
    match crate::unit::find_char(f, ',') {
        None => {
            let mut r: Vec<Vec<char>> = Vec::new();
            r.push(vstd::slice::slice_to_vec(f));
            r
        },
        Some(k) => {
            let n = f.len();
            let head = vstd::slice::slice_to_vec(vstd::slice::slice_subrange(f, 0, k));
            let tail = vstd::slice::slice_subrange(f, k + 1, n);
            proof {
                assert(tail@ =~= f@.skip(k + 1));
            }
            let mut rest = split_commas(tail);
            let ghost rest_snap = rest@;
            rest.insert(0, head);
            proof {
                assert(rest@[0]@ =~= f@.subrange(0, k as int));
                assert(spec_split_commas(f@) =~= seq![f@.subrange(0, k as int)]
                    + spec_split_commas(f@.skip(k + 1)));
                assert(forall|i: int|
                    0 < i < rest@.len() ==> #[trigger] rest@[i] == rest_snap[i - 1]);
            }
            rest
        },
    }
}

/// Insert `x` into an ascending, duplicate-free list, keeping it so.
fn insert_sorted_unique(v: &mut Vec<i32>, x: i32)
    requires
        sorted_strict(old(v)@),
    ensures
        sorted_strict(final(v)@),
        forall|y: i32| final(v)@.contains(y) <==> (old(v)@.contains(y) || y == x),
        final(v)@.len() > 0,
{
    let mut idx: usize = 0;
    while idx < v.len() && v[idx] < x
        invariant
            sorted_strict(v@),
            0 <= idx <= v@.len(),
            forall|j: int| 0 <= j < idx ==> #[trigger] v@[j] < x,
        decreases v@.len() - idx,
    {
        idx += 1;
    }
    if idx < v.len() && v[idx] == x {
        proof {
            assert(v@.contains(x)) by {
                assert(v@[idx as int] == x);
            }
        }
        return;
    }
    let ghost pre = v@;
    v.insert(idx, x);
    proof {
        assert(v@ =~= pre.subrange(0, idx as int) + seq![x] + pre.subrange(
            idx as int,
            pre.len() as int,
        )) by {
            assert(v@ == pre.insert(idx as int, x));
        }
        // order around the insertion point
        assert(forall|j: int| 0 <= j < idx ==> #[trigger] pre[j] < x);
        assert(forall|j: int| idx <= j < pre.len() ==> #[trigger] pre[j] > x) by {
            if idx < pre.len() {
                assert(pre[idx as int] >= x);
                assert(pre[idx as int] != x) by {
                    if pre[idx as int] == x {
                        assert(pre.contains(x)) by {
                            assert(pre[idx as int] == x);
                        }
                    }
                }
            }
        }
        assert forall|i: int, j: int| 0 <= i < j < v@.len() implies v@[i] < v@[j] by {
            if j < idx {
            } else if i > idx {
            } else {
            }
        }
        assert forall|y: i32| v@.contains(y) implies (pre.contains(y) || y == x) by {
            let w = choose|w: int| 0 <= w < v@.len() && v@[w] == y;
            if w < idx {
                assert(pre[w] == y);
            } else if w > idx {
                assert(pre[w - 1] == y);
            }
        }
        assert forall|y: i32| (pre.contains(y) || y == x) implies v@.contains(y) by {
            if y == x {
                assert(v@[idx as int] == x);
            } else {
                let w = choose|w: int| 0 <= w < pre.len() && pre[w] == y;
                if w < idx {
                    assert(v@[w] == y);
                } else {
                    assert(v@[w + 1] == y);
                }
            }
        }
        assert(v@.contains(x)) by {
            assert(v@[idx as int] == x);
        }
    }
}

/// Properties of every value set a segment can denote: ascending,
/// deduplicated, inside the unit's domain and never empty.
pub proof fn lemma_range_values_props(u: Unit, s: Seq<char>)
    requires
        is_field_unit(u),
        spec_range_values(u, s) is Some,
    ensures
        sorted_strict(spec_range_values(u, s).unwrap()),
        all_in(spec_range_values(u, s).unwrap(), spec_lo(u), spec_hi(u)),
        spec_range_values(u, s).unwrap().len() > 0,
{
    let lo = spec_lo(u);
    let hi = spec_hi(u);
    let vals = spec_range_values(u, s).unwrap();
    if s.len() == 1 && s[0] == '*' {
        crate::unit::lemma_step_seq_props(lo, hi, 1);
    } else if first_index_of(s, '/') != -1 {
        let k = first_index_of(s, '/');
        let base = s.subrange(0, k);
        let steps = s.subrange(k + 1, s.len() as int);
        let st = crate::unit::spec_parse_num(steps).unwrap();
        if base.len() == 1 && base[0] == '*' {
            crate::unit::lemma_step_seq_props(lo, hi, st);
        } else {
            let m = first_index_of(base, '-');
            let l = crate::unit::spec_parse_num(base.subrange(0, m)).unwrap();
            let r = crate::unit::spec_parse_num(base.subrange(m + 1, base.len() as int)).unwrap();
            crate::unit::lemma_step_seq_props(l, r, st);
            assert(all_in(vals, l, r));
            assert forall|i: int| 0 <= i < vals.len() implies lo <= #[trigger] vals[i] <= hi by {
                assert(l <= vals[i] <= r);
            }
        }
    } else if first_index_of(s, '-') != -1 {
        let m = first_index_of(s, '-');
        let l = crate::unit::spec_parse_num(s.subrange(0, m)).unwrap();
        let r = crate::unit::spec_parse_num(s.subrange(m + 1, s.len() as int)).unwrap();
        crate::unit::lemma_step_seq_props(l, r, 1);
        assert(all_in(vals, l, r));
        assert forall|i: int| 0 <= i < vals.len() implies lo <= #[trigger] vals[i] <= hi by {
            assert(l <= vals[i] <= r);
        }
    } else {
        let n = crate::unit::spec_parse_num(s).unwrap();
        crate::unit::lemma_step_seq_props(n, n, 1);
    }
}

/// Merge a batch of values into an ascending, duplicate-free list.
fn merge_values(out: &mut Vec<i32>, vals: &Vec<i32>)
    requires
        sorted_strict(old(out)@),
    ensures
        sorted_strict(final(out)@),
        forall|x: i32|
            #[trigger] final(out)@.contains(x) ==> (old(out)@.contains(x) || vals@.contains(x)),
        forall|x: i32| #[trigger] old(out)@.contains(x) ==> final(out)@.contains(x),
        forall|x: i32| #[trigger] vals@.contains(x) ==> final(out)@.contains(x),
        vals@.len() > 0 || old(out)@.len() > 0 ==> final(out)@.len() > 0,
{
    let ghost base = out@;
    let mut k: usize = 0;
    while k < vals.len()
        invariant
            sorted_strict(out@),
            0 <= k <= vals@.len(),
            k > 0 || base.len() > 0 ==> out@.len() > 0,
            forall|x: i32|
                #[trigger] out@.contains(x) ==> (base.contains(x) || vals@.subrange(
                    0,
                    k as int,
                ).contains(x)),
            forall|x: i32| #[trigger] base.contains(x) ==> out@.contains(x),
            forall|x: i32|
                #[trigger] vals@.subrange(0, k as int).contains(x) ==> out@.contains(x),
        decreases vals@.len() - k,
    {
        let ghost out_pre = out@;
        insert_sorted_unique(out, vals[k]);
        proof {
            let pref_old = vals@.subrange(0, k as int);
            let pref_new = vals@.subrange(0, k + 1);
            assert(pref_new =~= pref_old.push(vals@[k as int]));
            assert(forall|x: i32|
                out@.contains(x) <==> (out_pre.contains(x) || x == vals@[k as int]));
            assert forall|x: i32| #[trigger] pref_new.contains(x) implies out@.contains(x) by {
                let w = choose|w: int| 0 <= w < pref_new.len() && pref_new[w] == x;
                if w < pref_old.len() {
                    assert(pref_old[w] == x);
                    assert(pref_old.contains(x));
                } else {
                    assert(x == vals@[k as int]);
                }
            }
            assert forall|x: i32| #[trigger] out@.contains(x) implies (base.contains(x)
                || pref_new.contains(x)) by {
                if out_pre.contains(x) {
                } else {
                    assert(x == vals@[k as int]);
                    assert(pref_new[pref_new.len() - 1] == x);
                }
            }
        }
        k += 1;
    }
    proof {
        assert(vals@.subrange(0, vals@.len() as int) =~= vals@);
    }
}

/// Every element of a list whose members all come from two bounded
/// pools is itself bounded.
proof fn lemma_all_in_from_contains(v: Seq<i32>, a: Seq<i32>, b: Seq<i32>, lo: int, hi: int)
    requires
        forall|x: i32| v.contains(x) ==> (a.contains(x) || b.contains(x)),
        all_in(a, lo, hi),
        all_in(b, lo, hi),
    ensures
        all_in(v, lo, hi),
{
    assert forall|i: int| 0 <= i < v.len() implies lo <= #[trigger] v[i] <= hi by {
        let y = v[i];
        assert(v.contains(y));
        if a.contains(y) {
            let w = choose|w: int| 0 <= w < a.len() && a[w] == y;
            assert(lo <= a[w] <= hi);
        } else {
            let w = choose|w: int| 0 <= w < b.len() && b[w] == y;
            assert(lo <= b[w] <= hi);
        }
    }
}

/// Parse one whole field: the ascending, deduplicated union of the
/// value sets of its comma-separated segments.
fn parse_field(u: Unit, f: &[char]) -> (r: Result<Vec<i32>, CronError>)
    requires
        is_field_unit(u),
    ensures
        r is Ok <==> field_parses(u, f@),
        r matches Ok(v) ==> {
            &&& sorted_strict(v@)
            &&& all_in(v@, spec_lo(u), spec_hi(u))
            &&& v@.len() > 0
            &&& forall|x: i32| v@.contains(x) <==> field_contains(u, f@, x)
        },
        r is Err ==> r == Result::<Vec<i32>, CronError>::Err(CronError::ParseError),
{
    let segs = split_commas(f);
    let ghost spec_segs = spec_split_commas(f@);
    let mut out: Vec<i32> = Vec::new();
    let mut i: usize = 0;
    while i < segs.len()
        invariant
            is_field_unit(u),
            segs@.len() == spec_segs.len(),
            spec_segs == spec_split_commas(f@),
            forall|j: int| 0 <= j < segs@.len() ==> #[trigger] segs@[j]@ == spec_segs[j],
            0 <= i <= segs@.len(),
            forall|j: int|
                0 <= j < i ==> spec_range_values(u, #[trigger] spec_segs[j]) is Some,
            sorted_strict(out@),
            all_in(out@, spec_lo(u), spec_hi(u)),
            i > 0 ==> out@.len() > 0,
            forall|x: i32|
                out@.contains(x) <==> exists|j: int|
                    0 <= j < i && spec_range_values(u, #[trigger] spec_segs[j]) is Some
                        && spec_range_values(u, spec_segs[j]).unwrap().contains(x),
        decreases segs@.len() - i,
    {
        let vals = match u.range_from_str(segs[i].as_slice()) {
            Ok(v) => v,
            Err(e) => {
                proof {
                    assert(spec_range_values(u, spec_segs[i as int]) is None);
                    assert(!field_parses(u, f@));
                }
                return Err(e);
            },
        };
        proof {
            lemma_range_values_props(u, spec_segs[i as int]);
        }
        let ghost out_before_seg = out@;
        merge_values(&mut out, &vals);
        proof {
            lemma_all_in_from_contains(out@, out_before_seg, vals@, spec_lo(u), spec_hi(u));
            assert forall|x: i32| out@.contains(x) implies exists|j: int|
                0 <= j < i + 1 && spec_range_values(u, #[trigger] spec_segs[j]) is Some
                    && spec_range_values(u, spec_segs[j]).unwrap().contains(x) by {
                if out_before_seg.contains(x) {
                    let j = choose|j: int|
                        0 <= j < i && spec_range_values(u, #[trigger] spec_segs[j]) is Some
                            && spec_range_values(u, spec_segs[j]).unwrap().contains(x);
                    assert(0 <= j < i + 1 && spec_range_values(u, spec_segs[j]) is Some
                        && spec_range_values(u, spec_segs[j]).unwrap().contains(x));
                } else {
                    assert(spec_range_values(u, spec_segs[i as int]) is Some
                        && spec_range_values(u, spec_segs[i as int]).unwrap().contains(x));
                }
            }
            assert forall|x: i32|
                (exists|j: int|
                    0 <= j < i + 1 && spec_range_values(u, #[trigger] spec_segs[j]) is Some
                        && spec_range_values(u, spec_segs[j]).unwrap().contains(x)) implies out@
                .contains(x) by {
                let j = choose|j: int|
                    0 <= j < i + 1 && spec_range_values(u, #[trigger] spec_segs[j]) is Some
                        && spec_range_values(u, spec_segs[j]).unwrap().contains(x);
                if j < i {
                    assert(exists|jj: int|
                        0 <= jj < i && spec_range_values(u, #[trigger] spec_segs[jj]) is Some
                            && spec_range_values(u, spec_segs[jj]).unwrap().contains(x)) by {
                        assert(0 <= j < i && spec_range_values(u, spec_segs[j]) is Some
                            && spec_range_values(u, spec_segs[j]).unwrap().contains(x));
                    }
                    assert(out_before_seg.contains(x));
                } else {
                    assert(vals@.contains(x));
                }
            }
        }
        i += 1;
    }
    proof {
        assert(field_parses(u, f@));
        assert(spec_segs.len() > 0);
    }
    Ok(out)
}

// ---------------------------------------------------------------------
// the expression itself
// ---------------------------------------------------------------------
/// A five-field trigger specification (minute, hour, day-of-month,
/// month, day-of-week), immutable once constructed.
#[derive(Debug)]
pub struct Expression {
    pub fields: Vec<Vec<char>>,
}

impl Expression {
    /// Exactly five fields.
    pub open spec fn wf(self) -> bool {
        self.fields@.len() == 5
    }

    /// The character content of field `i`.
    pub open spec fn field(self, i: int) -> Seq<char> {
        self.fields@[i]@
    }
}

/// Every field of the expression parses.
pub open spec fn expr_parses(e: Expression) -> bool {
    &&& field_parses(Unit::Minute, e.field(0))
    &&& field_parses(Unit::Hour, e.field(1))
    &&& field_parses(Unit::Dom, e.field(2))
    &&& field_parses(Unit::Month, e.field(3))
    &&& field_parses(Unit::Dow, e.field(4))
}

/// The day-of-month source admits day `d`. An unconstrained `*` next to
/// a restricted day-of-week field is ignored, by the cron convention.
pub open spec fn expr_dom_contains(e: Expression, d: i32) -> bool {
    if is_star(e.field(2)) && !is_star(e.field(4)) {
        false
    } else {
        field_contains(Unit::Dom, e.field(2), d)
    }
}

/// The day-of-week source admits weekday `w`, symmetrically.
pub open spec fn expr_dow_contains(e: Expression, w: i32) -> bool {
    if is_star(e.field(4)) && !is_star(e.field(2)) {
        false
    } else {
        field_contains(Unit::Dow, e.field(4), w)
    }
}

/// Day `d` of month (`y`, `m`) is a valid execution day of the
/// expression: the month is scheduled, the day exists, and the union of
/// the two day sources admits it.
pub open spec fn expr_day_ok(e: Expression, y: int, m: int, d: int) -> bool {
    &&& field_contains(Unit::Month, e.field(3), m as i32)
    &&& 1 <= d <= crate::helpers::spec_days_in_month(y, m)
    &&& (expr_dom_contains(e, d as i32) || expr_dow_contains(e, dow_value(y, m, d) as i32))
}

/// The instant satisfies all five fields of the expression.
pub open spec fn expr_matches(e: Expression, t: TimePoint) -> bool {
    &&& field_contains(Unit::Minute, e.field(0), t.minute)
    &&& field_contains(Unit::Hour, e.field(1), t.hour)
    &&& expr_day_ok(e, t.year as int, t.month as int, t.day as int)
}

/// No day of month (`y`, `m`) satisfies the expression.
pub open spec fn expr_no_valid_day(e: Expression, y: int, m: int) -> bool {
    forall|d: int| !#[trigger] expr_day_ok(e, y, m, d)
}

/// The value sets of a schedule agree with the fields of the expression
/// it was parsed from.
pub open spec fn sched_matches_expr(s: Schedule, e: Expression) -> bool {
    &&& forall|x: i32|
        #[trigger] s.minutes@.contains(x) <==> field_contains(Unit::Minute, e.field(0), x)
    &&& forall|x: i32|
        #[trigger] s.hours@.contains(x) <==> field_contains(Unit::Hour, e.field(1), x)
    &&& forall|x: i32|
        #[trigger] s.months@.contains(x) <==> field_contains(Unit::Month, e.field(3), x)
    &&& forall|x: i32| #[trigger] s.dom@.contains(x) <==> expr_dom_contains(e, x)
    &&& forall|x: i32| #[trigger] s.dow@.contains(x) <==> expr_dow_contains(e, x)
}

/// Day validity transfers between a schedule and its expression.
pub proof fn lemma_sched_expr_day(s: Schedule, e: Expression, y: int, m: int, d: int)
    requires
        sched_matches_expr(s, e),
    ensures
        day_ok(s, y, m, d) == expr_day_ok(e, y, m, d),
        no_valid_day(s, y, m) == expr_no_valid_day(e, y, m),
{
    assert(s.months@.contains(m as i32) <==> field_contains(Unit::Month, e.field(3), m as i32));
    assert(s.dom@.contains(d as i32) <==> expr_dom_contains(e, d as i32));
    assert(s.dow@.contains(dow_value(y, m, d) as i32) <==> expr_dow_contains(
        e,
        dow_value(y, m, d) as i32,
    ));
    if no_valid_day(s, y, m) {
        assert forall|dd: int| !#[trigger] expr_day_ok(e, y, m, dd) by {
            lemma_sched_expr_day_single(s, e, y, m, dd);
            assert(!day_ok(s, y, m, dd));
        }
    }
    if expr_no_valid_day(e, y, m) {
        assert forall|dd: int| !#[trigger] day_ok(s, y, m, dd) by {
            lemma_sched_expr_day_single(s, e, y, m, dd);
            assert(!expr_day_ok(e, y, m, dd));
        }
    }
}

proof fn lemma_sched_expr_day_single(s: Schedule, e: Expression, y: int, m: int, d: int)
    requires
        sched_matches_expr(s, e),
    ensures
        day_ok(s, y, m, d) == expr_day_ok(e, y, m, d),
{
    assert(s.months@.contains(m as i32) <==> field_contains(Unit::Month, e.field(3), m as i32));
    assert(s.dom@.contains(d as i32) <==> expr_dom_contains(e, d as i32));
    assert(s.dow@.contains(dow_value(y, m, d) as i32) <==> expr_dow_contains(
        e,
        dow_value(y, m, d) as i32,
    ));
}

/// The token `*` test.
fn is_star_exec(f: &Vec<char>) -> (r: bool)
    ensures
        r == is_star(f@),
{
    f.len() == 1 && f[0] == '*'
}

impl Expression {
    /// Parse all five fields into a schedule, together with the
    /// day-validity set of the month (`year`, `month`). Fails exactly
    /// when some field does not parse.
    fn create_schedule(&self, year: i32, month: i32) -> (r: Result<
        (Schedule, Vec<i32>),
        CronError,
    >)
        requires
            self.wf(),
            1 <= month <= 12,
            1 <= year <= MAX_YEAR + 32,
        ensures
            r is Ok <==> expr_parses(*self),
            r matches Ok(p) ==> {
                &&& p.0.wf()
                &&& sched_matches_expr(p.0, *self)
                &&& day_set_for(p.0, year as int, month as int, p.1@)
            },
            r is Err ==> r == Result::<(Schedule, Vec<i32>), CronError>::Err(
                CronError::ParseError,
            ),
    {
        let is_dom_star = is_star_exec(&self.fields[2]);
        let is_dow_star = is_star_exec(&self.fields[4]);
        let minutes = match parse_field(Unit::Minute, self.fields[0].as_slice()) {
            Ok(v) => v,
            Err(e) => {
                return Err(e);
            },
        };
        let hours = match parse_field(Unit::Hour, self.fields[1].as_slice()) {
            Ok(v) => v,
            Err(e) => {
                return Err(e);
            },
        };
        let dom_full = match parse_field(Unit::Dom, self.fields[2].as_slice()) {
            Ok(v) => v,
            Err(e) => {
                return Err(e);
            },
        };
        let months = match parse_field(Unit::Month, self.fields[3].as_slice()) {
            Ok(v) => v,
            Err(e) => {
                return Err(e);
            },
        };
        let dow_full = match parse_field(Unit::Dow, self.fields[4].as_slice()) {
            Ok(v) => v,
            Err(e) => {
                return Err(e);
            },
        };
        let dom: Vec<i32> = if is_dom_star && !is_dow_star {
            Vec::new()
        } else {
            dom_full
        };
        let dow: Vec<i32> = if is_dow_star && !is_dom_star {
            Vec::new()
        } else {
            dow_full
        };
        let s = Schedule { minutes, hours, dom, months, dow };
        let days = adjust_days_to_month(&s, year, month);
        Ok((s, days))
    }
}

// ---------------------------------------------------------------------
// next-occurrence resolution
// ---------------------------------------------------------------------
/// The instant satisfies every value set of the schedule.
pub open spec fn matches_sched(s: Schedule, t: TimePoint) -> bool {
    &&& s.minutes@.contains(t.minute)
    &&& s.hours@.contains(t.hour)
    &&& day_ok(s, t.year as int, t.month as int, t.day as int)
}

/// Every instant the schedule matches strictly after `t` lies at or
/// beyond month index `mi0`: the span before it holds no qualifying
/// instant.
pub open spec fn no_match_below(s: Schedule, t: TimePoint, mi0: int) -> bool {
    forall|u: TimePoint| #[trigger] matches_sched(s, u) && t.lt(u) ==> u.month_index() >= mi0
}

/// Advance month by month, starting at `t`, until a month with a
/// non-empty day-validity set is found; give up five years out. When the
/// scan moves at all, day, hour and minute are wound back to the start
/// of the month (the minute one below zero, so that minute zero itself
/// is still eligible).
fn ensure_valid_month(s: &Schedule, days: Vec<i32>, t: TimePoint) -> (r: Result<
    (TimePoint, Vec<i32>),
    CronError,
>)
    requires
        s.wf(),
        day_set_for(*s, t.year as int, t.month as int, days@),
        1 <= t.month <= 12,
        1 <= t.year <= MAX_YEAR + 20,
    ensures
        r matches Ok(p) ==> {
            let (t2, d2) = p;
            &&& day_set_for(*s, t2.year as int, t2.month as int, d2@)
            &&& d2@.len() > 0
            &&& t2.month_index() >= t.month_index()
            &&& 1 <= t2.month <= 12
            &&& t.year <= t2.year <= t.year + 5
            &&& (t2.month_index() == t.month_index() ==> t2 == t && d2@ == days@)
            &&& (t2.month_index() > t.month_index() ==> t2.day == 1 && t2.hour == 0
                && t2.minute == -1)
            &&& forall|mi: int|
                t.month_index() <= mi < t2.month_index() ==> #[trigger] month_empty(*s, mi)
            &&& t2.month_index() <= (t.year + 5) * 12 + 1
            &&& !month_empty(*s, t2.month_index())
        },
        r is Err ==> r == Result::<(TimePoint, Vec<i32>), CronError>::Err(
            CronError::ScheduleUnsatisfiable,
        ) && unsat_window(*s, t.month_index()),
{
    let start_year = t.year;
    let mut cur = t;
    let mut d = days;
    while d.len() == 0
        invariant
            s.wf(),
            day_set_for(*s, cur.year as int, cur.month as int, d@),
            1 <= cur.month <= 12,
            start_year == t.year,
            1 <= t.year <= MAX_YEAR + 20,
            1 <= t.month <= 12,
            t.year <= cur.year <= t.year + 5,
            cur.month_index() >= t.month_index(),
            cur.month_index() == t.month_index() ==> cur == t && d@ == days@,
            cur.month_index() > t.month_index() ==> cur.day == 1 && cur.hour == 0 && cur.minute
                == -1,
            forall|mi: int|
                t.month_index() <= mi < cur.month_index() ==> #[trigger] month_empty(*s, mi),
            cur.month_index() <= (t.year + 5) * 12 + 1,
        decreases (t.year + 5) * 12 + 12 - cur.month_index(),
    {
        proof {
            // the current month admits no day at all
            assert forall|dd: int| !#[trigger] day_ok(*s, cur.year as int, cur.month as int, dd)
            by {
                if day_ok(*s, cur.year as int, cur.month as int, dd) {
                    assert(1 <= dd <= 31);
                    let di = dd as i32;
                    assert(day_ok(*s, cur.year as int, cur.month as int, di as int));
                    assert(d@.contains(di));
                }
            }
            lemma_ym(cur.year as int, cur.month as int);
            assert(month_empty(*s, cur.month_index()));
        }
        if cur.year == start_year + 5 {
            proof {
                assert forall|mi: int|
                    t.month_index() <= mi <= (ym_year(t.month_index()) + 5) * 12 + 1 implies
                    #[trigger] month_empty(*s, mi) by {
                    lemma_ym(t.year as int, t.month as int);
                    assert(cur.month_index() >= (t.year + 5) * 12 + 1);
                }
            }
            return Err(CronError::ScheduleUnsatisfiable);
        }
        let next = next_month(cur);
        let nd = adjust_days_to_month(s, next.year, next.month);
        cur = next;
        d = nd;
    }
    proof {
        assert(d@.len() > 0);
        assert(!month_empty(*s, cur.month_index())) by {
            assert(d@.contains(d@[0]));
            assert(day_ok(*s, cur.year as int, cur.month as int, d@[0] as int));
            lemma_ym(cur.year as int, cur.month as int);
        }
    }
    Ok((cur, d))
}

/// Rewind day, hour and minute to the first scheduled instant of the
/// month at hand, scanning forward first if that month admits no day.
fn reset_day_scan(s: &Schedule, days: Vec<i32>, t: TimePoint) -> (r: Result<
    TimePoint,
    CronError,
>)
    requires
        s.wf(),
        day_set_for(*s, t.year as int, t.month as int, days@),
        1 <= t.month <= 12,
        1 <= t.year <= MAX_YEAR + 20,
    ensures
        r matches Ok(t2) ==> {
            &&& matches_sched(*s, t2)
            &&& t2.month_index() >= t.month_index()
            &&& 1 <= t2.month <= 12 && 1 <= t2.day <= 31 && 0 <= t2.hour <= 23 && 0 <= t2.minute
                <= 59
            &&& t.year <= t2.year <= t.year + 5
            &&& forall|u: TimePoint|
                #[trigger] matches_sched(*s, u) && u.month_index() >= t.month_index()
                    ==> !u.lt(t2)
        },
        r is Err ==> r == Result::<TimePoint, CronError>::Err(CronError::ScheduleUnsatisfiable)
            && unsat_window(*s, t.month_index()),
{
    let (t1, d1) = match ensure_valid_month(s, days, t) {
        Ok(p) => p,
        Err(e) => {
            return Err(e);
        },
    };
    let mut t2 = t1;
    t2.day = d1[0];
    t2.hour = s.hours[0];
    t2.minute = s.minutes[0];
    proof {
        assert(d1@.contains(d1@[0]));
        assert(s.hours@.contains(s.hours@[0]));
        assert(s.minutes@.contains(s.minutes@[0]));
        lemma_contained_bound(d1@, 1, 31, d1@[0]);
        lemma_contained_bound(s.hours@, 0, 23, s.hours@[0]);
        lemma_contained_bound(s.minutes@, 0, 59, s.minutes@[0]);
        // nothing the schedule matches lies before the rewound instant
        assert forall|u: TimePoint|
            #[trigger] matches_sched(*s, u) && u.month_index() >= t.month_index() implies !u.lt(
            t2,
        ) by {
            if u.lt(t2) {
                assert(day_ok(*s, u.year as int, u.month as int, u.day as int));
                assert(s.months@.contains(u.month));
                lemma_contained_bound(s.months@, 1, 12, u.month);
                if u.month_index() < t1.month_index() {
                    assert(month_empty(*s, u.month_index()));
                    crate::helpers::lemma_ym(u.year as int, u.month as int);
                    assert(no_valid_day(*s, u.year as int, u.month as int));
                    assert(!day_ok(*s, u.year as int, u.month as int, u.day as int));
                } else {
                    assert(u.month_index() == t1.month_index());
                    crate::helpers::lemma_month_index_unique(u, t1);
                    assert(u.year == t1.year && u.month == t1.month);
                    assert(d1@.contains(u.day)) by {
                        assert(day_ok(*s, t1.year as int, t1.month as int, u.day as int));
                    }
                    crate::helpers::lemma_sorted_min(d1@, u.day);
                    assert(s.hours@.contains(u.hour));
                    assert(s.minutes@.contains(u.minute));
                    crate::helpers::lemma_sorted_min(s.hours@, u.hour);
                    crate::helpers::lemma_sorted_min(s.minutes@, u.minute);
                    assert(u.day >= t2.day);
                    assert(u.hour >= t2.hour);
                    assert(u.minute >= t2.minute);
                    assert(!u.lt(t2));
                }
            }
        }
    }
    Ok(t2)
}

/// Smallest scheduled minute strictly after the current one, or the
/// smallest of all with the overflow flag.
fn resolve_minute(s: &Schedule, t: TimePoint) -> (r: (TimePoint, bool))
    requires
        s.wf(),
    ensures
        ({
            let (t2, of) = r;
            &&& t2.year == t.year && t2.month == t.month && t2.day == t.day && t2.hour == t.hour
            &&& s.minutes@.contains(t2.minute)
            &&& 0 <= t2.minute <= 59
            &&& !of ==> t2.minute > t.minute && (forall|m: i32|
                s.minutes@.contains(m) && m > t.minute ==> m >= t2.minute)
            &&& of ==> t2.minute as int == s.minutes@[0] && (forall|m: i32|
                s.minutes@.contains(m) ==> m <= t.minute)
        }),
{
    let (v, of) = get_next(&s.minutes, t.minute);
    proof {
        lemma_contained_bound(s.minutes@, 0, 59, v);
        if !of {
            assert forall|m: i32| s.minutes@.contains(m) && m > t.minute implies m >= v by {
                let w = choose|w: int| 0 <= w < s.minutes@.len() && s.minutes@[w] == m;
                assert(s.minutes@[w] > t.minute);
            }
        } else {
            assert forall|m: i32| s.minutes@.contains(m) implies m <= t.minute by {
                let w = choose|w: int| 0 <= w < s.minutes@.len() && s.minutes@[w] == m;
                if s.minutes@[w] > t.minute {
                }
            }
        }
    }
    (Unit::Minute.set(t, v), of)
}

/// The (hour, minute) pair `a` strictly precedes `b` within a day.
pub open spec fn hm_lt(h1: int, m1: int, h2: int, m2: int) -> bool {
    h1 < h2 || (h1 == h2 && m1 < m2)
}

/// The (day, hour, minute) triple `a` strictly precedes `b` within a
/// month.
pub open spec fn dhm_lt(d1: int, h1: int, m1: int, d2: int, h2: int, m2: int) -> bool {
    d1 < d2 || (d1 == d2 && hm_lt(h1, m1, h2, m2))
}

/// Resolve hour and minute: keep the hour if it is scheduled and the
/// minute search does not wrap, else advance the hour (wrapping with an
/// overflow flag) and wind the minute back to its smallest value. The
/// result is the earliest scheduled pair after the current one, and on
/// overflow no scheduled pair of this day comes after the current one.
fn resolve_hour(s: &Schedule, t: TimePoint) -> (r: (TimePoint, bool))
    requires
        s.wf(),
    ensures
        ({
            let (t2, of) = r;
            &&& t2.year == t.year && t2.month == t.month && t2.day == t.day
            &&& s.hours@.contains(t2.hour) && s.minutes@.contains(t2.minute)
            &&& 0 <= t2.hour <= 23 && 0 <= t2.minute <= 59
            &&& !of ==> (t2.hour > t.hour || (t2.hour == t.hour && t2.minute > t.minute))
            &&& of ==> t2.hour as int == s.hours@[0] && t2.minute as int == s.minutes@[0]
            &&& !of ==> forall|h: i32, m: i32|
                s.hours@.contains(h) && s.minutes@.contains(m) && hm_lt(
                    t.hour as int,
                    t.minute as int,
                    h as int,
                    m as int,
                ) ==> !#[trigger] hm_lt(h as int, m as int, t2.hour as int, t2.minute as int)
            &&& of ==> forall|h: i32, m: i32|
                s.hours@.contains(h) && s.minutes@.contains(m) ==> !#[trigger] hm_lt(
                    t.hour as int,
                    t.minute as int,
                    h as int,
                    m as int,
                )
        }),
{
    if contains_val(&s.hours, t.hour) {
        let (t2, of2) = resolve_minute(s, t);
        if !of2 {
            proof {
                assert forall|h: i32, m: i32|
                    s.hours@.contains(h) && s.minutes@.contains(m) && hm_lt(
                        t.hour as int,
                        t.minute as int,
                        h as int,
                        m as int,
                    ) implies !#[trigger] hm_lt(
                    h as int,
                    m as int,
                    t2.hour as int,
                    t2.minute as int,
                ) by {
                    if h == t.hour {
                        assert(m > t.minute);
                        assert(m >= t2.minute);
                    }
                }
            }
            return (t2, false);
        }
        let (h2, of3) = get_next(&s.hours, t.hour);
        proof {
            lemma_contained_bound(s.hours@, 0, 23, h2);
        }
        let t3 = Unit::Hour.set(t2, h2);
        proof {
            if !of3 {
                assert forall|h: i32, m: i32|
                    s.hours@.contains(h) && s.minutes@.contains(m) && hm_lt(
                        t.hour as int,
                        t.minute as int,
                        h as int,
                        m as int,
                    ) implies !#[trigger] hm_lt(
                    h as int,
                    m as int,
                    t3.hour as int,
                    t3.minute as int,
                ) by {
                    if h == t.hour {
                        assert(m <= t.minute);
                    } else {
                        assert(h > t.hour);
                        assert(h >= h2);
                        if h == h2 {
                            crate::helpers::lemma_sorted_min(s.minutes@, m);
                        }
                    }
                }
            } else {
                assert forall|h: i32, m: i32|
                    s.hours@.contains(h) && s.minutes@.contains(m) implies !#[trigger] hm_lt(
                    t.hour as int,
                    t.minute as int,
                    h as int,
                    m as int,
                ) by {
                    let w = choose|w: int| 0 <= w < s.hours@.len() && s.hours@[w] == h;
                    if s.hours@[w] > t.hour {
                    }
                    if h == t.hour {
                        assert(m <= t.minute);
                    }
                }
            }
        }
        (t3, of3)
    } else {
        let (h2, of3) = get_next(&s.hours, t.hour);
        proof {
            lemma_contained_bound(s.hours@, 0, 23, h2);
            assert(s.minutes@.contains(s.minutes@[0]));
            lemma_contained_bound(s.minutes@, 0, 59, s.minutes@[0]);
        }
        let t2 = Unit::Hour.set(t, h2);
        let t3 = Unit::Minute.set(t2, s.minutes[0]);
        proof {
            if !of3 {
                assert forall|h: i32, m: i32|
                    s.hours@.contains(h) && s.minutes@.contains(m) && hm_lt(
                        t.hour as int,
                        t.minute as int,
                        h as int,
                        m as int,
                    ) implies !#[trigger] hm_lt(
                    h as int,
                    m as int,
                    t3.hour as int,
                    t3.minute as int,
                ) by {
                    if h == t.hour {
                        assert(!s.hours@.contains(t.hour));
                    } else {
                        assert(h > t.hour);
                        assert(h >= h2);
                        if h == h2 {
                            crate::helpers::lemma_sorted_min(s.minutes@, m);
                        }
                    }
                }
            } else {
                assert forall|h: i32, m: i32|
                    s.hours@.contains(h) && s.minutes@.contains(m) implies !#[trigger] hm_lt(
                    t.hour as int,
                    t.minute as int,
                    h as int,
                    m as int,
                ) by {
                    let w = choose|w: int| 0 <= w < s.hours@.len() && s.hours@[w] == h;
                    if s.hours@[w] > t.hour {
                    }
                    if h == t.hour {
                        assert(!s.hours@.contains(t.hour));
                    }
                }
            }
        }
        (t3, of3)
    }
}

/// Resolve day, hour and minute within the current month, given its
/// day-validity set.
fn resolve_day(s: &Schedule, days: &Vec<i32>, t: TimePoint) -> (r: (TimePoint, bool))
    requires
        s.wf(),
        day_set_for(*s, t.year as int, t.month as int, days@),
        days@.len() > 0,
    ensures
        ({
            let (t2, of) = r;
            &&& t2.year == t.year && t2.month == t.month
            &&& days@.contains(t2.day)
            &&& day_ok(*s, t2.year as int, t2.month as int, t2.day as int)
            &&& s.hours@.contains(t2.hour) && s.minutes@.contains(t2.minute)
            &&& 1 <= t2.day <= 31 && 0 <= t2.hour <= 23 && 0 <= t2.minute <= 59
            &&& !of ==> (t2.day > t.day || (t2.day == t.day && (t2.hour > t.hour || (t2.hour
                == t.hour && t2.minute > t.minute))))
            &&& of ==> t2.day as int == days@[0]
            &&& !of ==> forall|d: i32, h: i32, m: i32|
                days@.contains(d) && s.hours@.contains(h) && s.minutes@.contains(m) && dhm_lt(
                    t.day as int,
                    t.hour as int,
                    t.minute as int,
                    d as int,
                    h as int,
                    m as int,
                ) ==> !#[trigger] dhm_lt(
                    d as int,
                    h as int,
                    m as int,
                    t2.day as int,
                    t2.hour as int,
                    t2.minute as int,
                )
            &&& of ==> forall|d: i32, h: i32, m: i32|
                days@.contains(d) && s.hours@.contains(h) && s.minutes@.contains(m)
                    ==> !#[trigger] dhm_lt(
                    t.day as int,
                    t.hour as int,
                    t.minute as int,
                    d as int,
                    h as int,
                    m as int,
                )
        }),
{
    if contains_val(days, t.day) {
        let (t2, of2) = resolve_hour(s, t);
        if !of2 {
            proof {
                lemma_contained_bound(days@, 1, 31, t2.day);
                assert forall|d: i32, h: i32, m: i32|
                    days@.contains(d) && s.hours@.contains(h) && s.minutes@.contains(m)
                        && dhm_lt(
                        t.day as int,
                        t.hour as int,
                        t.minute as int,
                        d as int,
                        h as int,
                        m as int,
                    ) implies !#[trigger] dhm_lt(
                    d as int,
                    h as int,
                    m as int,
                    t2.day as int,
                    t2.hour as int,
                    t2.minute as int,
                ) by {
                    if d == t.day {
                        assert(hm_lt(t.hour as int, t.minute as int, h as int, m as int));
                        assert(!hm_lt(h as int, m as int, t2.hour as int, t2.minute as int));
                    }
                }
            }
            return (t2, false);
        }
        let (d2, of3) = get_next(days, t.day);
        proof {
            lemma_contained_bound(days@, 1, 31, d2);
        }
        let t3 = Unit::Day.set(t2, d2);
        proof {
            if !of3 {
                assert forall|d: i32, h: i32, m: i32|
                    days@.contains(d) && s.hours@.contains(h) && s.minutes@.contains(m)
                        && dhm_lt(
                        t.day as int,
                        t.hour as int,
                        t.minute as int,
                        d as int,
                        h as int,
                        m as int,
                    ) implies !#[trigger] dhm_lt(
                    d as int,
                    h as int,
                    m as int,
                    t3.day as int,
                    t3.hour as int,
                    t3.minute as int,
                ) by {
                    if d == t.day {
                        assert(!hm_lt(t.hour as int, t.minute as int, h as int, m as int));
                    } else {
                        assert(d > t.day);
                        let w = choose|w: int| 0 <= w < days@.len() && days@[w] == d;
                        assert(days@[w] > t.day);
                        assert(d >= d2);
                        if d == d2 {
                            crate::helpers::lemma_sorted_min(s.hours@, h);
                            if h as int == s.hours@[0] {
                                crate::helpers::lemma_sorted_min(s.minutes@, m);
                            }
                        }
                    }
                }
            } else {
                assert forall|d: i32, h: i32, m: i32|
                    days@.contains(d) && s.hours@.contains(h) && s.minutes@.contains(m) implies
                    !#[trigger] dhm_lt(
                    t.day as int,
                    t.hour as int,
                    t.minute as int,
                    d as int,
                    h as int,
                    m as int,
                ) by {
                    let w = choose|w: int| 0 <= w < days@.len() && days@[w] == d;
                    if days@[w] > t.day {
                    }
                    if d == t.day {
                        assert(!hm_lt(t.hour as int, t.minute as int, h as int, m as int));
                    }
                }
            }
        }
        (t3, of3)
    } else {
        let (d2, of3) = get_next(days, t.day);
        proof {
            lemma_contained_bound(days@, 1, 31, d2);
            assert(s.hours@.contains(s.hours@[0]));
            assert(s.minutes@.contains(s.minutes@[0]));
            lemma_contained_bound(s.hours@, 0, 23, s.hours@[0]);
            lemma_contained_bound(s.minutes@, 0, 59, s.minutes@[0]);
        }
        let mut t2 = Unit::Day.set(t, d2);
        t2.hour = s.hours[0];
        t2.minute = s.minutes[0];
        proof {
            if !of3 {
                assert forall|d: i32, h: i32, m: i32|
                    days@.contains(d) && s.hours@.contains(h) && s.minutes@.contains(m)
                        && dhm_lt(
                        t.day as int,
                        t.hour as int,
                        t.minute as int,
                        d as int,
                        h as int,
                        m as int,
                    ) implies !#[trigger] dhm_lt(
                    d as int,
                    h as int,
                    m as int,
                    t2.day as int,
                    t2.hour as int,
                    t2.minute as int,
                ) by {
                    if d == t.day {
                        assert(!days@.contains(t.day));
                    } else {
                        assert(d > t.day);
                        let w = choose|w: int| 0 <= w < days@.len() && days@[w] == d;
                        assert(days@[w] > t.day);
                        assert(d >= d2);
                        if d == d2 {
                            crate::helpers::lemma_sorted_min(s.hours@, h);
                            if h as int == s.hours@[0] {
                                crate::helpers::lemma_sorted_min(s.minutes@, m);
                            }
                        }
                    }
                }
            } else {
                assert forall|d: i32, h: i32, m: i32|
                    days@.contains(d) && s.hours@.contains(h) && s.minutes@.contains(m) implies
                    !#[trigger] dhm_lt(
                    t.day as int,
                    t.hour as int,
                    t.minute as int,
                    d as int,
                    h as int,
                    m as int,
                ) by {
                    let w = choose|w: int| 0 <= w < days@.len() && days@[w] == d;
                    if days@[w] > t.day {
                    }
                    if d == t.day {
                        assert(!days@.contains(t.day));
                    }
                }
            }
        }
        (t2, of3)
    }
}

/// Resolve month and everything below it. When the day search wraps,
/// the month advances to its next scheduled value — into the following
/// year when no later month of this year is scheduled — and the
/// day-validity set is recomputed for the new month before the lower
/// units are wound back, scanning further months where the new one
/// admits no day.
fn resolve_month(s: &Schedule, days: &Vec<i32>, t: TimePoint) -> (r: Result<
    TimePoint,
    CronError,
>)
    requires
        s.wf(),
        day_set_for(*s, t.year as int, t.month as int, days@),
        days@.len() > 0,
        1 <= t.month <= 12,
        1 <= t.year <= MAX_YEAR + 14,
    ensures
        r matches Ok(t2) ==> {
            &&& matches_sched(*s, t2)
            &&& 1 <= t2.month <= 12 && 1 <= t2.day <= 31 && 0 <= t2.hour <= 23 && 0 <= t2.minute
                <= 59
            &&& t.lt(t2)
            &&& t.year <= t2.year <= t.year + 7
            &&& forall|u: TimePoint|
                #[trigger] matches_sched(*s, u) && t.lt(u) ==> !u.lt(t2)
        },
        r is Err ==> r == Result::<TimePoint, CronError>::Err(CronError::ScheduleUnsatisfiable)
            && exists|mi0: int|
            mi0 > t.month_index() && #[trigger] unsat_window(*s, mi0) && no_match_below(
                *s,
                t,
                mi0,
            ),
{
    let (t2, of2) = resolve_day(s, days, t);
    if !of2 {
        proof {
            assert(t.lt(t2));
            assert forall|u: TimePoint| #[trigger] matches_sched(*s, u) && t.lt(u) implies !u.lt(
                t2,
            ) by {
                if u.lt(t2) {
                    assert(u.month_index() >= t.month_index());
                    assert(u.month_index() <= t2.month_index());
                    crate::helpers::lemma_month_index_unique(u, t);
                    assert(days@.contains(u.day)) by {
                        assert(day_ok(*s, t.year as int, t.month as int, u.day as int));
                    }
                    assert(dhm_lt(
                        t.day as int,
                        t.hour as int,
                        t.minute as int,
                        u.day as int,
                        u.hour as int,
                        u.minute as int,
                    ));
                    assert(dhm_lt(
                        u.day as int,
                        u.hour as int,
                        u.minute as int,
                        t2.day as int,
                        t2.hour as int,
                        t2.minute as int,
                    ));
                    assert(false);
                }
            }
        }
        return Ok(t2);
    }
    // the day search wrapped: advance the month itself, rolling into
    // the following year when no later month of this year is scheduled
    let (m2, of3) = get_next(&s.months, t2.month);
    proof {
        lemma_contained_bound(s.months@, 1, 12, m2);
    }
    let mut t3 = Unit::Month.set(t2, m2);
    if of3 {
        t3.year = t3.year + 1;
    }
    proof {
        assert(t3.month_index() > t.month_index()) by {
            if of3 {
                assert(t3.month_index() == (t.year + 1) * 12 + m2);
            } else {
                assert(m2 > t.month);
            }
        }
    }
    let days3 = adjust_days_to_month(s, t3.year, t3.month);
    let t4 = match reset_day_scan(s, days3, t3) {
        Ok(t4) => t4,
        Err(e) => {
            proof {
                // the failed scan began at the first place a match
                // could still stand: this month is exhausted and no
                // month in between is scheduled
                let ghost mi0 = t3.month_index();
                assert forall|u: TimePoint| #[trigger] matches_sched(*s, u) && t.lt(u) implies
                    u.month_index() >= mi0 by {
                    if u.month_index() < mi0 {
                        assert(day_ok(*s, u.year as int, u.month as int, u.day as int));
                        assert(s.months@.contains(u.month));
                        lemma_contained_bound(s.months@, 1, 12, u.month);
                        assert(u.month_index() >= t.month_index());
                        if u.month_index() == t.month_index() {
                            crate::helpers::lemma_month_index_unique(u, t);
                            assert(days@.contains(u.day)) by {
                                assert(day_ok(*s, t.year as int, t.month as int, u.day as int));
                            }
                            assert(dhm_lt(
                                t.day as int,
                                t.hour as int,
                                t.minute as int,
                                u.day as int,
                                u.hour as int,
                                u.minute as int,
                            ));
                            assert(false);
                        } else {
                            assert(t.month_index() < u.month_index() < mi0);
                            if !of3 {
                                assert(u.year == t.year) by {
                                    if u.year <= t.year - 1 {
                                        assert(u.month_index() <= t.year * 12);
                                    }
                                    if u.year >= t.year + 1 {
                                        assert(u.month_index() >= (t.year + 1) * 12 + 1);
                                        assert(mi0 <= t.year * 12 + 12);
                                    }
                                }
                                assert(t.month < u.month < m2);
                                assert(u.month > t2.month);
                                assert(m2 <= u.month);
                                assert(false);
                            } else {
                                if u.year <= t.year - 1 {
                                    assert(u.month_index() <= t.year * 12);
                                    assert(false);
                                } else if u.year == t.year {
                                    assert(u.month > t.month);
                                    assert(false);
                                } else if u.year == t.year + 1 {
                                    assert(u.month < m2);
                                    crate::helpers::lemma_sorted_min(s.months@, u.month);
                                    assert(u.month >= s.months@[0]);
                                    assert(m2 as int == s.months@[0]);
                                    assert(false);
                                } else {
                                    assert(u.month_index() >= (t.year + 2) * 12 + 1);
                                    assert(mi0 <= (t.year + 1) * 12 + 12);
                                    assert(false);
                                }
                            }
                        }
                    }
                }
                assert(mi0 > t.month_index() && unsat_window(*s, mi0) && no_match_below(
                    *s,
                    t,
                    mi0,
                ));
            }
            return Err(e);
        },
    };
    proof {
        assert(t4.month_index() >= t3.month_index());
        assert(t.lt(t4));
        // nothing the schedule matches lies strictly between `t` and
        // the result: this month is exhausted, the months up to the
        // next scheduled one admit no day, and the rewind below it is
        // minimal
        assert forall|u: TimePoint| #[trigger] matches_sched(*s, u) && t.lt(u) implies !u.lt(
            t4,
        ) by {
            if u.lt(t4) {
                assert(day_ok(*s, u.year as int, u.month as int, u.day as int));
                assert(s.months@.contains(u.month));
                lemma_contained_bound(s.months@, 1, 12, u.month);
                assert(u.month_index() >= t.month_index());
                if u.month_index() == t.month_index() {
                    crate::helpers::lemma_month_index_unique(u, t);
                    assert(days@.contains(u.day)) by {
                        assert(day_ok(*s, t.year as int, t.month as int, u.day as int));
                    }
                    assert(dhm_lt(
                        t.day as int,
                        t.hour as int,
                        t.minute as int,
                        u.day as int,
                        u.hour as int,
                        u.minute as int,
                    ));
                    assert(false);
                } else if u.month_index() >= t3.month_index() {
                    assert(!u.lt(t4));
                } else {
                    // a scheduled month strictly between this one and
                    // the next scheduled one cannot exist
                    assert(t.month_index() < u.month_index() < t3.month_index());
                    if !of3 {
                        assert(u.year == t.year) by {
                            if u.year <= t.year - 1 {
                                assert(u.month_index() <= t.year * 12);
                            }
                            if u.year >= t.year + 1 {
                                assert(u.month_index() >= (t.year + 1) * 12 + 1);
                                assert(t3.month_index() <= t.year * 12 + 12);
                            }
                        }
                        assert(t.month < u.month < m2);
                        assert(u.month > t2.month);
                        assert(m2 <= u.month);
                        assert(false);
                    } else {
                        if u.year <= t.year - 1 {
                            assert(u.month_index() <= t.year * 12);
                            assert(false);
                        } else if u.year == t.year {
                            assert(u.month > t.month);
                            assert(false);
                        } else if u.year == t.year + 1 {
                            assert(u.month < m2);
                            crate::helpers::lemma_sorted_min(s.months@, u.month);
                            assert(u.month >= s.months@[0]);
                            assert(m2 as int == s.months@[0]);
                            assert(false);
                        } else {
                            assert(u.month_index() >= (t.year + 2) * 12 + 1);
                            assert(t3.month_index() <= (t.year + 1) * 12 + 12);
                            assert(false);
                        }
                    }
                }
            }
        }
    }
    Ok(t4)
}


/// Resolve a full instant: the earliest scheduled instant strictly
/// after `t`, scanning forward (boundedly) where whole months admit no
/// day.
fn calculate_next_time(s: &Schedule, days: Vec<i32>, t: TimePoint) -> (r: Result<
    TimePoint,
    CronError,
>)
    requires
        s.wf(),
        day_set_for(*s, t.year as int, t.month as int, days@),
        t.in_ranges(),
        t.year <= MAX_YEAR,
    ensures
        r matches Ok(t2) ==> {
            &&& t.lt(t2)
            &&& matches_sched(*s, t2)
            &&& t2.in_ranges()
            &&& 0 <= t2.minute
            &&& t2.year <= t.year + 12
            &&& forall|u: TimePoint|
                #[trigger] matches_sched(*s, u) && t.lt(u) ==> !u.lt(t2)
        },
        r is Err ==> r == Result::<TimePoint, CronError>::Err(CronError::ScheduleUnsatisfiable)
            && exists|mi0: int|
            mi0 >= t.month_index() && #[trigger] unsat_window(*s, mi0) && no_match_below(
                *s,
                t,
                mi0,
            ),
        (forall|mi: int|
            t.month_index() <= mi <= (t.year + 5) * 12 + 1 ==> #[trigger] month_empty(
                *s,
                mi,
            )) ==> r is Err,
{
    let (t1, days1) = match ensure_valid_month(s, days, t) {
        Ok(p) => p,
        Err(e) => {
            proof {
                assert(unsat_window(*s, t.month_index()));
                assert forall|u: TimePoint| #[trigger] matches_sched(*s, u) && t.lt(u) implies
                    u.month_index() >= t.month_index() by {}
                assert(no_match_below(*s, t, t.month_index()));
            }
            return Err(e);
        },
    };
    let t2 = match resolve_month(s, &days1, t1) {
        Ok(t2) => t2,
        Err(e) => {
            proof {
                let mi0 = choose|mi0: int|
                    mi0 > t1.month_index() && #[trigger] unsat_window(*s, mi0)
                        && no_match_below(*s, t1, mi0);
                assert(mi0 >= t.month_index());
                assert forall|u: TimePoint| #[trigger] matches_sched(*s, u) && t.lt(u) implies
                    u.month_index() >= mi0 by {
                    assert(day_ok(*s, u.year as int, u.month as int, u.day as int));
                    assert(s.months@.contains(u.month));
                    lemma_contained_bound(s.months@, 1, 12, u.month);
                    assert(s.minutes@.contains(u.minute));
                    lemma_contained_bound(s.minutes@, 0, 59, u.minute);
                    if u.month_index() < t1.month_index() {
                        assert(month_empty(*s, u.month_index()));
                        lemma_ym(u.year as int, u.month as int);
                        assert(no_valid_day(*s, u.year as int, u.month as int));
                        assert(false);
                    } else {
                        assert(t1.lt(u)) by {
                            if t1.month_index() == t.month_index() {
                                assert(t1 == t);
                            } else {
                                if u.month_index() == t1.month_index() {
                                    assert(t1.day == 1 && t1.hour == 0 && t1.minute == -1);
                                    assert(1 <= u.day);
                                }
                            }
                        }
                    }
                }
                assert(no_match_below(*s, t, mi0));
                // the scanned stretch up to the first valid month was
                // not empty, so the converse hypothesis fails
                assert(!month_empty(*s, t1.month_index()));
            }
            return Err(e);
        },
    };
    proof {
        if t1.month_index() > t.month_index() {
            assert(t.lt(t1));
            assert(t1.lt(t2));
            assert(t.lt(t2));
        }
        // the all-months-empty hypothesis fails: the scan found a month
        // with a valid day inside the bound
        assert(!month_empty(*s, t1.month_index()));
        assert(t.month_index() <= t1.month_index() <= (t.year + 5) * 12 + 1);
        // the result is the earliest match: the scanned months admit no
        // day, and the per-unit searches below are minimal
        assert forall|u: TimePoint| #[trigger] matches_sched(*s, u) && t.lt(u) implies !u.lt(
            t2,
        ) by {
            if u.lt(t2) {
                assert(day_ok(*s, u.year as int, u.month as int, u.day as int));
                assert(s.months@.contains(u.month));
                lemma_contained_bound(s.months@, 1, 12, u.month);
                assert(s.minutes@.contains(u.minute));
                assert(s.hours@.contains(u.hour));
                lemma_contained_bound(s.minutes@, 0, 59, u.minute);
                lemma_contained_bound(s.hours@, 0, 23, u.hour);
                assert(u.month_index() >= t.month_index());
                if u.month_index() < t1.month_index() {
                    assert(month_empty(*s, u.month_index()));
                    crate::helpers::lemma_ym(u.year as int, u.month as int);
                    assert(no_valid_day(*s, u.year as int, u.month as int));
                    assert(!day_ok(*s, u.year as int, u.month as int, u.day as int));
                } else {
                    assert(t1.lt(u)) by {
                        if t1.month_index() == t.month_index() {
                            assert(t1 == t);
                        } else {
                            if u.month_index() == t1.month_index() {
                                assert(t1.day == 1 && t1.hour == 0 && t1.minute == -1);
                                assert(1 <= u.day);
                            }
                        }
                    }
                    assert(!u.lt(t2));
                }
            }
        }
    }
    Ok(t2)
}

// ---------------------------------------------------------------------
// tokenizing a raw expression
// ---------------------------------------------------------------------
/// ASCII whitespace.
pub open spec fn is_ws(c: char) -> bool {
    c == ' ' || c == '\t' || c == '\n' || c == '\r' || c == '\u{b}' || c == '\u{c}'
}

/// Length of the whitespace-free token standing at the head of `s`.
pub open spec fn token_len(s: Seq<char>) -> int
    decreases s.len(),
{
    if s.len() == 0 || is_ws(s[0]) {
        0
    } else {
        1 + token_len(s.skip(1))
    }
}

pub proof fn lemma_token_len(s: Seq<char>)
    ensures
        0 <= token_len(s) <= s.len(),
        forall|i: int| 0 <= i < token_len(s) ==> !is_ws(s[i]),
        token_len(s) < s.len() ==> is_ws(s[token_len(s)]),
    decreases s.len(),
{
    if s.len() == 0 || is_ws(s[0]) {
    } else {
        let t = s.skip(1);
        lemma_token_len(t);
        assert(forall|i: int| 0 <= i < t.len() ==> #[trigger] t[i] == s[i + 1]);
        assert forall|i: int| 0 <= i < token_len(s) implies !is_ws(s[i]) by {
            if i > 0 {
                assert(!is_ws(t[i - 1]));
            }
        }
    }
}

/// `token_len` is the unique boundary: everything before it
/// whitespace-free, the character at it (if any) whitespace.
pub proof fn lemma_token_len_eq(s: Seq<char>, j: int)
    requires
        0 <= j <= s.len(),
        forall|k: int| 0 <= k < j ==> !is_ws(s[k]),
        j < s.len() ==> is_ws(s[j]),
    ensures
        token_len(s) == j,
    decreases s.len(),
{
    if j == 0 {
    } else {
        let t = s.skip(1);
        assert(forall|i: int| 0 <= i < t.len() ==> #[trigger] t[i] == s[i + 1]);
        lemma_token_len_eq(t, j - 1);
    }
}

/// The sequence of whitespace-separated tokens.
pub open spec fn spec_split_ws(s: Seq<char>) -> Seq<Seq<char>>
    decreases s.len(),
    via spec_split_ws_decreases
{
    if s.len() == 0 {
        Seq::empty()
    } else if is_ws(s[0]) {
        spec_split_ws(s.skip(1))
    } else {
        seq![s.subrange(0, token_len(s))] + spec_split_ws(s.skip(token_len(s)))
    }
}

#[via_fn]
proof fn spec_split_ws_decreases(s: Seq<char>) {
    lemma_token_len(s);
}

/// The views of a list of character vectors.
pub open spec fn views_of(v: Seq<Vec<char>>) -> Seq<Seq<char>> {
    v.map_values(|x: Vec<char>| x@)
}

fn is_ws_exec(c: char) -> (r: bool)
    ensures
        r == is_ws(c),
{
    c == ' ' || c == '\t' || c == '\n' || c == '\r' || c == '\u{b}' || c == '\u{c}'
}

/// Split a raw expression at every whitespace run.
fn split_ws(s: &str) -> (r: Vec<Vec<char>>)
    ensures
        views_of(r@) == spec_split_ws(s@),
{
    let n = s.unicode_len();
    let mut toks: Vec<Vec<char>> = Vec::new();
    let mut i: usize = 0;
    proof {
        assert(s@.skip(0) =~= s@);
        assert(views_of(toks@) =~= Seq::<Seq<char>>::empty());
    }
    while i < n
        invariant
            n as int == s@.len(),
            0 <= i <= n,
            views_of(toks@) + spec_split_ws(s@.skip(i as int)) == spec_split_ws(s@),
        decreases n - i,
    {
        let ghost rest = s@.skip(i as int);
        let ghost toks_pre = toks@;
        let c = s.get_char(i);
        proof {
            assert(rest[0] == s@[i as int]);
        }
        if is_ws_exec(c) {
            proof {
                assert(rest.skip(1) =~= s@.skip(i as int + 1));
                assert(spec_split_ws(rest) == spec_split_ws(rest.skip(1)));
            }
            i += 1;
        } else {
            // scan to the end of the token
            let mut j = i + 1;
            while j < n && !is_ws_exec(s.get_char(j))
                invariant
                    n as int == s@.len(),
                    0 <= i < j <= n,
                    forall|k: int| i <= k < j ==> !is_ws(s@[k]),
                decreases n - j,
            {
                j += 1;
            }
            proof {
                assert forall|k: int| 0 <= k < j - i implies !is_ws(rest[k]) by {
                    assert(rest[k] == s@[i + k]);
                }
                if (j as int) < n as int {
                    assert(is_ws(rest[j - i])) by {
                        assert(rest[j - i] == s@[j as int]);
                    }
                }
                lemma_token_len_eq(rest, j - i);
            }
            // copy the token out
            let mut tok: Vec<char> = Vec::new();
            let mut k = i;
            while k < j
                invariant
                    n as int == s@.len(),
                    0 <= i <= k <= j <= n,
                    tok@ =~= s@.subrange(i as int, k as int),
                decreases j - k,
            {
                tok.push(s.get_char(k));
                proof {
                    assert(tok@ =~= s@.subrange(i as int, k as int).push(s@[k as int]));
                    assert(s@.subrange(i as int, k as int).push(s@[k as int]) =~= s@.subrange(
                        i as int,
                        k as int + 1,
                    ));
                }
                k += 1;
            }
            toks.push(tok);
            proof {
                assert(tok@ =~= rest.subrange(0, j - i));
                assert(rest.skip(j - i) =~= s@.skip(j as int));
                assert(spec_split_ws(rest) == seq![rest.subrange(0, j - i)] + spec_split_ws(
                    rest.skip(j - i),
                ));
                assert(views_of(toks@) =~= views_of(toks_pre).push(tok@));
                assert(views_of(toks@) + spec_split_ws(s@.skip(j as int)) =~= views_of(toks_pre)
                    + spec_split_ws(rest));
            }
            i = j;
        }
    }
    proof {
        assert(s@.skip(n as int) =~= Seq::<char>::empty());
        assert(spec_split_ws(Seq::<char>::empty()) =~= Seq::<Seq<char>>::empty());
        assert(views_of(toks@) + Seq::<Seq<char>>::empty() =~= views_of(toks@));
    }
    toks
}

// ---------------------------------------------------------------------
// expression-level unsatisfiability window
// ---------------------------------------------------------------------
/// The expression value that the raw text denotes: five
/// whitespace-separated tokens, with the month and weekday fields in
/// their numeric normal form.
pub open spec fn expr_is_of_text(e: Expression, text: Seq<char>) -> bool {
    let toks = spec_split_ws(text);
    &&& toks.len() == 5
    &&& e.wf()
    &&& e.field(0) == toks[0]
    &&& e.field(1) == toks[1]
    &&& e.field(2) == toks[2]
    &&& e.field(3) == spec_to_num(Unit::Month, toks[3])
    &&& e.field(4) == spec_to_num(Unit::Dow, toks[4])
}

/// The raw text denotes a syntactically valid expression: exactly five
/// whitespace-separated tokens whose normalized fields all parse.
pub open spec fn text_parses(text: Seq<char>) -> bool {
    let toks = spec_split_ws(text);
    &&& toks.len() == 5
    &&& field_parses(Unit::Minute, toks[0])
    &&& field_parses(Unit::Hour, toks[1])
    &&& field_parses(Unit::Dom, toks[2])
    &&& field_parses(Unit::Month, spec_to_num(Unit::Month, toks[3]))
    &&& field_parses(Unit::Dow, spec_to_num(Unit::Dow, toks[4]))
}

/// The month at index `mi` admits no day of the expression.
pub open spec fn expr_month_empty(e: Expression, mi: int) -> bool {
    expr_no_valid_day(e, ym_year(mi), ym_month(mi))
}

/// Every instant the expression matches strictly after `now` lies at or
/// beyond month index `mi0`.
pub open spec fn expr_no_match_below(e: Expression, now: TimePoint, mi0: int) -> bool {
    forall|u: TimePoint| #[trigger] expr_matches(e, u) && now.lt(u) ==> u.month_index() >= mi0
}

/// A whole bounded forward scan of months, starting at index `mi0`,
/// admits no day of the expression.
pub open spec fn expr_unsat_window(e: Expression, mi0: int) -> bool {
    forall|mi: int|
        mi0 <= mi <= (ym_year(mi0) + 5) * 12 + 1 ==> #[trigger] expr_no_valid_day(
            e,
            ym_year(mi),
            ym_month(mi),
        )
}

impl Expression {
    /// The earliest instant strictly after `now` satisfying all five
    /// fields. Fails with `ParseError` exactly when some field does not
    /// parse. Fails with `ScheduleUnsatisfiable` only when some whole
    /// five-year scan of months admits no day and no qualifying
    /// instant stands before it — and always does so when every month
    /// of the five years from `now` admits no day.
    pub fn next(&self, now: &TimePoint) -> (r: Result<TimePoint, CronError>)
        requires
            self.wf(),
            now.in_ranges(),
            now.year <= MAX_YEAR,
        ensures
            r matches Ok(t2) ==> {
                &&& now.lt(t2)
                &&& expr_matches(*self, t2)
                &&& t2.in_ranges()
                &&& t2.year <= now.year + 12
                &&& forall|u: TimePoint|
                    #[trigger] expr_matches(*self, u) && now.lt(u) ==> !u.lt(t2)
            },
            r == Result::<TimePoint, CronError>::Err(CronError::ParseError) <==> !expr_parses(
                *self,
            ),
            r == Result::<TimePoint, CronError>::Err(CronError::ScheduleUnsatisfiable)
                ==> exists|mi0: int|
                mi0 >= now.month_index() && #[trigger] expr_unsat_window(*self, mi0)
                    && expr_no_match_below(*self, *now, mi0),
            (expr_parses(*self) && forall|mi: int|
                now.month_index() <= mi <= (now.year + 5) * 12 + 1
                    ==> #[trigger] expr_month_empty(*self, mi)) ==> r
                == Result::<TimePoint, CronError>::Err(CronError::ScheduleUnsatisfiable),
    {
        let (s, days) = match self.create_schedule(now.year, now.month) {
            Ok(p) => p,
            Err(e) => {
                return Err(e);
            },
        };
        proof {
            // an all-empty scan at the expression level is one at the
            // schedule level too
            if forall|mi: int|
                now.month_index() <= mi <= (now.year + 5) * 12 + 1
                    ==> #[trigger] expr_month_empty(*self, mi) {
                assert forall|mi: int|
                    now.month_index() <= mi <= (now.year + 5) * 12 + 1 implies
                    #[trigger] month_empty(s, mi) by {
                    assert(expr_month_empty(*self, mi));
                    lemma_sched_expr_day(s, *self, ym_year(mi), ym_month(mi), 0);
                }
            }
        }
        match calculate_next_time(&s, days, *now) {
            Ok(t2) => {
                proof {
                    lemma_sched_expr_day_single(
                        s,
                        *self,
                        t2.year as int,
                        t2.month as int,
                        t2.day as int,
                    );
                    assert(s.minutes@.contains(t2.minute));
                    assert(s.hours@.contains(t2.hour));
                    // no earlier instant satisfies the expression either
                    assert forall|u: TimePoint| #[trigger] expr_matches(*self, u) && now.lt(
                        u,
                    ) implies !u.lt(t2) by {
                        lemma_sched_expr_day_single(
                            s,
                            *self,
                            u.year as int,
                            u.month as int,
                            u.day as int,
                        );
                        assert(s.minutes@.contains(u.minute) <==> field_contains(
                            Unit::Minute,
                            self.field(0),
                            u.minute,
                        ));
                        assert(s.hours@.contains(u.hour) <==> field_contains(
                            Unit::Hour,
                            self.field(1),
                            u.hour,
                        ));
                        assert(matches_sched(s, u));
                    }
                }
                Ok(t2)
            },
            Err(e) => {
                proof {
                    let mi0 = choose|mi0: int|
                        mi0 >= now.month_index() && #[trigger] unsat_window(s, mi0)
                            && no_match_below(s, *now, mi0);
                    assert forall|mi: int|
                        mi0 <= mi <= (ym_year(mi0) + 5) * 12 + 1 implies
                        #[trigger] expr_no_valid_day(*self, ym_year(mi), ym_month(mi)) by {
                        assert(month_empty(s, mi));
                        lemma_sched_expr_day(s, *self, ym_year(mi), ym_month(mi), 0);
                    }
                    assert(expr_unsat_window(*self, mi0));
                    // nothing the expression matches stands before the
                    // empty window either
                    assert forall|u: TimePoint| #[trigger] expr_matches(*self, u) && now.lt(
                        u,
                    ) implies u.month_index() >= mi0 by {
                        lemma_sched_expr_day_single(
                            s,
                            *self,
                            u.year as int,
                            u.month as int,
                            u.day as int,
                        );
                        assert(s.minutes@.contains(u.minute) <==> field_contains(
                            Unit::Minute,
                            self.field(0),
                            u.minute,
                        ));
                        assert(s.hours@.contains(u.hour) <==> field_contains(
                            Unit::Hour,
                            self.field(1),
                            u.hour,
                        ));
                        assert(matches_sched(s, u));
                    }
                    assert(expr_no_match_below(*self, *now, mi0));
                }
                Err(e)
            },
        }
    }

    /// Construct an expression from its raw text: exactly five
    /// whitespace-separated fields, the month and weekday names
    /// normalized to numbers; construction then probes for a next
    /// occurrence from the present instant, so that an expression
    /// admitting no real calendar date is rejected.
    pub fn from_str(expression: &str) -> (r: Result<Expression, CronError>)
        ensures
            r matches Ok(e) ==> {
                &&& expr_is_of_text(e, expression@)
                &&& expr_parses(e)
                &&& exists|u: TimePoint| #[trigger] expr_matches(e, u) && u.in_ranges()
            },
            (r == Result::<Expression, CronError>::Err(CronError::ParseError)) <==> !text_parses(
                expression@,
            ),
            r == Result::<Expression, CronError>::Err(CronError::ScheduleUnsatisfiable)
                ==> text_parses(expression@) && exists|e2: Expression, mi0: int|
                expr_is_of_text(e2, expression@) && mi0 >= 13 && #[trigger] expr_unsat_window(
                    e2,
                    mi0,
                ),
    {
        let toks = split_ws(expression);
        if toks.len() != 5 {
            return Err(CronError::ParseError);
        }
        proof {
            assert(spec_split_ws(expression@).len() == 5);
            assert(toks@[0]@ == spec_split_ws(expression@)[0]);
            assert(toks@[1]@ == spec_split_ws(expression@)[1]);
            assert(toks@[2]@ == spec_split_ws(expression@)[2]);
            assert(toks@[3]@ == spec_split_ws(expression@)[3]);
            assert(toks@[4]@ == spec_split_ws(expression@)[4]);
        }
        let fields = Unit::parse_to_numeric(toks);
        let e = Expression { fields };
        // probe for a next occurrence from the present instant, so that
        // calendar-impossible expressions are rejected at construction
        let now = crate::timepoint::now_timepoint();
        let start = if 1 <= now.year && now.year <= MAX_YEAR {
            now
        } else {
            TimePoint { year: 2000, month: 1, day: 1, hour: 0, minute: 0 }
        };
        proof {
            assert(expr_is_of_text(e, expression@));
            assert(expr_parses(e) == text_parses(expression@));
            assert(start.month_index() >= 13);
        }
        match e.next(&start) {
            Ok(t2) => {
                proof {
                    assert(expr_matches(e, t2) && t2.in_ranges());
                }
                Ok(e)
            },
            Err(err) => {
                proof {
                    if err == CronError::ScheduleUnsatisfiable {
                        let mi0 = choose|mi0: int|
                            mi0 >= start.month_index() && #[trigger] expr_unsat_window(e, mi0);
                        assert(expr_is_of_text(e, expression@) && mi0 >= 13
                            && expr_unsat_window(e, mi0));
                    }
                }
                Err(err)
            },
        }
    }
}

} // verus!
