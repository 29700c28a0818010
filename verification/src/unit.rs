//! Calendar field units and the range/step/list syntax of one field.

use vstd::prelude::*;

use crate::errors::CronError;
use crate::timepoint::TimePoint;

verus! {

/// One calendar field of an expression, plus the derived units used
/// while resolving an occurrence (`Day`, `Year`) and a sentinel (`Stop`)
/// marking the end of the unit cascade.
#[derive(Clone, Copy, Debug, PartialEq, Eq, Structural)]
pub enum Unit {
    Minute,
    Dow,
    Hour,
    Dom,
    Month,
    Day,
    Year,
    Stop,
}

/// The five units that appear as fields of an expression.
pub open spec fn is_field_unit(u: Unit) -> bool {
    u is Minute || u is Dow || u is Hour || u is Dom || u is Month
}

/// Inclusive domain of a field unit.
pub open spec fn spec_lo(u: Unit) -> int {
    match u {
        Unit::Minute => 0,
        Unit::Hour => 0,
        Unit::Dom => 1,
        Unit::Dow => 0,
        Unit::Month => 1,
        _ => 0,
    }
}

pub open spec fn spec_hi(u: Unit) -> int {
    match u {
        Unit::Minute => 59,
        Unit::Hour => 23,
        Unit::Dom => 31,
        Unit::Dow => 6,
        Unit::Month => 12,
        _ => 0,
    }
}

impl Unit {
    /// Domain bounds of a field unit.
    pub fn domain(&self) -> (r: (i32, i32))
        requires
            is_field_unit(*self),
        ensures
            r.0 as int == spec_lo(*self),
            r.1 as int == spec_hi(*self),
    {
        match self {
            Unit::Minute => (0, 59),
            Unit::Hour => (0, 23),
            Unit::Dom => (1, 31),
            Unit::Dow => (0, 6),
            Unit::Month => (1, 12),
            _ => (0, 0),  // excluded by the precondition
        }
    }

    /// The unit one step below in the resolution cascade.
    pub fn next(&self) -> (r: Unit)
        requires
            *self is Year || *self is Month || *self is Day || *self is Hour
                || *self is Minute,
        ensures
            r == match *self {
                Unit::Year => Unit::Month,
                Unit::Month => Unit::Day,
                Unit::Day => Unit::Hour,
                Unit::Hour => Unit::Minute,
                _ => Unit::Stop,
            },
    {
        match self {
            Unit::Year => Unit::Month,
            Unit::Month => Unit::Day,
            Unit::Day => Unit::Hour,
            Unit::Hour => Unit::Minute,
            _ => Unit::Stop,
        }
    }

    /// Write `value` into the field of `time` that this unit names.
    pub fn set(&self, time: TimePoint, value: i32) -> (r: TimePoint)
        requires
            *self is Year || *self is Month || *self is Day || *self is Hour
                || *self is Minute,
        ensures
            r == match *self {
                Unit::Year => TimePoint { year: value, ..time },
                Unit::Month => TimePoint { month: value, ..time },
                Unit::Day => TimePoint { day: value, ..time },
                Unit::Hour => TimePoint { hour: value, ..time },
                _ => TimePoint { minute: value, ..time },
            },
    {
        let mut time = time;
        match self {
            Unit::Year => time.year = value,
            Unit::Month => time.month = value,
            Unit::Day => time.day = value,
            Unit::Hour => time.hour = value,
            _ => time.minute = value,
        }
        time
    }
}

// ---------------------------------------------------------------------
// character utilities
// ---------------------------------------------------------------------
/// ASCII lower-casing of a single character.
pub open spec fn spec_lower(c: char) -> char {
    if 'A' <= c && c <= 'Z' {
        ((c as u32) + 32) as char
    } else {
        c
    }
}

pub fn lower_char(c: char) -> (r: char)
    ensures
        r == spec_lower(c),
{
    if 'A' <= c && c <= 'Z' {
        (((c as u32) + 32) as u8) as char
    } else {
        c
    }
}

pub open spec fn is_digit(c: char) -> bool {
    '0' <= c && c <= '9'
}

pub open spec fn digit_of(c: char) -> int {
    c as u32 - '0' as u32
}

/// Every character is a decimal digit (and there is at least one).
pub open spec fn all_digits(s: Seq<char>) -> bool {
    forall|i: int| 0 <= i < s.len() ==> is_digit(#[trigger] s[i])
}

/// The value of a digit string, most significant first.
pub open spec fn digits_val(s: Seq<char>) -> int
    decreases s.len(),
{
    if s.len() == 0 {
        0
    } else {
        digits_val(s.drop_last()) * 10 + digit_of(s.last())
    }
}

pub open spec fn pow10(n: nat) -> int
    decreases n,
{
    if n == 0 {
        1
    } else {
        10 * pow10((n - 1) as nat)
    }
}

pub proof fn lemma_digits_bound(s: Seq<char>)
    requires
        all_digits(s),
    ensures
        0 <= digits_val(s) < pow10(s.len()),
    decreases s.len(),
{
    if s.len() == 0 {
    } else {
        assert(all_digits(s.drop_last()));
        lemma_digits_bound(s.drop_last());
        assert(0 <= digit_of(s.last()) <= 9);
    }
}

/// Numeric parse of one token: defined exactly when the token is one to
/// nine digits; its value is then below one billion.
pub open spec fn spec_parse_num(s: Seq<char>) -> Option<int> {
    if 1 <= s.len() <= 9 && all_digits(s) {
        Some(digits_val(s))
    } else {
        None
    }
}

pub fn parse_num(s: &[char]) -> (r: Option<i32>)
    ensures
        r is Some <==> spec_parse_num(s@) is Some,
        r matches Some(v) ==> spec_parse_num(s@) == Some(v as int) && 0 <= v < 1_000_000_000,
{
    if s.len() == 0 || s.len() > 9 {
        return None;
    }
    proof {
        lemma_pow10_mono(0, 9);
        assert(s@.subrange(0, 0) =~= Seq::<char>::empty());
    }
    let mut val: i32 = 0;
    let mut i: usize = 0;
    while i < s.len()
        invariant
            1 <= s@.len() <= 9,
            0 <= i <= s@.len(),
            forall|j: int| 0 <= j < i ==> is_digit(#[trigger] s@[j]),
            val as int == digits_val(s@.subrange(0, i as int)),
            0 <= val < pow10(i as nat),
            pow10(i as nat) <= pow10(9),
        decreases s@.len() - i,
    {
        let c = s[i];
        if !('0' <= c && c <= '9') {
            return None;
        }
        proof {
            assert(pow10(9) == 1_000_000_000) by {
                reveal_with_fuel(pow10, 10);
            }
            assert(pow10((i + 1) as nat) == 10 * pow10(i as nat));
            assert(pow10((i + 1) as nat) <= pow10(9)) by {
                lemma_pow10_mono((i + 1) as nat, 9);
            }
            let pre = s@.subrange(0, i as int);
            let cur = s@.subrange(0, i + 1);
            assert(cur.drop_last() =~= pre);
            assert(cur.last() == s@[i as int]);
        }
        val = val * 10 + ((c as u32) - ('0' as u32)) as i32;
        i += 1;
    }
    proof {
        assert(s@.subrange(0, s@.len() as int) =~= s@);
        assert(pow10(9) == 1_000_000_000) by {
            reveal_with_fuel(pow10, 10);
        }
    }
    Some(val)
}

pub proof fn lemma_pow10_mono(a: nat, b: nat)
    requires
        a <= b,
    ensures
        pow10(a) <= pow10(b),
        pow10(a) >= 1,
    decreases b,
{
    if b == 0 {
    } else if a == b {
        lemma_pow10_mono((a - 1) as nat, (b - 1) as nat);
    } else {
        lemma_pow10_mono(a, (b - 1) as nat);
    }
}

/// Index of the first occurrence of `c`, `-1` if absent.
pub open spec fn first_index_of(s: Seq<char>, c: char) -> int
    decreases s.len(),
{
    if s.len() == 0 {
        -1
    } else if s[0] == c {
        0
    } else {
        let sub = first_index_of(s.skip(1), c);
        if sub == -1 {
            -1
        } else {
            sub + 1
        }
    }
}

pub proof fn lemma_first_index_of(s: Seq<char>, c: char)
    ensures
        first_index_of(s, c) == -1 ==> forall|i: int| 0 <= i < s.len() ==> s[i] != c,
        first_index_of(s, c) != -1 ==> {
            let k = first_index_of(s, c);
            &&& 0 <= k < s.len()
            &&& s[k] == c
            &&& forall|i: int| 0 <= i < k ==> s[i] != c
        },
    decreases s.len(),
{
    if s.len() == 0 {
    } else if s[0] == c {
    } else {
        let t = s.skip(1);
        lemma_first_index_of(t, c);
        assert(forall|i: int| 0 <= i < t.len() ==> #[trigger] t[i] == s[i + 1]);
        let sub = first_index_of(t, c);
        if sub == -1 {
            assert(first_index_of(s, c) == -1);
            assert forall|i: int| 0 <= i < s.len() implies s[i] != c by {
                if i == 0 {
                } else {
                    assert(t[i - 1] != c);
                }
            }
        } else {
            let k = first_index_of(s, c);
            assert(k == sub + 1);
            assert(t[sub] == c);
            assert(s[k] == c);
            assert forall|i: int| 0 <= i < k implies s[i] != c by {
                if i == 0 {
                } else {
                    assert(t[i - 1] != c);
                }
            }
        }
    }
}

/// First index of `c` in the slice, scanning forward.
pub fn find_char(s: &[char], c: char) -> (r: Option<usize>)
    ensures
        r is Some <==> first_index_of(s@, c) != -1,
        r matches Some(k) ==> k as int == first_index_of(s@, c) && k < s@.len() && s@[k as int]
            == c && forall|j: int| 0 <= j < k ==> s@[j] != c,
{
    let mut i: usize = 0;
    while i < s.len()
        invariant
            0 <= i <= s@.len(),
            forall|j: int| 0 <= j < i ==> s@[j] != c,
        decreases s@.len() - i,
    {
        if s[i] == c {
            proof {
                lemma_first_index_of(s@, c);
                let k = first_index_of(s@, c);
                assert(k != -1);
                assert(k >= i as int);
                assert(k <= i as int);
            }
            return Some(i);
        }
        i += 1;
    }
    proof {
        lemma_first_index_of(s@, c);
    }
    None
}

/// The arithmetic progression `lo, lo + step, ...` capped at `hi`.
pub open spec fn step_seq(lo: int, hi: int, step: int) -> Seq<i32>
    decreases hi + 1 - lo,
{
    if lo > hi || step < 1 {
        Seq::empty()
    } else if lo + step > hi {
        seq![lo as i32]
    } else {
        seq![lo as i32] + step_seq(lo + step, hi, step)
    }
}

pub proof fn lemma_step_seq_props(lo: int, hi: int, step: int)
    requires
        step >= 1,
        -1000 <= lo,
        hi <= 1000,
    ensures
        crate::helpers::sorted_strict(step_seq(lo, hi, step)),
        crate::helpers::all_in(step_seq(lo, hi, step), lo, hi),
        lo <= hi ==> step_seq(lo, hi, step).len() > 0 && step_seq(lo, hi, step)[0] == lo as i32,
    decreases hi + 1 - lo,
{
    if lo > hi {
    } else if lo + step > hi {
        let whole = step_seq(lo, hi, step);
        assert(whole == seq![lo as i32]);
    } else {
        lemma_step_seq_props(lo + step, hi, step);
        let rest = step_seq(lo + step, hi, step);
        let whole = step_seq(lo, hi, step);
        assert(whole == seq![lo as i32] + rest);
        assert(whole[0] == lo as i32);
        assert(forall|i: int| 0 <= i < rest.len() ==> #[trigger] whole[i + 1] == rest[i]);
    }
}

/// Build the progression `lo, lo + step, ...` capped at `hi`.
pub fn build_step_values(lo: i32, hi: i32, step: i32) -> (v: Vec<i32>)
    requires
        -1000 <= lo,
        hi <= 1000,
        1 <= step <= 1_000_000_000,
    ensures
        v@ == step_seq(lo as int, hi as int, step as int),
{
    let mut v: Vec<i32> = Vec::new();
    let mut cur = lo;
    proof {
        assert(v@ + step_seq(lo as int, hi as int, step as int) =~= step_seq(
            lo as int,
            hi as int,
            step as int,
        ));
    }
    while cur <= hi
        invariant
            -1000 <= lo,
            hi <= 1000,
            1 <= step <= 1_000_000_000,
            lo <= cur,
            cur <= hi + step || cur == lo,
            v@ + step_seq(cur as int, hi as int, step as int) == step_seq(
                lo as int,
                hi as int,
                step as int,
            ),
        decreases hi + 1_000_000_001 - cur,
    {
        let ghost pre = v@;
        v.push(cur);
        proof {
            let rest = step_seq(cur + step, hi as int, step as int);
            if cur + step > hi {
                assert(step_seq(cur as int, hi as int, step as int) == seq![cur]);
                assert(rest =~= Seq::<i32>::empty());
            }
            assert(step_seq(cur as int, hi as int, step as int) =~= seq![cur] + rest);
            assert(v@ =~= pre + seq![cur]);
            assert(v@ + rest =~= pre + (seq![cur] + rest));
        }
        cur = cur + step;
    }
    proof {
        assert(step_seq(cur as int, hi as int, step as int) =~= Seq::<i32>::empty());
        assert(v@ + Seq::<i32>::empty() =~= v@);
    }
    v
}

/// Bounds admitted for an explicit `N-M` range of a field unit.
pub open spec fn spec_validate(u: Unit, start: int, end: int) -> bool {
    spec_lo(u) <= start && end <= spec_hi(u) && start <= end
}

impl Unit {
    /// Check an explicit range against the unit's domain: the bounds
    /// must lie inside it and must not be reversed.
    pub fn validate_range(&self, start: i32, end: i32) -> (r: Result<(i32, i32), CronError>)
        requires
            is_field_unit(*self),
        ensures
            r is Ok <==> spec_validate(*self, start as int, end as int),
            r matches Ok(p) ==> p == (start, end),
            r is Err ==> r == Result::<(i32, i32), CronError>::Err(CronError::ParseError),
    {
        let (lo, hi) = self.domain();
        if start < lo || end > hi || start > end {
            return Err(CronError::ParseError);
        }
        Ok((start, end))
    }
}

/// The value set one comma-separated token of a field denotes, if any:
/// `*`, `N`, `N-M`, `*/S` and `N-M/S` (`S` at least one); everything it
/// denotes lies in the unit's domain.
pub open spec fn spec_range_values(u: Unit, s: Seq<char>) -> Option<Seq<i32>> {
    let lo = spec_lo(u);
    let hi = spec_hi(u);
    if s.len() == 1 && s[0] == '*' {
        Some(step_seq(lo, hi, 1))
    } else if first_index_of(s, '/') != -1 {
        let k = first_index_of(s, '/');
        let base = s.subrange(0, k);
        let steps = s.subrange(k + 1, s.len() as int);
        match spec_parse_num(steps) {
            Option::None => Option::None,
            Option::Some(st) => if st < 1 {
                Option::None
            } else if base.len() == 1 && base[0] == '*' {
                Option::Some(step_seq(lo, hi, st))
            } else if first_index_of(base, '-') != -1 {
                let m = first_index_of(base, '-');
                let l = spec_parse_num(base.subrange(0, m));
                let r = spec_parse_num(base.subrange(m + 1, base.len() as int));
                if l is Some && r is Some && spec_validate(u, l.unwrap(), r.unwrap()) {
                    Option::Some(step_seq(l.unwrap(), r.unwrap(), st))
                } else {
                    Option::None
                }
            } else {
                Option::None
            },
        }
    } else if first_index_of(s, '-') != -1 {
        let m = first_index_of(s, '-');
        let l = spec_parse_num(s.subrange(0, m));
        let r = spec_parse_num(s.subrange(m + 1, s.len() as int));
        if l is Some && r is Some && spec_validate(u, l.unwrap(), r.unwrap()) {
            Option::Some(step_seq(l.unwrap(), r.unwrap(), 1))
        } else {
            Option::None
        }
    } else {
        match spec_parse_num(s) {
            Option::Some(n) => if spec_validate(u, n, n) {
                Option::Some(step_seq(n, n, 1))
            } else {
                Option::None
            },
            Option::None => Option::None,
        }
    }
}

impl Unit {
    /// Parse one comma-separated token of this unit's field into its
    /// ascending value list; fails exactly when the token denotes no
    /// value set.
    pub fn range_from_str(&self, v: &[char]) -> (r: Result<Vec<i32>, CronError>)
        requires
            is_field_unit(*self),
        ensures
            r is Ok <==> spec_range_values(*self, v@) is Some,
            r matches Ok(vals) ==> Option::Some(vals@) == spec_range_values(*self, v@),
            r is Err ==> r == Result::<Vec<i32>, CronError>::Err(CronError::ParseError),
    {
        let (lo, hi) = self.domain();
        if v.len() == 1 && v[0] == '*' {
            return Ok(build_step_values(lo, hi, 1));
        }
        if let Some(k) = find_char(v, '/') {
            let base = vstd::slice::slice_subrange(v, 0, k);
            let steps = vstd::slice::slice_subrange(v, k + 1, v.len());
            let st = match parse_num(steps) {
                Some(st) => st,
                None => {
                    return Err(CronError::ParseError);
                },
            };
            if st < 1 {
                return Err(CronError::ParseError);
            }
            if base.len() == 1 && base[0] == '*' {
                return Ok(build_step_values(lo, hi, st));
            }
            if let Some(m) = find_char(base, '-') {
                let ls = vstd::slice::slice_subrange(base, 0, m);
                let rs = vstd::slice::slice_subrange(base, m + 1, base.len());
                match (parse_num(ls), parse_num(rs)) {
                    (Some(a), Some(b)) => {
                        let (a2, b2) = match self.validate_range(a, b) {
                            Ok(p) => p,
                            Err(e) => {
                                return Err(e);
                            },
                        };
                        Ok(build_step_values(a2, b2, st))
                    },
                    _ => Err(CronError::ParseError),
                }
            } else {
                Err(CronError::ParseError)
            }
        } else if let Some(m) = find_char(v, '-') {
            let ls = vstd::slice::slice_subrange(v, 0, m);
            let rs = vstd::slice::slice_subrange(v, m + 1, v.len());
            match (parse_num(ls), parse_num(rs)) {
                (Some(a), Some(b)) => {
                    let (a2, b2) = match self.validate_range(a, b) {
                        Ok(p) => p,
                        Err(e) => {
                            return Err(e);
                        },
                    };
                    Ok(build_step_values(a2, b2, 1))
                },
                _ => Err(CronError::ParseError),
            }
        } else {
            match parse_num(v) {
                Some(n) => {
                    let (a2, b2) = match self.validate_range(n, n) {
                        Ok(p) => p,
                        Err(e) => {
                            return Err(e);
                        },
                    };
                    Ok(build_step_values(a2, b2, 1))
                },
                None => Err(CronError::ParseError),
            }
        }
    }
}

// ---------------------------------------------------------------------
// named month and weekday tokens
// ---------------------------------------------------------------------
/// Digits replacing a month name standing at the head of `s` (already
/// lower-cased), if one stands there.
pub open spec fn month_rep(s: Seq<char>) -> Option<Seq<char>> {
    if s.len() < 3 {
        Option::None
    } else if s[0] == 'j' && s[1] == 'a' && s[2] == 'n' {
        Option::Some(seq!['1'])
    } else if s[0] == 'f' && s[1] == 'e' && s[2] == 'b' {
        Option::Some(seq!['2'])
    } else if s[0] == 'm' && s[1] == 'a' && s[2] == 'r' {
        Option::Some(seq!['3'])
    } else if s[0] == 'a' && s[1] == 'p' && s[2] == 'r' {
        Option::Some(seq!['4'])
    } else if s[0] == 'm' && s[1] == 'a' && s[2] == 'y' {
        Option::Some(seq!['5'])
    } else if s[0] == 'j' && s[1] == 'u' && s[2] == 'n' {
        Option::Some(seq!['6'])
    } else if s[0] == 'j' && s[1] == 'u' && s[2] == 'l' {
        Option::Some(seq!['7'])
    } else if s[0] == 'a' && s[1] == 'u' && s[2] == 'g' {
        Option::Some(seq!['8'])
    } else if s[0] == 's' && s[1] == 'e' && s[2] == 'p' {
        Option::Some(seq!['9'])
    } else if s[0] == 'o' && s[1] == 'c' && s[2] == 't' {
        Option::Some(seq!['1', '0'])
    } else if s[0] == 'n' && s[1] == 'o' && s[2] == 'v' {
        Option::Some(seq!['1', '1'])
    } else if s[0] == 'd' && s[1] == 'e' && s[2] == 'c' {
        Option::Some(seq!['1', '2'])
    } else {
        Option::None
    }
}

/// Digits replacing a weekday name standing at the head of `s` (already
/// lower-cased), if one stands there; Sunday is zero.
pub open spec fn dow_rep(s: Seq<char>) -> Option<Seq<char>> {
    if s.len() < 3 {
        Option::None
    } else if s[0] == 's' && s[1] == 'u' && s[2] == 'n' {
        Option::Some(seq!['0'])
    } else if s[0] == 'm' && s[1] == 'o' && s[2] == 'n' {
        Option::Some(seq!['1'])
    } else if s[0] == 't' && s[1] == 'u' && s[2] == 'e' {
        Option::Some(seq!['2'])
    } else if s[0] == 'w' && s[1] == 'e' && s[2] == 'd' {
        Option::Some(seq!['3'])
    } else if s[0] == 't' && s[1] == 'h' && s[2] == 'u' {
        Option::Some(seq!['4'])
    } else if s[0] == 'f' && s[1] == 'r' && s[2] == 'i' {
        Option::Some(seq!['5'])
    } else if s[0] == 's' && s[1] == 'a' && s[2] == 't' {
        Option::Some(seq!['6'])
    } else {
        Option::None
    }
}

/// ASCII lower-casing of a whole sequence.
pub open spec fn spec_lower_seq(s: Seq<char>) -> Seq<char> {
    s.map_values(|c: char| spec_lower(c))
}

/// Left-to-right substitution of every month (or weekday) name by its
/// numeric value, every other character kept as it stands.
pub open spec fn spec_replace(month: bool, s: Seq<char>) -> Seq<char>
    decreases s.len(),
{
    if s.len() == 0 {
        s
    } else {
        let rep = if month {
            month_rep(s)
        } else {
            dow_rep(s)
        };
        match rep {
            Option::Some(d) => d + spec_replace(month, s.skip(3)),
            Option::None => seq![s[0]] + spec_replace(month, s.skip(1)),
        }
    }
}

/// The numeric normal form of a month or weekday field: lower-cased,
/// names replaced by their numbers.
pub open spec fn spec_to_num(u: Unit, s: Seq<char>) -> Seq<char> {
    spec_replace(u is Month, spec_lower_seq(s))
}

impl Unit {
    /// Normalize named tokens of a month or weekday field to numbers:
    /// the field is lower-cased and each three-letter name replaced by
    /// its numeric value, leaving range punctuation untouched.
    pub fn to_num(self, value: &Vec<char>) -> (r: Vec<char>)
        requires
            self is Month || self is Dow,
        ensures
            r@ == spec_to_num(self, value@),
    {
        let is_month = match self {
            Unit::Month => true,
            _ => false,
        };
        // lower-case pass
        let mut low: Vec<char> = Vec::new();
        let mut i: usize = 0;
        while i < value.len()
            invariant
                0 <= i <= value@.len(),
                low@.len() == i,
                forall|j: int| 0 <= j < i ==> #[trigger] low@[j] == spec_lower(value@[j]),
            decreases value@.len() - i,
        {
            low.push(lower_char(value[i]));
            i += 1;
        }
        proof {
            assert(low@ =~= spec_lower_seq(value@));
        }
        let ghost full = low@;
        // substitution pass
        let mut out: Vec<char> = Vec::new();
        let mut i: usize = 0;
        proof {
            assert(full.skip(0) =~= full);
        }
        while i < low.len()
            invariant
                0 <= i <= low@.len(),
                low@ == full,
                out@ + spec_replace(is_month, full.skip(i as int)) == spec_replace(
                    is_month,
                    full,
                ),
            decreases low@.len() - i,
        {
            let ghost rest = full.skip(i as int);
            let ghost out_pre = out@;
            let mut matched = false;
            if low.len() - i >= 3 {
                let c0 = low[i];
                let c1 = low[i + 1];
                let c2 = low[i + 2];
                proof {
                    assert(rest[0] == full[i as int]);
                    assert(rest[1] == full[i as int + 1]);
                    assert(rest[2] == full[i as int + 2]);
                }
                if is_month {
                    if c0 == 'j' && c1 == 'a' && c2 == 'n' {
                        out.push('1');
                        matched = true;
                    } else if c0 == 'f' && c1 == 'e' && c2 == 'b' {
                        out.push('2');
                        matched = true;
                    } else if c0 == 'm' && c1 == 'a' && c2 == 'r' {
                        out.push('3');
                        matched = true;
                    } else if c0 == 'a' && c1 == 'p' && c2 == 'r' {
                        out.push('4');
                        matched = true;
                    } else if c0 == 'm' && c1 == 'a' && c2 == 'y' {
                        out.push('5');
                        matched = true;
                    } else if c0 == 'j' && c1 == 'u' && c2 == 'n' {
                        out.push('6');
                        matched = true;
                    } else if c0 == 'j' && c1 == 'u' && c2 == 'l' {
                        out.push('7');
                        matched = true;
                    } else if c0 == 'a' && c1 == 'u' && c2 == 'g' {
                        out.push('8');
                        matched = true;
                    } else if c0 == 's' && c1 == 'e' && c2 == 'p' {
                        out.push('9');
                        matched = true;
                    } else if c0 == 'o' && c1 == 'c' && c2 == 't' {
                        out.push('1');
                        out.push('0');
                        matched = true;
                    } else if c0 == 'n' && c1 == 'o' && c2 == 'v' {
                        out.push('1');
                        out.push('1');
                        matched = true;
                    } else if c0 == 'd' && c1 == 'e' && c2 == 'c' {
                        out.push('1');
                        out.push('2');
                        matched = true;
                    }
                } else {
                    if c0 == 's' && c1 == 'u' && c2 == 'n' {
                        out.push('0');
                        matched = true;
                    } else if c0 == 'm' && c1 == 'o' && c2 == 'n' {
                        out.push('1');
                        matched = true;
                    } else if c0 == 't' && c1 == 'u' && c2 == 'e' {
                        out.push('2');
                        matched = true;
                    } else if c0 == 'w' && c1 == 'e' && c2 == 'd' {
                        out.push('3');
                        matched = true;
                    } else if c0 == 't' && c1 == 'h' && c2 == 'u' {
                        out.push('4');
                        matched = true;
                    } else if c0 == 'f' && c1 == 'r' && c2 == 'i' {
                        out.push('5');
                        matched = true;
                    } else if c0 == 's' && c1 == 'a' && c2 == 't' {
                        out.push('6');
                        matched = true;
                    }
                }
            }
            if matched {
                proof {
                    let rep = if is_month {
                        month_rep(rest)
                    } else {
                        dow_rep(rest)
                    };
                    assert(rep is Some);
                    assert(out@ =~= out_pre + rep.unwrap());
                    assert(rest.skip(3) =~= full.skip(i as int + 3));
                    assert(spec_replace(is_month, rest) == rep.unwrap() + spec_replace(
                        is_month,
                        rest.skip(3),
                    ));
                    assert(out@ + spec_replace(is_month, full.skip(i as int + 3)) =~= out_pre
                        + spec_replace(is_month, rest));
                }
                i += 3;
            } else {
                out.push(low[i]);
                proof {
                    let rep = if is_month {
                        month_rep(rest)
                    } else {
                        dow_rep(rest)
                    };
                    assert(rep is None);
                    assert(rest[0] == full[i as int]);
                    assert(out@ =~= out_pre + seq![rest[0]]);
                    assert(rest.skip(1) =~= full.skip(i as int + 1));
                    assert(spec_replace(is_month, rest) == seq![rest[0]] + spec_replace(
                        is_month,
                        rest.skip(1),
                    ));
                    assert(out@ + spec_replace(is_month, full.skip(i as int + 1)) =~= out_pre
                        + spec_replace(is_month, rest));
                }
                i += 1;
            }
        }
        proof {
            assert(full.skip(full.len() as int) =~= Seq::<char>::empty());
            assert(spec_replace(is_month, Seq::<char>::empty()) =~= Seq::<char>::empty());
            assert(out@ + Seq::<char>::empty() =~= out@);
        }
        out
    }

    /// Normalize the five fields of an expression: the month and weekday
    /// fields have their named tokens replaced by numbers, the others
    /// are kept as they stand.
    pub fn parse_to_numeric(fields: Vec<Vec<char>>) -> (r: Vec<Vec<char>>)
        requires
            fields@.len() == 5,
        ensures
            r@.len() == 5,
            r@[0]@ == fields@[0]@,
            r@[1]@ == fields@[1]@,
            r@[2]@ == fields@[2]@,
            r@[3]@ == spec_to_num(Unit::Month, fields@[3]@),
            r@[4]@ == spec_to_num(Unit::Dow, fields@[4]@),
    {
        let mut fields = fields;
        let f4 = fields.remove(4);
        let f3 = fields.remove(3);
        let n3 = Unit::Month.to_num(&f3);
        let n4 = Unit::Dow.to_num(&f4);
        fields.push(n3);
        fields.push(n4);
        fields
    }
}

} // verus!
