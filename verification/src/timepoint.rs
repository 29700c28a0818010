//! Calendar instants as plain integer fields.

use vstd::prelude::*;

use chrono::{Datelike, Timelike};

verus! {

/// A calendar instant: year, month, day, hour and minute as plain
/// integers. A resolved instant satisfies [`TimePoint::in_ranges`];
/// during next-occurrence resolution the minute may temporarily sit at
/// `-1`, one step below the smallest real minute.
#[derive(Clone, Copy, Debug, PartialEq, Eq, Structural)]
pub struct TimePoint {
    pub year: i32,
    pub month: i32,
    pub day: i32,
    pub hour: i32,
    pub minute: i32,
}

/// Largest year the resolution engine accepts as a starting point, kept
/// well below the range of the calendar library so that a bounded
/// forward scan can never leave that range.
pub const MAX_YEAR: i32 = 200_000;

/// Smallest year the resolution engine accepts as a starting point.
pub const MIN_YEAR: i32 = 1;

impl TimePoint {
    /// The month index on an absolute month axis: total months since
    /// year zero. Strictly monotone in (year, month).
    pub open spec fn month_index(self) -> int {
        self.year * 12 + self.month
    }

    /// Lexicographic strict order on (year, month, day, hour, minute).
    pub open spec fn lt(self, other: Self) -> bool {
        ||| self.month_index() < other.month_index()
        ||| (self.month_index() == other.month_index() && self.day < other.day)
        ||| (self.month_index() == other.month_index() && self.day == other.day
            && self.hour < other.hour)
        ||| (self.month_index() == other.month_index() && self.day == other.day
            && self.hour == other.hour && self.minute < other.minute)
    }

    /// Field ranges of a fully resolved instant, month granularity:
    /// the day must additionally fit the month, which
    /// [`crate::helpers::days_in_month`] decides.
    pub open spec fn in_ranges(self) -> bool {
        &&& MIN_YEAR <= self.year <= MAX_YEAR + 32
        &&& 1 <= self.month <= 12
        &&& 1 <= self.day <= 31
        &&& 0 <= self.hour <= 23
        &&& 0 <= self.minute <= 59
    }

    /// Ranges admitted while a scan is in progress: the minute may be
    /// `-1`, meaning "before the first minute of this hour".
    pub open spec fn in_scan_ranges(self) -> bool {
        &&& MIN_YEAR <= self.year <= MAX_YEAR + 32
        &&& 1 <= self.month <= 12
        &&& 1 <= self.day <= 31
        &&& 0 <= self.hour <= 23
        &&& -1 <= self.minute <= 59
    }

    pub fn new(year: i32, month: i32, day: i32, hour: i32, minute: i32) -> (r: TimePoint)
        ensures
            r == (TimePoint { year, month, day, hour, minute }),
    {
        TimePoint { year, month, day, hour, minute }
    }

    /// Strict lexicographic comparison, executable form of [`TimePoint::lt`].
    pub fn before(&self, other: &TimePoint) -> (r: bool)
        requires
            self.in_scan_ranges(),
            other.in_scan_ranges(),
        ensures
            r == self.lt(*other),
    {
        if self.year != other.year {
            self.year < other.year
        } else if self.month != other.month {
            self.month < other.month
        } else if self.day != other.day {
            self.day < other.day
        } else if self.hour != other.hour {
            self.hour < other.hour
        } else {
            self.minute < other.minute
        }
    }
}

#[verifier::external_type_specification]
#[verifier::external_body]
pub struct ExNaiveDateTime(chrono::NaiveDateTime);

/// Relies on the `Datelike` / `Timelike` accessors of
/// `chrono::NaiveDateTime`: the calendar fields of the given instant,
/// each within the range its documentation gives.
#[verifier::external_body]
pub fn to_hash(time: chrono::NaiveDateTime) -> (r: TimePoint)
    ensures
        1 <= r.month <= 12,
        1 <= r.day <= 31,
        0 <= r.hour <= 23,
        0 <= r.minute <= 59,
        -300_000 <= r.year <= 300_000,
{
    TimePoint {
        year: time.year(),
        month: time.month() as i32,
        day: time.day() as i32,
        hour: time.hour() as i32,
        minute: time.minute() as i32,
    }
}

/// Relies on `chrono::NaiveDate::from_ymd_opt` and
/// `NaiveDate::and_hms_opt`: an in-range instant converts to the
/// calendar library's representation; the bounds rule the `None` cases
/// out.
#[verifier::external_body]
pub fn from_hash(t: TimePoint) -> (r: chrono::NaiveDateTime)
    requires
        t.in_ranges(),
        t.day as int <= crate::helpers::spec_days_in_month(t.year as int, t.month as int),
{
    chrono::NaiveDate::from_ymd_opt(t.year, t.month as u32, t.day as u32)
        .unwrap()
        .and_hms_opt(t.hour as u32, t.minute as u32, 0)
        .unwrap()
}

/// Relies on `chrono::Utc::now` and the `Datelike` / `Timelike`
/// accessors: the calendar fields of the current instant, each within
/// the range its documentation gives, the year within the range the
/// calendar library can represent at all.
#[verifier::external_body]
pub fn now_timepoint() -> (r: TimePoint)
    ensures
        1 <= r.month <= 12,
        1 <= r.day <= 31,
        0 <= r.hour <= 23,
        0 <= r.minute <= 59,
        -300_000 <= r.year <= 300_000,
{
    let now = chrono::Utc::now().naive_utc();
    TimePoint {
        year: now.year(),
        month: now.month() as i32,
        day: now.day() as i32,
        hour: now.hour() as i32,
        minute: now.minute() as i32,
    }
}

} // verus!
