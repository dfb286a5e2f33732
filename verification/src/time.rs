//! Calendar timestamps. The scheduler compares instants on a single timeline,
//! so every timestamp is reducible to microseconds since 1970-01-01T00:00:00Z;
//! the structured form (year, month, ...) is what the wire codec renders.

use vstd::prelude::*;

verus! {

/// A UTC instant with microsecond precision, held as plain calendar fields.
#[derive(Clone, Copy, PartialEq, Eq, Structural, Debug)]
pub struct Timestamp {
    pub year: u16,
    pub month: u8,
    pub day: u8,
    pub hour: u8,
    pub minute: u8,
    pub second: u8,
    pub micro: u32,
}

pub open spec fn is_leap_year(y: int) -> bool {
    (y % 4 == 0 && y % 100 != 0) || y % 400 == 0
}

pub open spec fn days_in_year(y: int) -> int {
    if is_leap_year(y) {
        366
    } else {
        365
    }
}

pub open spec fn days_in_month(y: int, m: int) -> int {
    if m == 2 {
        if is_leap_year(y) {
            29
        } else {
            28
        }
    } else if m == 4 || m == 6 || m == 9 || m == 11 {
        30
    } else {
        31
    }
}

/// Days on the timeline before January 1 of year `y`, counting from 1970.
pub open spec fn days_before_year(y: int) -> int
    decreases y,
{
    if y <= 1970 {
        0
    } else {
        days_before_year(y - 1) + days_in_year(y - 1)
    }
}

/// Days of year `y` that precede the first of month `m`.
pub open spec fn days_before_month(y: int, m: int) -> int
    decreases m,
{
    if m <= 1 {
        0
    } else {
        days_before_month(y, m - 1) + days_in_month(y, m - 1)
    }
}

/// The earliest and latest calendar years a timestamp may carry; the codec
/// renders years with exactly four digits and the timeline starts at the epoch.
pub const MIN_YEAR: u16 = 1970;

pub const MAX_YEAR: u16 = 9999;

pub open spec fn valid_timestamp(t: Timestamp) -> bool {
    &&& MIN_YEAR <= t.year <= MAX_YEAR
    &&& 1 <= t.month <= 12
    &&& 1 <= t.day <= days_in_month(t.year as int, t.month as int)
    &&& t.hour < 24
    &&& t.minute < 60
    &&& t.second < 60
    &&& t.micro < 1_000_000
}

/// Days on the timeline before the calendar day of `t`.
pub open spec fn days_of(t: Timestamp) -> int {
    days_before_year(t.year as int) + days_before_month(t.year as int, t.month as int) + (
    t.day as int - 1)
}

/// The single timeline: microseconds since 1970-01-01T00:00:00Z.
pub open spec fn micros_of(t: Timestamp) -> int {
    (((days_of(t) * 24 + t.hour as int) * 60 + t.minute as int) * 60 + t.second as int)
        * 1_000_000 + t.micro as int
}

proof fn lemma_days_before_year_bound(y: int)
    requires
        1970 <= y <= 10000,
    ensures
        0 <= days_before_year(y) <= 366 * (y - 1970),
    decreases y,
{
    if y > 1970 {
        lemma_days_before_year_bound(y - 1);
    }
}

proof fn lemma_days_before_month_bound(y: int, m: int)
    requires
        1 <= m <= 13,
    ensures
        0 <= days_before_month(y, m) <= 31 * (m - 1),
    decreases m,
{
    if m > 1 {
        lemma_days_before_month_bound(y, m - 1);
    }
}

/// Any valid timestamp sits between the epoch and a fixed upper bound well
/// inside `i64`.
pub proof fn lemma_micros_of_bounds(t: Timestamp)
    requires
        valid_timestamp(t),
    ensures
        0 <= micros_of(t) < 0x8000_0000_0000_0000,
{
    lemma_days_before_year_bound(t.year as int);
    lemma_days_before_month_bound(t.year as int, t.month as int);
}

/// The runtime twin of `valid_timestamp`, for callers that must test a value
/// before handing it to the functions that require validity.
pub fn valid_timestamp_exec(t: &Timestamp) -> (r: bool)
    ensures
        r == valid_timestamp(*t),
{
    MIN_YEAR <= t.year && t.year <= MAX_YEAR && 1 <= t.month && t.month <= 12 && 1 <= t.day
        && t.day <= Timestamp::days_in_month_exec(t.year, t.month) && t.hour < 24 && t.minute < 60
        && t.second < 60 && t.micro < 1_000_000
}

impl Timestamp {
    pub open spec fn wf(&self) -> bool {
        valid_timestamp(*self)
    }

    fn days_before_year_exec(year: u16) -> (r: i64)
        requires
            MIN_YEAR <= year <= MAX_YEAR,
        ensures
            r == days_before_year(year as int),
    {
        let mut days: i64 = 0;
        let mut y: u16 = MIN_YEAR;
        while y < year
            invariant
                MIN_YEAR <= y <= year <= MAX_YEAR,
                days == days_before_year(y as int),
                0 <= days <= 366 * (y - MIN_YEAR),
            decreases year - y,
        {
            if (y % 4 == 0 && y % 100 != 0) || y % 400 == 0 {
                days = days + 366;
            } else {
                days = days + 365;
            }
            y = y + 1;
        }
        days
    }

    pub fn days_in_month_exec(year: u16, month: u8) -> (r: u8)
        requires
            1 <= month <= 12,
        ensures
            r == days_in_month(year as int, month as int),
    {
        if month == 2 {
            if (year % 4 == 0 && year % 100 != 0) || year % 400 == 0 {
                29
            } else {
                28
            }
        } else if month == 4 || month == 6 || month == 9 || month == 11 {
            30
        } else {
            31
        }
    }

    fn days_before_month_exec(year: u16, month: u8) -> (r: i64)
        requires
            1 <= month <= 12,
        ensures
            r == days_before_month(year as int, month as int),
    {
        let mut days: i64 = 0;
        let mut m: u8 = 1;
        while m < month
            invariant
                1 <= m <= month <= 12,
                days == days_before_month(year as int, m as int),
                0 <= days <= 31 * (m - 1),
            decreases month - m,
        {
            days = days + Self::days_in_month_exec(year, m) as i64;
            m = m + 1;
        }
        days
    }

    /// Project this timestamp onto the timeline.
    pub fn to_micros(&self) -> (r: i64)
        requires
            self.wf(),
        ensures
            r == micros_of(*self),
            r >= 0,
    {
        proof {
            lemma_micros_of_bounds(*self);
            lemma_days_before_year_bound(self.year as int);
            lemma_days_before_month_bound(self.year as int, self.month as int);
        }
        let days: i64 = Self::days_before_year_exec(self.year)
            + Self::days_before_month_exec(self.year, self.month) + (self.day as i64 - 1);
        (((days * 24 + self.hour as i64) * 60 + self.minute as i64) * 60 + self.second as i64)
            * 1_000_000 + self.micro as i64
    }

    /// Whether this instant is no later than `other` on the timeline.
    pub fn le(&self, other: &Timestamp) -> (r: bool)
        requires
            self.wf(),
            other.wf(),
        ensures
            r == (micros_of(*self) <= micros_of(*other)),
    {
        self.to_micros() <= other.to_micros()
    }
}

} // verus!
