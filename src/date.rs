//! Calendar dates, as the expected arrival of a shipment.

use vstd::prelude::*;

verus! {

/// Earliest year that the calendar backend represents.
pub const MIN_YEAR: i32 = -262143;

/// Latest year that the calendar backend represents.
pub const MAX_YEAR: i32 = 262142;

/// Leap years of the proleptic Gregorian calendar.
pub open spec fn is_leap_year(y: int) -> bool {
    (y % 4 == 0 && y % 100 != 0) || y % 400 == 0
}

pub open spec fn days_in_month(y: int, m: int) -> int {
    if m == 2 {
        if is_leap_year(y) { 29 } else { 28 }
    } else if m == 4 || m == 6 || m == 9 || m == 11 {
        30
    } else {
        31
    }
}

/// `year-month-day` names a day of the proleptic Gregorian calendar within
/// the supported range of years.
pub open spec fn valid_ymd(y: int, m: int, d: int) -> bool {
    &&& MIN_YEAR <= y <= MAX_YEAR
    &&& 1 <= m <= 12
    &&& 1 <= d <= days_in_month(y, m)
}

/// Relies on `chrono::NaiveDate::from_ymd_opt`, which returns a date exactly
/// when the year lies within chrono's supported range (`MIN_YEAR..=MAX_YEAR`)
/// and the month and day name an existing day of the Gregorian calendar.
#[verifier::external_body]
fn calendar_accepts(year: i32, month: u32, day: u32) -> (r: bool)
    ensures
        r == valid_ymd(year as int, month as int, day as int),
{
    chrono::NaiveDate::from_ymd_opt(year, month, day).is_some()
}

/// A calendar day. Dates order chronologically, which for valid dates is the
/// lexicographic order of `(year, month, day)`.
#[derive(Clone, Copy, Debug, PartialEq, Eq, Hash, Structural)]
pub struct Date {
    year: i32,
    month: u32,
    day: u32,
}

impl Date {
    pub closed spec fn spec_year(self) -> int {
        self.year as int
    }

    pub closed spec fn spec_month(self) -> int {
        self.month as int
    }

    pub closed spec fn spec_day(self) -> int {
        self.day as int
    }

    /// Every `Date` names an existing day.
    pub open spec fn wf(self) -> bool {
        valid_ymd(self.spec_year(), self.spec_month(), self.spec_day())
    }

    /// The date `year-month-day`, or `None` where no such day exists.
    pub fn from_ymd(year: i32, month: u32, day: u32) -> (r: Option<Date>)
        ensures
            r is Some <==> valid_ymd(year as int, month as int, day as int),
            r matches Some(d) ==> d.wf() && d.spec_year() == year && d.spec_month() == month
                && d.spec_day() == day,
    {
        if calendar_accepts(year, month, day) {
            Some(Date { year, month, day })
        } else {
            None
        }
    }

    pub fn year(&self) -> (r: i32)
        ensures
            r == self.spec_year(),
    {
        self.year
    }

    pub fn month(&self) -> (r: u32)
        ensures
            r == self.spec_month(),
    {
        self.month
    }

    pub fn day(&self) -> (r: u32)
        ensures
            r == self.spec_day(),
    {
        self.day
    }
}

/// Chronological comparison of two dates.
pub open spec fn date_cmp(a: Date, b: Date) -> std::cmp::Ordering {
    if a.spec_year() != b.spec_year() {
        if a.spec_year() < b.spec_year() { std::cmp::Ordering::Less } else { std::cmp::Ordering::Greater }
    } else if a.spec_month() != b.spec_month() {
        if a.spec_month() < b.spec_month() { std::cmp::Ordering::Less } else { std::cmp::Ordering::Greater }
    } else if a.spec_day() != b.spec_day() {
        if a.spec_day() < b.spec_day() { std::cmp::Ordering::Less } else { std::cmp::Ordering::Greater }
    } else {
        std::cmp::Ordering::Equal
    }
}

/// Compares two dates chronologically.
pub fn compare_dates(a: &Date, b: &Date) -> (r: std::cmp::Ordering)
    ensures
        r == date_cmp(*a, *b),
{
    if a.year != b.year {
        if a.year < b.year { std::cmp::Ordering::Less } else { std::cmp::Ordering::Greater }
    } else if a.month != b.month {
        if a.month < b.month { std::cmp::Ordering::Less } else { std::cmp::Ordering::Greater }
    } else if a.day != b.day {
        if a.day < b.day { std::cmp::Ordering::Less } else { std::cmp::Ordering::Greater }
    } else {
        std::cmp::Ordering::Equal
    }
}

} // verus!
