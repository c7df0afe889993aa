//! Civil dates and the calendar arithmetic the library rests on.

use chrono::Datelike;
use vstd::prelude::*;

verus! {

/// Largest year that a date can carry.
pub const MAX_YEAR: i32 = 262_142;

/// Smallest year that a date can carry.
pub const MIN_YEAR: i32 = -262_143;

/// The mathematical model of a date: year, month and day as integers.
pub struct Ymd {
    pub year: int,
    pub month: int,
    pub day: int,
}

pub open spec fn is_leap_year(year: int) -> bool {
    year % 4 == 0 && (year % 100 != 0 || year % 400 == 0)
}

pub open spec fn days_in_month(year: int, month: int) -> int {
    if month == 2 {
        if is_leap_year(year) { 29 } else { 28 }
    } else if month == 4 || month == 6 || month == 9 || month == 11 {
        30
    } else {
        31
    }
}

impl Ymd {
    /// The date exists in the proleptic Gregorian calendar and its year is in range.
    pub open spec fn valid(self) -> bool {
        &&& MIN_YEAR <= self.year <= MAX_YEAR
        &&& 1 <= self.month <= 12
        &&& 1 <= self.day <= days_in_month(self.year, self.month)
    }

    /// Chronological order: `self` is `other` or an earlier date.
    pub open spec fn le(self, other: Ymd) -> bool {
        self.year < other.year || (self.year == other.year && (self.month < other.month || (
        self.month == other.month && self.day <= other.day)))
    }

    /// A number that grows with the date; on valid dates it orders as `le` does.
    pub open spec fn rank(self) -> int {
        self.year * 372 + self.month * 31 + self.day
    }

    /// The day after `self`.
    pub open spec fn next_day(self) -> Ymd {
        if self.day < days_in_month(self.year, self.month) {
            Ymd { year: self.year, month: self.month, day: self.day + 1 }
        } else if self.month < 12 {
            Ymd { year: self.year, month: self.month + 1, day: 1 }
        } else {
            Ymd { year: self.year + 1, month: 1, day: 1 }
        }
    }

    /// The date `n` days after `self`, whatever its year.
    pub open spec fn plus_days(self, n: nat) -> Ymd
        decreases n,
    {
        if n == 0 {
            self
        } else {
            self.next_day().plus_days((n - 1) as nat)
        }
    }

    /// The date `n` days after `self`, or `None` where it lies past the last year.
    pub open spec fn checked_plus_days(self, n: nat) -> Option<Ymd> {
        if self.plus_days(n).year > MAX_YEAR {
            None
        } else {
            Some(self.plus_days(n))
        }
    }

    /// The date `n` months after `self`, its day pulled back to the last day of
    /// the month reached where that month is shorter; `None` past the last year.
    pub open spec fn checked_plus_months(self, n: nat) -> Option<Ymd> {
        let total = self.year * 12 + (self.month - 1) + n;
        let year = total / 12;
        let month = total % 12 + 1;
        let last = days_in_month(year, month);
        if year > MAX_YEAR {
            None
        } else {
            Some(Ymd { year, month, day: if self.day > last { last } else { self.day } })
        }
    }
}

/// A calendar date without a time of day.
#[derive(Clone, Copy, Debug, PartialEq, Eq, Structural)]
pub struct CalendarDate {
    pub year: i32,
    pub month: u32,
    pub day: u32,
}

impl View for CalendarDate {
    type V = Ymd;

    open spec fn view(&self) -> Ymd {
        Ymd { year: self.year as int, month: self.month as int, day: self.day as int }
    }
}

/// The views of two optional dates, for contracts that compare them with a model.
pub open spec fn view_opt(d: Option<CalendarDate>) -> Option<Ymd> {
    match d {
        Some(date) => Some(date@),
        None => None,
    }
}

/// Calls `chrono::NaiveDate::from_ymd_opt` and reports whether it found a date.
/// Trusted: chrono accepts exactly the days that exist in their month, leap
/// years by the Gregorian rule, with the year between `MIN_YEAR` and `MAX_YEAR`.
#[verifier::external_body]
fn chrono_date_exists(year: i32, month: u32, day: u32) -> (r: bool)
    ensures
        r == (Ymd { year: year as int, month: month as int, day: day as int }).valid(),
{
    chrono::NaiveDate::from_ymd_opt(year, month, day).is_some()
}

/// Calls `chrono::NaiveDate::checked_add_months`.
/// Trusted: chrono moves the date forward by whole months, keeps the day or
/// takes the last day of a shorter month, and gives `None` where the year
/// reached is past `MAX_YEAR`.
#[verifier::external_body]
pub(crate) fn chrono_add_months(date: CalendarDate, months: u32) -> (r: Option<CalendarDate>)
    requires
        date@.valid(),
    ensures
        view_opt(r) == date@.checked_plus_months(months as nat),
{
    let start = chrono::NaiveDate::from_ymd_opt(date.year, date.month, date.day)?;
    let moved = start.checked_add_months(chrono::Months::new(months))?;
    Some(CalendarDate { year: moved.year(), month: moved.month(), day: moved.day() })
}

/// Calls `chrono::NaiveDate::checked_add_signed` with a span of whole days
/// made by `chrono::TimeDelta::try_days`.
/// Trusted: chrono moves the date forward day by day through the calendar and
/// gives `None` where the date reached is past the last day of `MAX_YEAR`.
#[verifier::external_body]
pub(crate) fn chrono_add_days(date: CalendarDate, days: i64) -> (r: Option<CalendarDate>)
    requires
        date@.valid(),
        days >= 0,
    ensures
        view_opt(r) == date@.checked_plus_days(days as nat),
{
    let start = chrono::NaiveDate::from_ymd_opt(date.year, date.month, date.day)?;
    let moved = start.checked_add_signed(chrono::TimeDelta::try_days(days)?)?;
    Some(CalendarDate { year: moved.year(), month: moved.month(), day: moved.day() })
}

impl CalendarDate {
    /// The date of the given year, month and day, if there is one.
    pub fn new(year: i32, month: u32, day: u32) -> (r: Option<CalendarDate>)
        ensures
            r == if (Ymd { year: year as int, month: month as int, day: day as int }).valid() {
                Some(CalendarDate { year, month, day })
            } else {
                None
            },
    {
        if chrono_date_exists(year, month, day) {
            Some(CalendarDate { year, month, day })
        } else {
            None
        }
    }

    /// Whether `self` is `other` or an earlier date.
    pub fn le(&self, other: &CalendarDate) -> (r: bool)
        ensures
            r == self@.le(other@),
    {
        self.year < other.year || (self.year == other.year && (self.month < other.month || (
        self.month == other.month && self.day <= other.day)))
    }
}

/// On valid dates, chronological order is the order of ranks.
pub proof fn lemma_rank_orders(a: Ymd, b: Ymd)
    requires
        a.valid(),
        b.valid(),
    ensures
        a.le(b) <==> a.rank() <= b.rank(),
{
}

/// The day after a valid date is a later date, and a valid one unless the
/// year is the last.
pub proof fn lemma_next_day(d: Ymd)
    requires
        d.valid(),
    ensures
        d.rank() < d.next_day().rank(),
        d.le(d.next_day()),
        d.next_day().year <= MAX_YEAR ==> d.next_day().valid(),
        d.next_day().year > MAX_YEAR ==> d.next_day() == (Ymd {
            year: MAX_YEAR + 1,
            month: 1,
            day: 1,
        }),
{
}

/// Moving a valid date forward by months gives a valid date that is not
/// earlier, and a later one where at least one month is added.
pub proof fn lemma_plus_months(d: Ymd, n: nat)
    requires
        d.valid(),
        d.checked_plus_months(n) is Some,
    ensures
        d.checked_plus_months(n)->0.valid(),
        d.le(d.checked_plus_months(n)->0),
        n == 0 ==> d.checked_plus_months(n)->0 == d,
        n > 0 ==> d.rank() < d.checked_plus_months(n)->0.rank(),
{
}

/// Moving a valid date forward by days gives a valid date that is not
/// earlier, as long as the last year is not passed.
pub proof fn lemma_plus_days(d: Ymd, n: nat)
    requires
        d.valid(),
        d.checked_plus_days(n) is Some,
    ensures
        d.plus_days(n).valid(),
        d.le(d.plus_days(n)),
        d.rank() + n <= d.plus_days(n).rank(),
    decreases n,
{
    if n > 0 {
        lemma_next_day(d);
        lemma_years_do_not_return(d.next_day(), (n - 1) as nat);
        lemma_plus_days(d.next_day(), (n - 1) as nat);
    }
}

/// Days added never lead back to an earlier year.
pub proof fn lemma_years_do_not_return(d: Ymd, n: nat)
    requires
        1 <= d.month <= 12,
        1 <= d.day <= days_in_month(d.year, d.month),
    ensures
        d.plus_days(n).year >= d.year,
    decreases n,
{
    if n > 0 {
        lemma_years_do_not_return(d.next_day(), (n - 1) as nat);
    }
}

} // verus!
