//! From a parsed specifier and a reference date to a bounded range.
//!
//! Each unit's recurrence becomes a count: none gives 0, a fixed count gives
//! itself, and "up to now" gives the difference between the reference date's
//! field and the anchor's, or 0 where that is negative. The fields are
//! compared one by one, so such a count is a coarse distance, not elapsed time.

use crate::date::{
    chrono_add_days, chrono_add_months, lemma_plus_days, lemma_plus_months, CalendarDate, Ymd,
};
use crate::specifier::{DateRangeSpecifier, Offset, RangeError, MAX_DAY_COUNT, MAX_UNIT_COUNT};
use vstd::prelude::*;

verus! {

/// The unit in which a range is walked.
#[derive(Clone, Copy, Debug, PartialEq, Eq, Structural)]
pub enum StepUnit {
    /// The range is its anchor alone.
    NoRepeat,
    Day,
    Month,
    Year,
}

/// A range ready to be walked: from `anchor` to `end`, by `step`.
#[derive(Clone, Copy, Debug, PartialEq, Eq, Structural)]
pub struct ResolvedRange {
    pub anchor: CalendarDate,
    pub end: CalendarDate,
    pub step: StepUnit,
}

/// The mathematical model of a resolved range.
pub struct RangeModel {
    pub anchor: Ymd,
    pub end: Ymd,
    pub step: StepUnit,
}

impl View for ResolvedRange {
    type V = RangeModel;

    open spec fn view(&self) -> RangeModel {
        RangeModel { anchor: self.anchor@, end: self.end@, step: self.step }
    }
}

impl RangeModel {
    /// Both dates are dates of the calendar and the end is not before the anchor.
    pub open spec fn wf(self) -> bool {
        &&& self.anchor.valid()
        &&& self.end.valid()
        &&& self.anchor.le(self.end)
    }
}

/// The count that a recurrence resolves to, given the reference date's field
/// and the anchor's field of the same unit.
pub open spec fn resolved_count(offset: Offset, now_field: int, anchor_field: int) -> nat {
    match offset {
        Offset::Absent => 0,
        Offset::Explicit(n) => n as nat,
        Offset::Auto => if now_field > anchor_field {
            (now_field - anchor_field) as nat
        } else {
            0
        },
    }
}

/// The unit that walks the range: the finest one with a positive count.
pub open spec fn step_for(years: nat, months: nat, days: nat) -> StepUnit {
    if days > 0 {
        StepUnit::Day
    } else if months > 0 {
        StepUnit::Month
    } else if years > 0 {
        StepUnit::Year
    } else {
        StepUnit::NoRepeat
    }
}

/// The anchor moved by a positive count of years, as twelve months each.
pub open spec fn after_years(anchor: Ymd, years: nat) -> Option<Ymd> {
    if years > 0 {
        anchor.checked_plus_months(12 * years)
    } else {
        Some(anchor)
    }
}

/// A date moved for a positive count of months. The amount added is the
/// count of years, not the count of months: a range that recurs in both units
/// ends that many months after its last year, and one that recurs in months
/// alone ends on its anchor's month.
pub open spec fn after_months(date: Ymd, years: nat, months: nat) -> Option<Ymd> {
    if months > 0 {
        date.checked_plus_months(years)
    } else {
        Some(date)
    }
}

/// A date moved by a positive count of days.
pub open spec fn after_days(date: Ymd, days: nat) -> Option<Ymd> {
    if days > 0 {
        date.checked_plus_days(days)
    } else {
        Some(date)
    }
}

/// The end of the range: the anchor moved for years, then for months, then
/// for days; `None` where one of the moves leaves the calendar.
pub open spec fn end_of(anchor: Ymd, years: nat, months: nat, days: nat) -> Option<Ymd> {
    match after_years(anchor, years) {
        None => None,
        Some(y) => match after_months(y, years, months) {
            None => None,
            Some(m) => after_days(m, days),
        },
    }
}

/// What resolving `spec` against the reference date `now` gives.
pub open spec fn resolve_spec(spec: DateRangeSpecifier, now: Ymd) -> Result<
    RangeModel,
    RangeError,
> {
    let anchor = spec.anchor@;
    let years = resolved_count(spec.years_offset, now.year, anchor.year);
    let months = resolved_count(spec.months_offset, now.month, anchor.month);
    let days = resolved_count(spec.days_offset, now.day, anchor.day);
    match end_of(anchor, years, months, days) {
        None => Err(RangeError::DateOverflow),
        Some(end) => Ok(RangeModel { anchor, end, step: step_for(years, months, days) }),
    }
}

/// A range and its model, or an error and the same error.
pub open spec fn same_outcome(
    r: Result<ResolvedRange, RangeError>,
    model: Result<RangeModel, RangeError>,
) -> bool {
    match r {
        Ok(range) => model == Ok::<RangeModel, RangeError>(range@),
        Err(e) => model == Err::<RangeModel, RangeError>(e),
    }
}

/// The end of a range is a date of the calendar, and not before the anchor.
pub proof fn lemma_end_follows_anchor(anchor: Ymd, years: nat, months: nat, days: nat)
    requires
        anchor.valid(),
        end_of(anchor, years, months, days) is Some,
    ensures
        end_of(anchor, years, months, days)->0.valid(),
        anchor.le(end_of(anchor, years, months, days)->0),
{
    let y = after_years(anchor, years)->0;
    if years > 0 {
        lemma_plus_months(anchor, 12 * years);
    }
    let m = after_months(y, years, months)->0;
    if months > 0 {
        lemma_plus_months(y, years);
    }
    if days > 0 {
        lemma_plus_days(m, days);
    }
}

/// A count too large for the calendar: that many days after any date lies
/// past the last year.
proof fn lemma_too_many_days(date: Ymd, days: nat)
    requires
        date.valid(),
        days > MAX_DAY_COUNT,
    ensures
        date.checked_plus_days(days) is None,
{
    if date.checked_plus_days(days) is Some {
        lemma_plus_days(date, days);
    }
}

fn count_of(offset: Offset, now_field: i64, anchor_field: i64) -> (n: u64)
    requires
        -0x1_0000_0000 <= now_field <= 0x1_0000_0000,
        -0x1_0000_0000 <= anchor_field <= 0x1_0000_0000,
    ensures
        n == resolved_count(offset, now_field as int, anchor_field as int),
{
    match offset {
        Offset::Absent => 0,
        Offset::Explicit(n) => n,
        Offset::Auto => if now_field > anchor_field {
            (now_field - anchor_field) as u64
        } else {
            0
        },
    }
}

/// Resolves a specifier against the reference date `now`.
///
/// Gives the range from the anchor to the end that the counts lead to, with
/// the unit that walks it, or `DateOverflow` where that end is no date that
/// the calendar can carry.
pub fn resolve(spec: &DateRangeSpecifier, now: CalendarDate) -> (r: Result<
    ResolvedRange,
    RangeError,
>)
    requires
        spec.wf(),
    ensures
        same_outcome(r, resolve_spec(*spec, now@)),
        r is Ok ==> r->Ok_0@.wf(),
{
    let anchor = spec.anchor;
    let years = count_of(spec.years_offset, now.year as i64, anchor.year as i64);
    let months = count_of(spec.months_offset, now.month as i64, anchor.month as i64);
    let days = count_of(spec.days_offset, now.day as i64, anchor.day as i64);
    proof {
        if end_of(anchor@, years as nat, months as nat, days as nat) is Some {
            lemma_end_follows_anchor(anchor@, years as nat, months as nat, days as nat);
        }
    }
    let mut end = anchor;
    if years > 0 {
        if years > MAX_UNIT_COUNT / 12 {
            assert(anchor@.checked_plus_months(12 * (years as nat)) is None);
            return Err(RangeError::DateOverflow);
        }
        match chrono_add_months(end, (12 * years) as u32) {
            Some(moved) => { end = moved; },
            None => { return Err(RangeError::DateOverflow); },
        }
        proof {
            lemma_plus_months(anchor@, 12 * (years as nat));
        }
    }
    let ghost with_years = end@;
    if months > 0 {
        match chrono_add_months(end, years as u32) {
            Some(moved) => { end = moved; },
            None => { return Err(RangeError::DateOverflow); },
        }
        proof {
            lemma_plus_months(with_years, years as nat);
        }
    }
    if days > 0 {
        if days > MAX_DAY_COUNT {
            proof {
                lemma_too_many_days(end@, days as nat);
            }
            return Err(RangeError::DateOverflow);
        }
        match chrono_add_days(end, days as i64) {
            Some(moved) => { end = moved; },
            None => { return Err(RangeError::DateOverflow); },
        }
    }
    let step = if days > 0 {
        StepUnit::Day
    } else if months > 0 {
        StepUnit::Month
    } else if years > 0 {
        StepUnit::Year
    } else {
        StepUnit::NoRepeat
    };
    Ok(ResolvedRange { anchor, end, step })
}

} // verus!
