//! Walking a resolved range date by date.

use crate::date::{
    chrono_add_days, chrono_add_months, lemma_next_day, lemma_plus_days, lemma_plus_months,
    lemma_rank_orders, lemma_years_do_not_return, view_opt, CalendarDate, Ymd, MAX_YEAR,
};
use crate::resolve::{resolve, resolve_spec, RangeModel, ResolvedRange, StepUnit};
use crate::specifier::{day_at, has_char, month_at, parse_spec, parse_specifier, RangeError};
use vstd::prelude::*;

verus! {

/// The date one step after `current`, or `None` where there is no further
/// step: the range does not repeat, or the step leaves the calendar.
pub open spec fn advance(current: Ymd, step: StepUnit) -> Option<Ymd> {
    match step {
        StepUnit::NoRepeat => None,
        StepUnit::Day => if current.next_day().year > MAX_YEAR {
            None
        } else {
            Some(current.next_day())
        },
        StepUnit::Month => current.checked_plus_months(1),
        StepUnit::Year => current.checked_plus_months(12),
    }
}

/// How far `current` is from passing `end`; 0 once it has.
pub open spec fn distance(current: Ymd, end: Ymd) -> nat {
    if current.le(end) {
        (end.rank() - current.rank() + 1) as nat
    } else {
        0
    }
}

/// The dates walked from `current` on: `current` itself while it is not past
/// `end`, then the dates from one step further on; the walk stops where
/// there is no further step.
pub open spec fn dates_from(current: Ymd, end: Ymd, step: StepUnit) -> Seq<Ymd>
    decreases distance(current, end),
    when current.valid() && end.valid()
{
    if !current.le(end) {
        Seq::empty()
    } else {
        match advance(current, step) {
            None => seq![current],
            Some(next) => seq![current] + dates_from(next, end, step),
        }
    }
}

/// The dates of a range, in the order in which they are walked.
pub open spec fn dates_of(range: RangeModel) -> Seq<Ymd> {
    dates_from(range.anchor, range.end, range.step)
}

/// The models of a list of dates.
pub open spec fn models(dates: Seq<CalendarDate>) -> Seq<Ymd> {
    dates.map_values(|d: CalendarDate| d@)
}

/// A step leads to a later date of the calendar.
pub proof fn lemma_advance(current: Ymd, step: StepUnit)
    requires
        current.valid(),
        advance(current, step) is Some,
    ensures
        advance(current, step)->0.valid(),
        current.rank() < advance(current, step)->0.rank(),
{
    match step {
        StepUnit::NoRepeat => {},
        StepUnit::Day => {
            lemma_next_day(current);
        },
        StepUnit::Month => {
            lemma_plus_months(current, 1);
        },
        StepUnit::Year => {
            lemma_plus_months(current, 12);
        },
    }
}

/// A walk starts on its first date, gives dates of the calendar from there
/// to the end of the range, and gives them in chronological order, none twice.
pub proof fn lemma_walk_is_ordered(current: Ymd, end: Ymd, step: StepUnit)
    requires
        current.valid(),
        end.valid(),
    ensures
        current.le(end) <==> dates_from(current, end, step).len() > 0,
        current.le(end) ==> dates_from(current, end, step)[0] == current,
        dates_from(current, end, step).len() <= distance(current, end),
        forall|i: int|
            0 <= i < dates_from(current, end, step).len() ==> {
                let d = #[trigger] dates_from(current, end, step)[i];
                d.valid() && current.le(d) && d.le(end)
            },
        forall|i: int, j: int|
            0 <= i < j < dates_from(current, end, step).len() ==> {
                let a = #[trigger] dates_from(current, end, step)[i];
                let b = #[trigger] dates_from(current, end, step)[j];
                a.le(b) && a != b
            },
    decreases distance(current, end),
{
    let dates = dates_from(current, end, step);
    if current.le(end) {
        match advance(current, step) {
            None => {},
            Some(next) => {
                lemma_advance(current, step);
                lemma_walk_is_ordered(next, end, step);
                let rest = dates_from(next, end, step);
                assert(dates == seq![current] + rest);
                assert forall|i: int| 0 <= i < dates.len() implies {
                    let d = #[trigger] dates[i];
                    d.valid() && current.le(d) && d.le(end) && (i > 0 ==> current != d)
                } by {
                    if i > 0 {
                        assert(dates[i] == rest[i - 1]);
                        lemma_rank_orders(next, rest[i - 1]);
                        lemma_rank_orders(current, rest[i - 1]);
                    }
                }
                assert forall|i: int, j: int| 0 <= i < j < dates.len() implies {
                    let a = #[trigger] dates[i];
                    let b = #[trigger] dates[j];
                    a.le(b) && a != b
                } by {
                    assert(dates[j] == rest[j - 1]);
                    if i > 0 {
                        assert(dates[i] == rest[i - 1]);
                    }
                }
            },
        }
    }
}

/// A walk by days from a date to the date `n` days later gives `n + 1`
/// dates: the first date and each of the `n` days after it, in their order.
pub proof fn lemma_walk_by_days(first: Ymd, n: nat)
    requires
        first.valid(),
        first.checked_plus_days(n) is Some,
    ensures
        dates_from(first, first.plus_days(n), StepUnit::Day).len() == n + 1,
        forall|i: int|
            0 <= i <= n ==> #[trigger] dates_from(first, first.plus_days(n), StepUnit::Day)[i]
                == first.plus_days(i as nat),
    decreases n,
{
    let end = first.plus_days(n);
    let dates = dates_from(first, end, StepUnit::Day);
    lemma_plus_days(first, n);
    lemma_next_day(first);
    let next = first.next_day();
    if n == 0 {
        if advance(first, StepUnit::Day) is Some {
            lemma_rank_orders(next, first);
            assert(dates_from(next, end, StepUnit::Day) =~= Seq::<Ymd>::empty());
            assert(dates =~= seq![first]);
        }
    } else {
        lemma_years_do_not_return(next, (n - 1) as nat);
        lemma_walk_by_days(next, (n - 1) as nat);
        let rest = dates_from(next, end, StepUnit::Day);
        assert(dates =~= seq![first] + rest);
        assert forall|i: int| 0 <= i <= n implies #[trigger] dates[i] == first.plus_days(
            i as nat,
        ) by {
            if i > 0 {
                assert(dates[i] == rest[i - 1]);
                assert(first.plus_days(i as nat) == next.plus_days((i - 1) as nat));
            }
        }
    }
}

/// A specifier without a `+` names one date. Whatever the reference date, its
/// range does not repeat and ends on its anchor, and the walk over it gives
/// the anchor and nothing else.
pub proof fn lemma_plain_specifier_is_one_date(s: Seq<char>, now: Ymd)
    requires
        parse_spec(s) is Ok,
        !s.contains('+'),
    ensures
        parse_date_range_spec(s, now) == Ok::<RangeModel, RangeError>(
            RangeModel {
                anchor: parse_spec(s)->Ok_0.anchor@,
                end: parse_spec(s)->Ok_0.anchor@,
                step: StepUnit::NoRepeat,
            },
        ),
        dates_of(parse_date_range_spec(s, now)->Ok_0) == seq![parse_spec(s)->Ok_0.anchor@],
{
    assert(!has_char(s, 4, '+'));
    assert(!has_char(s, month_at(s) + 2, '+'));
    assert(!has_char(s, day_at(s) + 2, '+'));
}

/// The walk over a range, one date per call of `next`.
#[derive(Clone, Copy, Debug)]
pub struct DateIter {
    pub current: CalendarDate,
    pub end: CalendarDate,
    pub step: StepUnit,
    pub finished: bool,
}

impl DateIter {
    /// Both dates are dates of the calendar.
    pub open spec fn wf(self) -> bool {
        self.current@.valid() && self.end@.valid()
    }

    /// The dates that the walk has yet to give.
    pub open spec fn remaining(self) -> Seq<Ymd> {
        if self.finished {
            Seq::empty()
        } else {
            dates_from(self.current@, self.end@, self.step)
        }
    }

    /// The walk over `range`, at its start.
    pub fn new(range: &ResolvedRange) -> (it: DateIter)
        requires
            range@.wf(),
        ensures
            it.wf(),
            it == (DateIter {
                current: range.anchor,
                end: range.end,
                step: range.step,
                finished: false,
            }),
            it.remaining() == dates_of(range@),
    {
        DateIter { current: range.anchor, end: range.end, step: range.step, finished: false }
    }

    /// The date one step after the current one, if the calendar has it.
    fn step_from_current(&self) -> (r: Option<CalendarDate>)
        requires
            self.wf(),
        ensures
            view_opt(r) == advance(self.current@, self.step),
    {
        match self.step {
            StepUnit::NoRepeat => None,
            StepUnit::Day => {
                proof {
                    reveal_with_fuel(Ymd::plus_days, 2);
                }
                chrono_add_days(self.current, 1)
            },
            StepUnit::Month => chrono_add_months(self.current, 1),
            StepUnit::Year => chrono_add_months(self.current, 12),
        }
    }

    /// Gives the next date of the walk, or `None` once the walk is over.
    ///
    /// The walk is over when an earlier call found no further step, or when
    /// the current date is past the end. Otherwise the current date is given,
    /// and the walk moves one step on or, where there is no further step,
    /// ends.
    pub fn next(&mut self) -> (r: Option<CalendarDate>)
        requires
            old(self).wf(),
        ensures
            final(self).wf(),
            final(self).end == old(self).end,
            final(self).step == old(self).step,
            old(self).remaining().len() == 0 <==> r is None,
            old(self).remaining().len() == 0 <==> (old(self).finished
                || !old(self).current@.le(old(self).end@)),
            r is None ==> *final(self) == *old(self),
            r is Some ==> r == Some(old(self).current),
            r is Some ==> old(self).remaining() == seq![old(self).current@]
                + final(self).remaining(),
            r is Some ==> final(self).finished == (advance(old(self).current@, old(self).step)
                is None),
            r is Some && !final(self).finished ==> Some(final(self).current@) == advance(
                old(self).current@,
                old(self).step,
            ),
            r is Some && final(self).finished ==> final(self).current == old(self).current,
    {
        if self.finished || !self.current.le(&self.end) {
            return None;
        }
        let out = self.current;
        proof {
            if advance(out@, self.step) is Some {
                lemma_advance(out@, self.step);
            }
        }
        match self.step_from_current() {
            Some(next) => {
                self.current = next;
            },
            None => {
                self.finished = true;
            },
        }
        Some(out)
    }
}

/// The dates of `range`, from its anchor on, in the order of the walk.
pub fn expand(range: &ResolvedRange) -> (dates: Vec<CalendarDate>)
    requires
        range@.wf(),
    ensures
        models(dates@) == dates_of(range@),
{
    let mut walk = DateIter::new(range);
    let mut dates: Vec<CalendarDate> = Vec::new();
    assert(models(dates@) + walk.remaining() =~= dates_of(range@));
    loop
        invariant
            walk.wf(),
            models(dates@) + walk.remaining() == dates_of(range@),
        ensures
            models(dates@) == dates_of(range@),
        decreases walk.remaining().len(),
    {
        let ghost before = models(dates@);
        match walk.next() {
            Some(date) => {
                dates.push(date);
                assert(models(dates@) =~= before + seq![date@]);
                assert(models(dates@) + walk.remaining() =~= dates_of(range@));
            },
            None => {
                assert(models(dates@) + walk.remaining() =~= models(dates@));
                break ;
            },
        }
    }
    dates
}

/// What `parse_date_range` gives for the text `s` and the reference date `now`.
pub open spec fn parse_date_range_spec(s: Seq<char>, now: Ymd) -> Result<RangeModel, RangeError> {
    match parse_spec(s) {
        Err(e) => Err(e),
        Ok(spec) => resolve_spec(spec, now),
    }
}

/// Parses a specifier and resolves it against the reference date `now`; gives
/// the walk over the range, at its start.
pub fn parse_date_range(date_range: &str, now: CalendarDate) -> (r: Result<DateIter, RangeError>)
    ensures
        match r {
            Ok(walk) => {
                &&& walk.wf()
                &&& !walk.finished
                &&& parse_date_range_spec(date_range@, now@) == Ok::<RangeModel, RangeError>(
                    RangeModel { anchor: walk.current@, end: walk.end@, step: walk.step },
                )
                &&& walk.remaining() == dates_of(parse_date_range_spec(date_range@, now@)->Ok_0)
            },
            Err(e) => parse_date_range_spec(date_range@, now@) == Err::<RangeModel, RangeError>(e),
        },
{
    let spec = match parse_specifier(date_range) {
        Ok(spec) => spec,
        Err(e) => { return Err(e); },
    };
    match resolve(&spec, now) {
        Ok(range) => Ok(DateIter::new(&range)),
        Err(e) => Err(e),
    }
}

/// The failure of one range of the calendar, with the text of the range.
#[derive(Debug)]
pub struct RangeFailure {
    pub specifier: String,
    pub kind: RangeError,
}

/// The dates of the range written as `date_range`, resolved against the
/// reference date `now`, in chronological order; or why the text gives none,
/// together with the text.
pub fn dates_of_entry(date_range: &str, now: CalendarDate) -> (r: Result<
    Vec<CalendarDate>,
    RangeFailure,
>)
    ensures
        match r {
            Ok(dates) => {
                &&& parse_date_range_spec(date_range@, now@) is Ok
                &&& models(dates@) == dates_of(parse_date_range_spec(date_range@, now@)->Ok_0)
            },
            Err(failure) => {
                &&& parse_date_range_spec(date_range@, now@) == Err::<RangeModel, RangeError>(
                    failure.kind,
                )
                &&& failure.specifier@ == date_range@
            },
        },
{
    let spec = match parse_specifier(date_range) {
        Ok(spec) => spec,
        Err(kind) => { return Err(RangeFailure { specifier: date_range.to_owned(), kind }); },
    };
    match resolve(&spec, now) {
        Ok(range) => Ok(expand(&range)),
        Err(kind) => Err(RangeFailure { specifier: date_range.to_owned(), kind }),
    }
}

} // verus!
