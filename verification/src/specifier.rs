//! The textual form of a date range and its parser.
//!
//! A specifier reads `YYYY[+[N]]-MM[+[N]]-DD[+[N]]`, in ASCII digits. After
//! each of the three fields a `+` asks for recurrence in that unit: followed
//! by digits it gives the count, alone it leaves the count to be taken from
//! the reference date.

use crate::date::{CalendarDate, Ymd};
use vstd::prelude::*;
use vstd::string::StrSliceExecFns;

verus! {

/// The recurrence asked for in one unit.
#[derive(Clone, Copy, Debug, PartialEq, Eq, Structural)]
pub enum Offset {
    /// No recurrence in this unit.
    Absent,
    /// A fixed count.
    Explicit(u64),
    /// A count taken from the reference date when the range is resolved.
    Auto,
}

/// A parsed specifier: the anchor date and the recurrence in each unit.
#[derive(Clone, Copy, Debug, PartialEq, Eq, Structural)]
pub struct DateRangeSpecifier {
    pub anchor: CalendarDate,
    pub years_offset: Offset,
    pub months_offset: Offset,
    pub days_offset: Offset,
}

/// Why a specifier gave no sequence of dates.
#[derive(Clone, Copy, Debug, PartialEq, Eq, Structural)]
pub enum RangeError {
    /// The text is not of the grammar, or a count does not fit its integer.
    MalformedSpecifier,
    /// The anchor's fields are not a date of the calendar.
    InvalidAnchorDate,
    /// The end of the range lies outside the years that a date can carry.
    DateOverflow,
}

/// Greatest count accepted for years and for months.
pub const MAX_UNIT_COUNT: u64 = 0xffff_ffff;

/// Greatest count accepted for days.
pub const MAX_DAY_COUNT: u64 = 0x7fff_ffff_ffff_ffff;

impl DateRangeSpecifier {
    /// The anchor is a date of the calendar.
    pub open spec fn wf(self) -> bool {
        self.anchor@.valid()
    }
}

pub open spec fn is_digit(c: char) -> bool {
    '0' <= c && c <= '9'
}

pub open spec fn digit_value(c: char) -> nat {
    (c as int - '0' as int) as nat
}

/// The number written by a string of decimal digits; 0 for the empty string.
pub open spec fn decimal_value(digits: Seq<char>) -> nat
    decreases digits.len(),
{
    if digits.len() == 0 {
        0
    } else {
        decimal_value(digits.drop_last()) * 10 + digit_value(digits.last())
    }
}

/// `count` digits stand in `s` from position `from` on.
pub open spec fn digits_at(s: Seq<char>, from: int, count: int) -> bool {
    &&& 0 <= from
    &&& from + count <= s.len()
    &&& forall|i: int| from <= i < from + count ==> is_digit(#[trigger] s[i])
}

/// How many digits stand in `s` from position `from` on, up to the first
/// character that is none.
pub open spec fn digit_run(s: Seq<char>, from: int) -> nat
    decreases s.len() - from,
{
    if 0 <= from < s.len() && is_digit(s[from]) {
        1 + digit_run(s, from + 1)
    } else {
        0
    }
}

/// The character `c` stands in `s` at position `at`.
pub open spec fn has_char(s: Seq<char>, at: int, c: char) -> bool {
    0 <= at < s.len() && s[at] == c
}

/// Length of the recurrence suffix at position `at`: a `+` and the digits
/// after it, or nothing.
pub open spec fn suffix_len(s: Seq<char>, at: int) -> nat {
    if has_char(s, at, '+') {
        1 + digit_run(s, at + 1)
    } else {
        0
    }
}

/// The recurrence that the suffix at position `at` asks for, or `None` where
/// its count is greater than `limit`.
pub open spec fn suffix_offset(s: Seq<char>, at: int, limit: nat) -> Option<Offset> {
    let len = suffix_len(s, at);
    let count = decimal_value(s.subrange(at + 1, at + len));
    if len == 0 {
        Some(Offset::Absent)
    } else if len == 1 {
        Some(Offset::Auto)
    } else if count <= limit {
        Some(Offset::Explicit(count as u64))
    } else {
        None
    }
}

/// Where the month field starts.
pub open spec fn month_at(s: Seq<char>) -> int {
    5 + suffix_len(s, 4) as int
}

/// Where the day field starts.
pub open spec fn day_at(s: Seq<char>) -> int {
    month_at(s) + 3 + suffix_len(s, month_at(s) + 2) as int
}

/// `s` is of the grammar: three fields of four, two and two digits, a `-`
/// before the second and the third, a suffix or none after each, and nothing
/// else.
pub open spec fn matches_grammar(s: Seq<char>) -> bool {
    &&& digits_at(s, 0, 4)
    &&& has_char(s, month_at(s) - 1, '-')
    &&& digits_at(s, month_at(s), 2)
    &&& has_char(s, day_at(s) - 1, '-')
    &&& digits_at(s, day_at(s), 2)
    &&& day_at(s) + 2 + suffix_len(s, day_at(s) + 2) == s.len()
}

/// The anchor that a string of the grammar names, valid or not.
pub open spec fn anchor_fields(s: Seq<char>) -> Ymd {
    Ymd {
        year: decimal_value(s.subrange(0, 4)) as int,
        month: decimal_value(s.subrange(month_at(s), month_at(s) + 2)) as int,
        day: decimal_value(s.subrange(day_at(s), day_at(s) + 2)) as int,
    }
}

/// What parsing `s` gives.
pub open spec fn parse_spec(s: Seq<char>) -> Result<DateRangeSpecifier, RangeError> {
    let anchor = anchor_fields(s);
    let years = suffix_offset(s, 4, MAX_UNIT_COUNT as nat);
    let months = suffix_offset(s, month_at(s) + 2, MAX_UNIT_COUNT as nat);
    let days = suffix_offset(s, day_at(s) + 2, MAX_DAY_COUNT as nat);
    if !matches_grammar(s) {
        Err(RangeError::MalformedSpecifier)
    } else if !anchor.valid() {
        Err(RangeError::InvalidAnchorDate)
    } else if years is None || months is None || days is None {
        Err(RangeError::MalformedSpecifier)
    } else {
        Ok(
            DateRangeSpecifier {
                anchor: CalendarDate {
                    year: anchor.year as i32,
                    month: anchor.month as u32,
                    day: anchor.day as u32,
                },
                years_offset: years->0,
                months_offset: months->0,
                days_offset: days->0,
            },
        )
    }
}

/// A string of `n` digits writes a number below the `n`-th power of ten (for
/// the widths that a field can have).
pub proof fn lemma_decimal_value_bound(digits: Seq<char>)
    requires
        digits.len() <= 4,
        forall|i: int| 0 <= i < digits.len() ==> is_digit(#[trigger] digits[i]),
    ensures
        digits.len() == 0 ==> decimal_value(digits) == 0,
        digits.len() == 1 ==> decimal_value(digits) <= 9,
        digits.len() == 2 ==> decimal_value(digits) <= 99,
        digits.len() == 3 ==> decimal_value(digits) <= 999,
        digits.len() == 4 ==> decimal_value(digits) <= 9999,
    decreases digits.len(),
{
    if digits.len() > 0 {
        lemma_decimal_value_bound(digits.drop_last());
    }
}

fn digit_of(c: char) -> (d: u64)
    requires
        is_digit(c),
    ensures
        d == digit_value(c),
        d <= 9,
{
    (c as u64) - ('0' as u64)
}

fn is_ascii_digit(c: char) -> (r: bool)
    ensures
        r == is_digit(c),
{
    '0' <= c && c <= '9'
}

/// The characters of `text`, one by one.
fn chars_of(text: &str) -> (chars: Vec<char>)
    ensures
        chars@ == text@,
{
    let n: usize = text.unicode_len();
    let mut chars: Vec<char> = Vec::new();
    let mut i: usize = 0;
    while i < n
        invariant
            n == text@.len(),
            i <= n,
            chars@ == text@.subrange(0, i as int),
        decreases n - i,
    {
        chars.push(text.get_char(i));
        i += 1;
        assert(chars@ =~= text@.subrange(0, i as int));
    }
    assert(text@.subrange(0, n as int) =~= text@);
    chars
}

/// Reads a field of `count` digits at `from`.
fn read_field(chars: &Vec<char>, from: usize, count: usize) -> (r: Option<u32>)
    requires
        count <= 4,
    ensures
        r is Some <==> digits_at(chars@, from as int, count as int),
        r is Some ==> r->0 == decimal_value(chars@.subrange(from as int, from + count)),
        r is Some ==> r->0 <= 9999,
{
    if from > chars.len() || chars.len() - from < count {
        return None;
    }
    let ghost s = chars@;
    let mut value: u32 = 0;
    let mut i: usize = 0;
    while i < count
        invariant
            s == chars@,
            count <= 4,
            from + count <= chars.len(),
            i <= count,
            digits_at(s, from as int, i as int),
            value == decimal_value(s.subrange(from as int, from + i)),
            value <= 9999,
        decreases count - i,
    {
        let c: char = chars[from + i];
        if !is_ascii_digit(c) {
            return None;
        }
        proof {
            let next = s.subrange(from as int, from + i + 1);
            assert(next.drop_last() =~= s.subrange(from as int, from + i));
            assert(next.last() == c);
            assert forall|k: int| 0 <= k < next.len() implies is_digit(#[trigger] next[k]) by {
                assert(next[k] == s[from + k]);
            }
            lemma_decimal_value_bound(next);
        }
        value = value * 10 + digit_of(c) as u32;
        i += 1;
    }
    Some(value)
}

/// Reads the recurrence suffix at `at`; gives the position after it and the
/// recurrence, or `None` for it where the count is greater than `limit`.
fn read_suffix(chars: &Vec<char>, at: usize, limit: u64) -> (r: (usize, Option<Offset>))
    requires
        at <= chars@.len(),
        limit >= 9,
    ensures
        r.0 == at + suffix_len(chars@, at as int),
        r.0 <= chars@.len(),
        r.1 == suffix_offset(chars@, at as int, limit as nat),
{
    let ghost s = chars@;
    if at >= chars.len() || chars[at] != '+' {
        return (at, Some(Offset::Absent));
    }
    let first: usize = at + 1;
    let mut i: usize = first;
    let mut count: u64 = 0;
    let mut too_large: bool = false;
    while i < chars.len() && is_ascii_digit(chars[i])
        invariant
            s == chars@,
            first == at + 1,
            first <= i <= chars.len(),
            limit >= 9,
            digit_run(s, first as int) == (i - first) + digit_run(s, i as int),
            !too_large ==> count == decimal_value(s.subrange(first as int, i as int)) && count
                <= limit,
            too_large ==> decimal_value(s.subrange(first as int, i as int)) > limit,
        decreases s.len() - i,
    {
        let d: u64 = digit_of(chars[i]);
        proof {
            let next = s.subrange(first as int, i + 1);
            assert(next.drop_last() =~= s.subrange(first as int, i as int));
            assert(next.last() == s[i as int]);
        }
        if !too_large {
            if count > (limit - d) / 10 {
                too_large = true;
            } else {
                count = count * 10 + d;
            }
        }
        i += 1;
    }
    if i == first {
        (i, Some(Offset::Auto))
    } else if too_large {
        (i, None)
    } else {
        (i, Some(Offset::Explicit(count)))
    }
}

/// Parses a specifier.
///
/// The text must be of the grammar, else the error is `MalformedSpecifier`.
/// Its three fields must name a date of the calendar, else the error is
/// `InvalidAnchorDate`. A count of years or months must fit 32 bits, a count
/// of days 63 bits, else the error is `MalformedSpecifier` again.
pub fn parse_specifier(text: &str) -> (r: Result<DateRangeSpecifier, RangeError>)
    ensures
        r == parse_spec(text@),
        r is Ok ==> r->Ok_0.wf(),
{
    let chars = chars_of(text);
    let ghost s = chars@;
    let year = match read_field(&chars, 0, 4) {
        Some(v) => v,
        None => { return Err(RangeError::MalformedSpecifier); },
    };
    let (after_year, years) = read_suffix(&chars, 4, MAX_UNIT_COUNT);
    if after_year >= chars.len() || chars[after_year] != '-' {
        return Err(RangeError::MalformedSpecifier);
    }
    let month = match read_field(&chars, after_year + 1, 2) {
        Some(v) => v,
        None => { return Err(RangeError::MalformedSpecifier); },
    };
    let (after_month, months) = read_suffix(&chars, after_year + 3, MAX_UNIT_COUNT);
    if after_month >= chars.len() || chars[after_month] != '-' {
        return Err(RangeError::MalformedSpecifier);
    }
    let day = match read_field(&chars, after_month + 1, 2) {
        Some(v) => v,
        None => { return Err(RangeError::MalformedSpecifier); },
    };
    let (after_day, days) = read_suffix(&chars, after_month + 3, MAX_DAY_COUNT);
    if after_day != chars.len() {
        return Err(RangeError::MalformedSpecifier);
    }
    assert(matches_grammar(s));
    let anchor = match CalendarDate::new(year as i32, month, day) {
        Some(date) => date,
        None => { return Err(RangeError::InvalidAnchorDate); },
    };
    match (years, months, days) {
        (Some(years_offset), Some(months_offset), Some(days_offset)) => Ok(
            DateRangeSpecifier { anchor, years_offset, months_offset, days_offset },
        ),
        _ => Err(RangeError::MalformedSpecifier),
    }
}

} // verus!
