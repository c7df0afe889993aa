//! The text rendered for a day: its path, its link and the headings of its
//! events.

use crate::date::{CalendarDate, Ymd};
use crate::events::{event_models, Event, EventModel, Transit};
use vstd::prelude::*;
use vstd::string::StringExecFns;

verus! {

/// The character of a decimal digit.
pub open spec fn digit_char(d: nat) -> char {
    if d == 0 {
        '0'
    } else if d == 1 {
        '1'
    } else if d == 2 {
        '2'
    } else if d == 3 {
        '3'
    } else if d == 4 {
        '4'
    } else if d == 5 {
        '5'
    } else if d == 6 {
        '6'
    } else if d == 7 {
        '7'
    } else if d == 8 {
        '8'
    } else {
        '9'
    }
}

/// A natural number written in decimal digits, without leading zeros.
pub open spec fn decimal_digits(n: nat) -> Seq<char>
    decreases n,
{
    if n < 10 {
        seq![digit_char(n)]
    } else {
        decimal_digits(n / 10).push(digit_char(n % 10))
    }
}

/// An integer written in decimal digits, with a `-` before a negative one.
pub open spec fn decimal_text(n: int) -> Seq<char> {
    if n < 0 {
        seq!['-'] + decimal_digits((-n) as nat)
    } else {
        decimal_digits(n as nat)
    }
}

/// The ending that makes an ordinal of a count. It goes by the last digit,
/// but for 11 and 12.
pub open spec fn ordinal_ending(age: int) -> Seq<char> {
    if age == 11 || age == 12 {
        "th"@
    } else if age > 0 && age % 10 == 1 {
        "st"@
    } else if age > 0 && age % 10 == 2 {
        "nd"@
    } else if age > 0 && age % 10 == 3 {
        "rd"@
    } else {
        "th"@
    }
}

/// The heading for a birthday.
pub open spec fn birthday_heading(name: Seq<char>, age: int) -> Seq<char> {
    if age == 0 {
        "<h1>"@ + name + " has been born</h1>"@
    } else {
        "<h1>Happy "@ + decimal_text(age) + ordinal_ending(age) + " Birthday "@ + name + "</h1>"@
    }
}

/// The heading for a competition: its identifier, linked to its page.
pub open spec fn comp_heading(id: Seq<char>) -> Seq<char> {
    "<h1><a href=\"https://www.worldcubeassociation.org/competitions/"@ + id + "\">"@ + id
        + "</a></h1>"@
}

fn digit_text(d: u64) -> (r: &'static str)
    requires
        d < 10,
    ensures
        r@ == seq![digit_char(d as nat)],
{
    proof {
        reveal_strlit("0");
        reveal_strlit("1");
        reveal_strlit("2");
        reveal_strlit("3");
        reveal_strlit("4");
        reveal_strlit("5");
        reveal_strlit("6");
        reveal_strlit("7");
        reveal_strlit("8");
        reveal_strlit("9");
    }
    let r = if d == 0 {
        "0"
    } else if d == 1 {
        "1"
    } else if d == 2 {
        "2"
    } else if d == 3 {
        "3"
    } else if d == 4 {
        "4"
    } else if d == 5 {
        "5"
    } else if d == 6 {
        "6"
    } else if d == 7 {
        "7"
    } else if d == 8 {
        "8"
    } else {
        "9"
    };
    assert(r@ =~= seq![digit_char(d as nat)]);
    r
}

fn push_digits(out: &mut String, n: u64)
    ensures
        final(out)@ == old(out)@ + decimal_digits(n as nat),
    decreases n,
{
    if n >= 10 {
        push_digits(out, n / 10);
    }
    out.append(digit_text(n % 10));
    assert(final(out)@ =~= old(out)@ + decimal_digits(n as nat));
}

fn push_decimal(out: &mut String, n: i32)
    ensures
        final(out)@ == old(out)@ + decimal_text(n as int),
{
    if n < 0 {
        proof {
            reveal_strlit("-");
        }
        out.append("-");
        push_digits(out, (-(n as i64)) as u64);
        assert(final(out)@ =~= old(out)@ + decimal_text(n as int));
    } else {
        push_digits(out, n as u64);
    }
}

/// The heading for the birthday of `name` on turning `age`.
pub fn format_birthday(name: &String, age: i32) -> (r: String)
    ensures
        r@ == birthday_heading(name@, age as int),
{
    let mut out = String::from_str("<h1>");
    if age == 0 {
        out.append(name.as_str());
        out.append(" has been born</h1>");
        assert(out@ =~= birthday_heading(name@, age as int));
        return out;
    }
    out.append("Happy ");
    push_decimal(&mut out, age);
    let ending = if age == 11 || age == 12 {
        "th"
    } else if age % 10 == 1 {
        "st"
    } else if age % 10 == 2 {
        "nd"
    } else if age % 10 == 3 {
        "rd"
    } else {
        "th"
    };
    out.append(ending);
    out.append(" Birthday ");
    out.append(name.as_str());
    out.append("</h1>");
    proof {
        reveal_strlit("<h1>");
        reveal_strlit("Happy ");
        reveal_strlit("<h1>Happy ");
        assert("<h1>"@ + "Happy "@ =~= "<h1>Happy "@);
        assert(out@ =~= birthday_heading(name@, age as int));
    }
    out
}

/// The heading for the competition `id`.
pub fn format_comp(id: &String) -> (r: String)
    ensures
        r@ == comp_heading(id@),
{
    let mut out = String::from_str(
        "<h1><a href=\"https://www.worldcubeassociation.org/competitions/",
    );
    out.append(id.as_str());
    out.append("\">");
    out.append(id.as_str());
    out.append("</a></h1>");
    out
}

/// The heading for a leg of a journey: the same for every leg.
pub open spec fn transit_heading() -> Seq<char> {
    "bleh :p"@
}

/// The heading for an event on a day `age` years after its range began.
pub open spec fn heading(event: EventModel, age: int) -> Seq<char> {
    match event {
        EventModel::Birthday(name) => birthday_heading(name, age),
        EventModel::Comp(id) => comp_heading(id),
        EventModel::Transit(_) => transit_heading(),
    }
}

/// The headings for the events of a day, one after the other.
pub open spec fn headings(events: Seq<EventModel>, age: int) -> Seq<char>
    decreases events.len(),
{
    if events.len() == 0 {
        Seq::empty()
    } else {
        headings(events.drop_last(), age) + heading(events.last(), age)
    }
}

/// As many zeros as asked for.
pub open spec fn zeros(count: nat) -> Seq<char> {
    Seq::new(count, |i: int| '0')
}

/// A natural number in decimal digits, with zeros before it where it has
/// fewer digits than `width`.
pub open spec fn padded_digits(n: nat, width: nat) -> Seq<char> {
    let digits = decimal_digits(n);
    if digits.len() >= width {
        digits
    } else {
        zeros((width - digits.len()) as nat) + digits
    }
}

/// An integer filled up with zeros to `width` characters; the `-` of a
/// negative one counts as one of them and stands first.
pub open spec fn padded_text(n: int, width: nat) -> Seq<char> {
    if n < 0 {
        seq!['-'] + padded_digits((-n) as nat, (width - 1) as nat)
    } else {
        padded_digits(n as nat, width)
    }
}

/// The path of a day: year, month and day with `/` between them, the year
/// filled up to four characters, month and day to two.
pub open spec fn day_path_text(date: Ymd) -> Seq<char> {
    padded_text(date.year, 4) + seq!['/'] + padded_text(date.month, 2) + seq!['/'] + padded_text(
        date.day,
        2,
    )
}

/// The entry of the index for a day: its path, linked to its page.
pub open spec fn index_link_text(date: Ymd) -> Seq<char> {
    "<h1><a href=\""@ + day_path_text(date) + "\">"@ + day_path_text(date) + "</a></h1>"@
}

/// How many digits a number has, as far as padding needs to know.
proof fn lemma_digit_count(n: nat)
    ensures
        decimal_digits(n).len() >= 1,
        n < 10 ==> decimal_digits(n).len() == 1,
        10 <= n < 100 ==> decimal_digits(n).len() == 2,
        100 <= n < 1000 ==> decimal_digits(n).len() == 3,
        1000 <= n ==> decimal_digits(n).len() >= 4,
    decreases n,
{
    if n >= 10 {
        lemma_digit_count(n / 10);
    }
}

fn push_padded_digits(out: &mut String, n: u64, width: u64)
    requires
        width <= 4,
    ensures
        final(out)@ == old(out)@ + padded_digits(n as nat, width as nat),
{
    proof {
        reveal_strlit("0");
        lemma_digit_count(n as nat);
    }
    if n < 1000 && width >= 4 {
        out.append("0");
    }
    if n < 100 && width >= 3 {
        out.append("0");
    }
    if n < 10 && width >= 2 {
        out.append("0");
    }
    let ghost filled = out@;
    push_digits(out, n);
    proof {
        let digits = decimal_digits(n as nat);
        if digits.len() < width {
            assert(filled =~= old(out)@ + zeros((width - digits.len()) as nat));
        }
        assert(final(out)@ =~= old(out)@ + padded_digits(n as nat, width as nat));
    }
}

fn push_padded(out: &mut String, n: i64, width: u64)
    requires
        1 <= width <= 4,
        -0x1_0000_0000 <= n <= 0x1_0000_0000,
    ensures
        final(out)@ == old(out)@ + padded_text(n as int, width as nat),
{
    if n < 0 {
        proof {
            reveal_strlit("-");
        }
        out.append("-");
        push_padded_digits(out, (-n) as u64, width - 1);
        assert(final(out)@ =~= old(out)@ + padded_text(n as int, width as nat));
    } else {
        push_padded_digits(out, n as u64, width);
    }
}

fn push_day_path(out: &mut String, date: &CalendarDate)
    ensures
        final(out)@ == old(out)@ + day_path_text(date@),
{
    proof {
        reveal_strlit("/");
    }
    push_padded(out, date.year as i64, 4);
    out.append("/");
    push_padded(out, date.month as i64, 2);
    out.append("/");
    push_padded(out, date.day as i64, 2);
    assert(final(out)@ =~= old(out)@ + day_path_text(date@));
}

/// The path of the page for `date`.
pub fn day_path(date: &CalendarDate) -> (r: String)
    ensures
        r@ == day_path_text(date@),
{
    let mut out = String::new();
    push_day_path(&mut out, date);
    assert(out@ =~= day_path_text(date@));
    out
}

/// The entry of the index for `date`.
pub fn index_link(date: &CalendarDate) -> (r: String)
    ensures
        r@ == index_link_text(date@),
{
    let mut out = String::from_str("<h1><a href=\"");
    push_day_path(&mut out, date);
    out.append("\">");
    push_day_path(&mut out, date);
    out.append("</a></h1>");
    out
}

/// The headings for the events of a day `age` years after the range began,
/// one after the other in the order of the events.
pub fn format_events(events: &Vec<Event>, age: i32) -> (r: String)
    ensures
        r@ == headings(event_models(events@), age as int),
{
    let mut out = String::new();
    let mut i: usize = 0;
    assert(event_models(events@.take(0)) =~= Seq::<EventModel>::empty());
    while i < events.len()
        invariant
            i <= events.len(),
            out@ == headings(event_models(events@.take(i as int)), age as int),
        decreases events.len() - i,
    {
        proof {
            let seen = event_models(events@.take(i as int));
            let next = event_models(events@.take(i + 1));
            assert(next.drop_last() =~= seen);
            assert(next.last() == events[i as int]@);
        }
        let text = match &events[i] {
            Event::Birthday(name) => format_birthday(name, age),
            Event::Comp(id) => format_comp(id),
            Event::Transit(leg) => format_transit(leg),
        };
        out.append(text.as_str());
        i += 1;
    }
    assert(events@.take(i as int) =~= events@);
    out
}

/// The heading for a leg of a journey: the same for every leg.
pub fn format_transit(transit: &Transit) -> (r: String)
    ensures
        r@ == transit_heading(),
{
    String::from_str("bleh :p")
}

} // verus!
