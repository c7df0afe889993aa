use date_ranges::date::CalendarDate;
use date_ranges::expand::{dates_of_entry, expand, parse_date_range, DateIter};
use date_ranges::resolve::{resolve, ResolvedRange, StepUnit};
use date_ranges::specifier::{parse_specifier, DateRangeSpecifier, Offset, RangeError};

fn date(year: i32, month: u32, day: u32) -> CalendarDate {
    CalendarDate { year, month, day }
}

fn now() -> CalendarDate {
    date(2023, 6, 10)
}

fn walk(text: &str, now: CalendarDate) -> Vec<CalendarDate> {
    let mut it = parse_date_range(text, now).unwrap();
    let mut out = Vec::new();
    while let Some(d) = it.next() {
        out.push(d);
    }
    out
}

#[test]
fn plain_date_is_a_single_date() {
    let spec = parse_specifier("2021-07-04").unwrap();
    assert_eq!(spec.anchor, date(2021, 7, 4));
    assert_eq!(spec.years_offset, Offset::Absent);
    assert_eq!(spec.months_offset, Offset::Absent);
    assert_eq!(spec.days_offset, Offset::Absent);
    let range = resolve(&spec, now()).unwrap();
    assert_eq!(range.step, StepUnit::NoRepeat);
    assert_eq!(range.end, date(2021, 7, 4));
    assert_eq!(expand(&range), vec![date(2021, 7, 4)]);
    assert_eq!(walk("2021-07-04", now()), vec![date(2021, 7, 4)]);
}

#[test]
fn leap_day_parses_only_in_a_leap_year() {
    assert_eq!(parse_specifier("2024-02-29").unwrap().anchor, date(2024, 2, 29));
    assert_eq!(parse_specifier("2023-02-29"), Err(RangeError::InvalidAnchorDate));
    assert_eq!(parse_specifier("1900-02-29"), Err(RangeError::InvalidAnchorDate));
    assert_eq!(parse_specifier("2000-02-29").unwrap().anchor, date(2000, 2, 29));
}

#[test]
fn impossible_anchors_are_rejected() {
    assert_eq!(parse_specifier("2023-13-01"), Err(RangeError::InvalidAnchorDate));
    assert_eq!(parse_specifier("2023-00-10"), Err(RangeError::InvalidAnchorDate));
    assert_eq!(parse_specifier("2023-02-30"), Err(RangeError::InvalidAnchorDate));
    assert_eq!(parse_specifier("2023-04-31"), Err(RangeError::InvalidAnchorDate));
    assert_eq!(parse_specifier("2023-04-00"), Err(RangeError::InvalidAnchorDate));
    assert_eq!(parse_specifier("0000-01-01").unwrap().anchor, date(0, 1, 1));
}

#[test]
fn malformed_specifiers_are_rejected() {
    let bad = [
        "2000-01-01+5--01",
        "",
        "2000",
        "2000-01",
        "2000-1-01",
        "200-01-01",
        "20000-01-01",
        "2000-01-011",
        "2000-01-01-",
        "2000-01-01 ",
        " 2000-01-01",
        "2000/01/01",
        "2000-01-01++",
        "2000-01-01+-1",
        "2000++-01-01",
        "2000-01+x-01",
        "abcd-01-01",
        "2000-01-01+5x",
        "\u{ff12}000-01-01",
        "2000-01-01+\u{0663}",
    ];
    for text in bad {
        assert_eq!(parse_specifier(text), Err(RangeError::MalformedSpecifier), "{text:?}");
        assert!(matches!(parse_date_range(text, now()), Err(RangeError::MalformedSpecifier)));
    }
}

#[test]
fn offsets_are_read_after_each_field() {
    let spec = parse_specifier("2000+5-01+-02+0012").unwrap();
    assert_eq!(
        spec,
        DateRangeSpecifier {
            anchor: date(2000, 1, 2),
            years_offset: Offset::Explicit(5),
            months_offset: Offset::Auto,
            days_offset: Offset::Explicit(12),
        }
    );
    let spec = parse_specifier("2000+-01-02+").unwrap();
    assert_eq!(spec.years_offset, Offset::Auto);
    assert_eq!(spec.months_offset, Offset::Absent);
    assert_eq!(spec.days_offset, Offset::Auto);
}

#[test]
fn counts_must_fit_their_integers() {
    assert_eq!(
        parse_specifier("2000+4294967295-01-01").unwrap().years_offset,
        Offset::Explicit(4294967295)
    );
    assert_eq!(parse_specifier("2000+4294967296-01-01"), Err(RangeError::MalformedSpecifier));
    assert_eq!(parse_specifier("2000-01+4294967296-01"), Err(RangeError::MalformedSpecifier));
    assert_eq!(
        parse_specifier("2000-01-01+9223372036854775807").unwrap().days_offset,
        Offset::Explicit(9223372036854775807)
    );
    assert_eq!(
        parse_specifier("2000-01-01+9223372036854775808"),
        Err(RangeError::MalformedSpecifier)
    );
    assert_eq!(
        parse_specifier("2000-01-01+99999999999999999999999999"),
        Err(RangeError::MalformedSpecifier)
    );
    assert_eq!(
        parse_specifier("2000-01-01+000000000000000000000000007").unwrap().days_offset,
        Offset::Explicit(7)
    );
    // The anchor is judged before the counts.
    assert_eq!(
        parse_specifier("2023-02-30+99999999999999999999999999"),
        Err(RangeError::InvalidAnchorDate)
    );
}

#[test]
fn ten_days_give_eleven_dates() {
    let spec = parse_specifier("2020-06-15+10").unwrap();
    let range = resolve(&spec, now()).unwrap();
    assert_eq!(range.anchor, date(2020, 6, 15));
    assert_eq!(range.end, date(2020, 6, 25));
    assert_eq!(range.step, StepUnit::Day);
    let dates = expand(&range);
    assert_eq!(dates.len(), 11);
    for (i, d) in dates.iter().enumerate() {
        assert_eq!(*d, date(2020, 6, 15 + i as u32));
    }
    assert_eq!(walk("2020-06-15+10", now()), dates);
}

#[test]
fn days_cross_months_and_years() {
    let dates = walk("2019-12-30+3", now());
    assert_eq!(dates, vec![date(2019, 12, 30), date(2019, 12, 31), date(2020, 1, 1), date(2020, 1, 2)]);
    let dates = walk("2020-02-28+2", now());
    assert_eq!(dates, vec![date(2020, 2, 28), date(2020, 2, 29), date(2020, 3, 1)]);
    let range = resolve(&parse_specifier("2000-01-01+366").unwrap(), now()).unwrap();
    assert_eq!(range.end, date(2001, 1, 1));
}

#[test]
fn months_alone_end_on_the_anchor() {
    // The months added are the count of years, which is none here.
    let range = resolve(&parse_specifier("2020-01+1-31").unwrap(), now()).unwrap();
    assert_eq!(range.end, date(2020, 1, 31));
    assert_eq!(range.step, StepUnit::Month);
    assert_eq!(expand(&range), vec![date(2020, 1, 31)]);
}

#[test]
fn a_shorter_month_takes_its_last_day() {
    let range = resolve(&parse_specifier("2020+1-01+1-31").unwrap(), now()).unwrap();
    assert_eq!(range.end, date(2021, 2, 28));
    let range = resolve(&parse_specifier("2019+1-01+5-31").unwrap(), now()).unwrap();
    assert_eq!(range.end, date(2020, 2, 29));
    let range = ResolvedRange { anchor: date(2020, 1, 31), end: date(2020, 4, 30), step: StepUnit::Month };
    assert_eq!(
        expand(&range),
        vec![date(2020, 1, 31), date(2020, 2, 29), date(2020, 3, 29), date(2020, 4, 29)]
    );
}

#[test]
fn auto_years_count_up_to_now() {
    let spec = parse_specifier("2000+-01-01").unwrap();
    assert_eq!(spec.years_offset, Offset::Auto);
    let range = resolve(&spec, date(2023, 6, 10)).unwrap();
    assert_eq!(range.step, StepUnit::Year);
    assert_eq!(range.end, date(2023, 1, 1));
    let dates = expand(&range);
    assert_eq!(dates.len(), 24);
    for (i, d) in dates.iter().enumerate() {
        assert_eq!(*d, date(2000 + i as i32, 1, 1));
    }
}

#[test]
fn auto_counts_compare_field_by_field() {
    // Days: 10 - 4 = 6, whatever the months and years are.
    let range = resolve(&parse_specifier("2000-01-04+").unwrap(), date(2023, 6, 10)).unwrap();
    assert_eq!(range.end, date(2000, 1, 10));
    assert_eq!(range.step, StepUnit::Day);
    // Months: 6 - 2 = 4 is positive, so the count of years (none) is added.
    let range = resolve(&parse_specifier("2000-02+-04").unwrap(), date(2023, 6, 10)).unwrap();
    assert_eq!(range.end, date(2000, 2, 4));
    assert_eq!(range.step, StepUnit::Month);
}

#[test]
fn auto_counts_never_go_below_zero() {
    let range = resolve(&parse_specifier("2030+-12+-25+").unwrap(), date(2023, 6, 10)).unwrap();
    assert_eq!(range.end, date(2030, 12, 25));
    assert_eq!(range.step, StepUnit::NoRepeat);
    assert_eq!(expand(&range), vec![date(2030, 12, 25)]);
}

#[test]
fn years_and_months_add_the_years_twice() {
    let range = resolve(&parse_specifier("2020+2-01+3-15").unwrap(), now()).unwrap();
    assert_eq!(range.end, date(2022, 3, 15));
    assert_eq!(range.step, StepUnit::Month);
    let dates = expand(&range);
    assert_eq!(dates.len(), 27);
    assert_eq!(dates[0], date(2020, 1, 15));
    assert_eq!(dates[26], date(2022, 3, 15));
}

#[test]
fn explicit_zero_does_not_repeat() {
    let range = resolve(&parse_specifier("2020+0-01+0-15+0").unwrap(), now()).unwrap();
    assert_eq!(range.end, date(2020, 1, 15));
    assert_eq!(range.step, StepUnit::NoRepeat);
}

#[test]
fn the_finest_unit_walks_the_range() {
    let range = resolve(&parse_specifier("2020+1-01-30+2").unwrap(), now()).unwrap();
    assert_eq!(range.end, date(2021, 2, 1));
    assert_eq!(range.step, StepUnit::Day);
    assert_eq!(expand(&range).len(), 369);
    let range = resolve(&parse_specifier("2020+3-02-29").unwrap(), now()).unwrap();
    assert_eq!(range.end, date(2023, 2, 28));
    assert_eq!(range.step, StepUnit::Year);
    assert_eq!(
        expand(&range),
        vec![date(2020, 2, 29), date(2021, 2, 28), date(2022, 2, 28), date(2023, 2, 28)]
    );
}

#[test]
fn an_end_outside_the_calendar_is_an_overflow() {
    let cases = [
        "2000+262143-01-01",
        "2000+357913942-01-01",
        "2000+4294967295-01-01",
        "2000-01-01+9223372036854775807",
        "2000-01-01+2147483648",
        "2000-01-01+100000000",
        "2000+260142-12-31+1",
        "2000+357913941-01+1-01",
    ];
    for text in cases {
        let spec = parse_specifier(text).unwrap();
        assert_eq!(resolve(&spec, now()), Err(RangeError::DateOverflow), "{text:?}");
        assert!(matches!(parse_date_range(text, now()), Err(RangeError::DateOverflow)));
    }
    let range = resolve(&parse_specifier("2000+260142-12-31").unwrap(), now()).unwrap();
    assert_eq!(range.end, date(262142, 12, 31));
}

#[test]
fn a_walk_ends_where_the_calendar_ends() {
    let last = date(262142, 12, 31);
    for step in [StepUnit::Day, StepUnit::Month, StepUnit::Year, StepUnit::NoRepeat] {
        let mut it = DateIter::new(&ResolvedRange { anchor: last, end: last, step });
        assert_eq!(it.next(), Some(last));
        assert!(it.finished);
        assert_eq!(it.current, last);
        assert_eq!(it.next(), None);
        assert_eq!(it.next(), None);
    }
}

#[test]
fn next_gives_the_current_date_and_moves_on() {
    let mut it = parse_date_range("2021-03-30+2", now()).unwrap();
    assert_eq!(it.current, date(2021, 3, 30));
    assert_eq!(it.end, date(2021, 4, 1));
    assert_eq!(it.step, StepUnit::Day);
    assert!(!it.finished);
    assert_eq!(it.next(), Some(date(2021, 3, 30)));
    assert_eq!(it.current, date(2021, 3, 31));
    assert_eq!(it.next(), Some(date(2021, 3, 31)));
    assert_eq!(it.next(), Some(date(2021, 4, 1)));
    assert_eq!(it.current, date(2021, 4, 2));
    assert!(!it.finished);
    assert_eq!(it.next(), None);
    assert_eq!(it.current, date(2021, 4, 2));
}

#[test]
fn a_walk_that_starts_past_its_end_is_empty() {
    let mut it = DateIter {
        current: date(2021, 1, 2),
        end: date(2021, 1, 1),
        step: StepUnit::Day,
        finished: false,
    };
    assert_eq!(it.next(), None);
}

#[test]
fn dates_are_made_only_where_they_exist() {
    assert_eq!(CalendarDate::new(2024, 2, 29), Some(date(2024, 2, 29)));
    assert_eq!(CalendarDate::new(2023, 2, 29), None);
    assert_eq!(CalendarDate::new(2023, 0, 1), None);
    assert_eq!(CalendarDate::new(2023, 12, 32), None);
    assert_eq!(CalendarDate::new(262142, 12, 31), Some(date(262142, 12, 31)));
    assert_eq!(CalendarDate::new(262143, 1, 1), None);
    assert_eq!(CalendarDate::new(-262143, 1, 1), Some(date(-262143, 1, 1)));
    assert_eq!(CalendarDate::new(-262144, 12, 31), None);
}

#[test]
fn dates_compare_chronologically() {
    assert!(date(2020, 1, 31).le(&date(2020, 2, 1)));
    assert!(date(2019, 12, 31).le(&date(2020, 1, 1)));
    assert!(date(2020, 1, 1).le(&date(2020, 1, 1)));
    assert!(!date(2020, 1, 2).le(&date(2020, 1, 1)));
    assert!(!date(2021, 1, 1).le(&date(2020, 12, 31)));
}

#[test]
fn the_grammar_is_the_anchored_pattern() {
    let pattern = regex::Regex::new(
        r"^(?P<y>[0-9]{4})(?:\+(?P<yo>[0-9]*))?-(?P<m>[0-9]{2})(?:\+(?P<mo>[0-9]*))?-(?P<d>[0-9]{2})(?:\+(?P<do>[0-9]*))?$",
    )
    .unwrap();
    let pieces = ["", "2000", "-", "+", "01", "+5", "1"];
    let mut texts: Vec<String> = vec![String::new()];
    for _ in 0..6 {
        let mut longer = Vec::new();
        for t in &texts {
            for p in pieces {
                longer.push(format!("{t}{p}"));
            }
        }
        texts = longer;
    }
    let mut matched = 0;
    for t in &texts {
        let in_grammar = parse_specifier(t) != Err(RangeError::MalformedSpecifier);
        assert_eq!(in_grammar, pattern.is_match(t), "{t:?}");
        if in_grammar {
            matched += 1;
        }
    }
    assert!(matched > 0);
}

#[test]
fn an_entry_gives_its_dates_or_a_failure_with_its_text() {
    assert_eq!(
        dates_of_entry("2020-02-28+2", now()).unwrap(),
        vec![date(2020, 2, 28), date(2020, 2, 29), date(2020, 3, 1)]
    );
    assert_eq!(dates_of_entry("2020-02-28", now()).unwrap(), vec![date(2020, 2, 28)]);
    let failure = dates_of_entry("2020-02-30+2", now()).unwrap_err();
    assert_eq!(failure.specifier, "2020-02-30+2");
    assert_eq!(failure.kind, RangeError::InvalidAnchorDate);
    let failure = dates_of_entry("someday", now()).unwrap_err();
    assert_eq!(failure.specifier, "someday");
    assert_eq!(failure.kind, RangeError::MalformedSpecifier);
    let failure = dates_of_entry("9999+999999-01-01", now()).unwrap_err();
    assert_eq!(failure.specifier, "9999+999999-01-01");
    assert_eq!(failure.kind, RangeError::DateOverflow);
}

#[test]
fn walked_dates_are_in_order_and_within_the_range() {
    for text in ["2019-12-25+40", "2019+3-11+2-30", "1996+-02-29", "2023-06-01+"] {
        let spec = parse_specifier(text).unwrap();
        let range = resolve(&spec, now()).unwrap();
        assert!(range.anchor.le(&range.end));
        let dates = expand(&range);
        assert_eq!(dates[0], range.anchor);
        for pair in dates.windows(2) {
            assert!(pair[0].le(&pair[1]) && pair[0] != pair[1]);
        }
        for d in &dates {
            assert!(d.le(&range.end));
            assert_eq!(CalendarDate::new(d.year, d.month, d.day), Some(*d));
        }
    }
}
