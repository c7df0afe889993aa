use date_ranges::crs::{crs, find_station};
use date_ranges::events::{events_of_kind, filter_calendar, Entry, Event, EventKind, Transit};
use date_ranges::date::CalendarDate;
use date_ranges::render::{
    day_path, format_birthday, format_comp, format_events, format_transit, index_link,
};

fn leg() -> Transit {
    Transit::Train { from: "EDB".to_string(), to: "BHG".to_string(), info: "ScotRail".to_string() }
}

fn sample() -> Vec<Entry> {
    vec![
        Entry {
            range: "2000+-03-14".to_string(),
            events: vec![Event::Birthday("Ann".to_string()), Event::Comp("Open2024".to_string())],
        },
        Entry { range: "2024-05-01+2".to_string(), events: vec![Event::Transit(leg())] },
        Entry { range: "2024-06-01".to_string(), events: vec![] },
        Entry {
            range: "2024-07-01".to_string(),
            events: vec![
                Event::Comp("A".to_string()),
                Event::Birthday("Bob".to_string()),
                Event::Comp("B".to_string()),
            ],
        },
    ]
}

fn show(entries: &[Entry]) -> Vec<String> {
    entries.iter().map(|e| format!("{e:?}")).collect()
}

#[test]
fn filtering_keeps_one_kind_and_drops_empty_entries() {
    let cal = sample();
    let birthdays = filter_calendar(&cal, EventKind::Birthday);
    assert_eq!(
        show(&birthdays),
        show(&[
            Entry { range: "2000+-03-14".to_string(), events: vec![Event::Birthday("Ann".to_string())] },
            Entry { range: "2024-07-01".to_string(), events: vec![Event::Birthday("Bob".to_string())] },
        ])
    );
    let comps = filter_calendar(&cal, EventKind::Comp);
    assert_eq!(
        show(&comps),
        show(&[
            Entry { range: "2000+-03-14".to_string(), events: vec![Event::Comp("Open2024".to_string())] },
            Entry {
                range: "2024-07-01".to_string(),
                events: vec![Event::Comp("A".to_string()), Event::Comp("B".to_string())],
            },
        ])
    );
    let legs = filter_calendar(&cal, EventKind::Transit);
    assert_eq!(
        show(&legs),
        show(&[Entry { range: "2024-05-01+2".to_string(), events: vec![Event::Transit(leg())] }])
    );
}

#[test]
fn the_three_kinds_split_every_entry() {
    let cal = sample();
    for entry in &cal {
        let mut parts: Vec<String> = Vec::new();
        for kind in [EventKind::Birthday, EventKind::Comp, EventKind::Transit] {
            for e in events_of_kind(&entry.events, kind) {
                assert_eq!(e.kind(), kind);
                parts.push(format!("{e:?}"));
            }
        }
        let mut whole: Vec<String> = entry.events.iter().map(|e| format!("{e:?}")).collect();
        parts.sort();
        whole.sort();
        assert_eq!(parts, whole);
    }
    let kept: usize = [EventKind::Birthday, EventKind::Comp, EventKind::Transit]
        .iter()
        .map(|k| filter_calendar(&cal, *k).iter().map(|e| e.events.len()).sum::<usize>())
        .sum();
    assert_eq!(kept, 6);
}

#[test]
fn filtering_an_empty_calendar_gives_an_empty_calendar() {
    assert!(filter_calendar(&Vec::new(), EventKind::Comp).is_empty());
    assert!(events_of_kind(&Vec::new(), EventKind::Comp).is_empty());
}

#[test]
fn clones_of_events_are_equal_to_them() {
    let e = Event::Transit(Transit::Bus {
        from: "a".to_string(),
        to: "b".to_string(),
        info: "22".to_string(),
    });
    assert_eq!(format!("{:?}", e.clone()), format!("{e:?}"));
    let w = Transit::Walk { from: "x".to_string(), to: "y".to_string() };
    assert_eq!(format!("{:?}", w.clone()), format!("{w:?}"));
}

#[test]
fn birthday_headings() {
    let ann = "Ann".to_string();
    assert_eq!(format_birthday(&ann, 0), "<h1>Ann has been born</h1>");
    assert_eq!(format_birthday(&ann, 1), "<h1>Happy 1st Birthday Ann</h1>");
    assert_eq!(format_birthday(&ann, 2), "<h1>Happy 2nd Birthday Ann</h1>");
    assert_eq!(format_birthday(&ann, 3), "<h1>Happy 3rd Birthday Ann</h1>");
    assert_eq!(format_birthday(&ann, 4), "<h1>Happy 4th Birthday Ann</h1>");
    assert_eq!(format_birthday(&ann, 10), "<h1>Happy 10th Birthday Ann</h1>");
    assert_eq!(format_birthday(&ann, 11), "<h1>Happy 11th Birthday Ann</h1>");
    assert_eq!(format_birthday(&ann, 12), "<h1>Happy 12th Birthday Ann</h1>");
    assert_eq!(format_birthday(&ann, 13), "<h1>Happy 13rd Birthday Ann</h1>");
    assert_eq!(format_birthday(&ann, 21), "<h1>Happy 21st Birthday Ann</h1>");
    assert_eq!(format_birthday(&ann, 100), "<h1>Happy 100th Birthday Ann</h1>");
    assert_eq!(format_birthday(&ann, 112), "<h1>Happy 112nd Birthday Ann</h1>");
    assert_eq!(format_birthday(&ann, -1), "<h1>Happy -1th Birthday Ann</h1>");
    assert_eq!(format_birthday(&ann, -23), "<h1>Happy -23th Birthday Ann</h1>");
    assert_eq!(
        format_birthday(&ann, i32::MAX),
        "<h1>Happy 2147483647th Birthday Ann</h1>"
    );
    assert_eq!(
        format_birthday(&ann, i32::MIN),
        "<h1>Happy -2147483648th Birthday Ann</h1>"
    );
}

#[test]
fn competition_heading_links_to_the_competition() {
    assert_eq!(
        format_comp(&"Edinburgh2024".to_string()),
        "<h1><a href=\"https://www.worldcubeassociation.org/competitions/Edinburgh2024\">Edinburgh2024</a></h1>"
    );
}

#[test]
fn transit_heading_is_fixed() {
    assert_eq!(format_transit(&leg()), "bleh :p");
    assert_eq!(
        format_transit(&Transit::Plane { from: "EDI".to_string(), to: "LHR".to_string() }),
        "bleh :p"
    );
}

#[test]
fn station_codes_name_their_stations() {
    assert_eq!(crs(&"EDB".to_string()), "Edinburgh Waverley");
    assert_eq!(crs(&"BHG".to_string()), "Bathgate");
    assert_eq!(find_station(&"EDB".to_string()), Some("Edinburgh Waverley"));
    assert_eq!(find_station(&"BHG".to_string()), Some("Bathgate"));
    assert_eq!(find_station(&"XYZ".to_string()), None);
    assert_eq!(find_station(&"".to_string()), None);
}

#[test]
fn day_paths_are_zero_padded() {
    let path = |year, month, day| day_path(&CalendarDate { year, month, day });
    assert_eq!(path(2024, 2, 9), "2024/02/09");
    assert_eq!(path(2024, 12, 31), "2024/12/31");
    assert_eq!(path(0, 1, 1), "0000/01/01");
    assert_eq!(path(7, 10, 5), "0007/10/05");
    assert_eq!(path(75, 1, 1), "0075/01/01");
    assert_eq!(path(987, 1, 1), "0987/01/01");
    assert_eq!(path(12345, 6, 7), "12345/06/07");
    assert_eq!(path(262142, 12, 31), "262142/12/31");
    assert_eq!(path(-5, 3, 4), "-005/03/04");
    assert_eq!(path(-1234, 3, 4), "-1234/03/04");
    for (year, month, day) in [(2024, 2, 9), (3, 11, 30), (-42, 1, 1), (-262143, 7, 7), (99999, 9, 9)] {
        assert_eq!(path(year, month, day), format!("{:04}/{:02}/{:02}", year, month, day));
    }
}

#[test]
fn index_links_point_to_the_day() {
    assert_eq!(
        index_link(&CalendarDate { year: 2024, month: 2, day: 9 }),
        "<h1><a href=\"2024/02/09\">2024/02/09</a></h1>"
    );
}

#[test]
fn headings_of_a_day_follow_the_events() {
    let events = vec![
        Event::Birthday("Ann".to_string()),
        Event::Transit(leg()),
        Event::Comp("Open2024".to_string()),
    ];
    assert_eq!(
        format_events(&events, 22),
        "<h1>Happy 22nd Birthday Ann</h1>bleh :p<h1><a href=\"https://www.worldcubeassociation.org/competitions/Open2024\">Open2024</a></h1>"
    );
    assert_eq!(format_events(&events[..1].to_vec(), 0), "<h1>Ann has been born</h1>");
    assert_eq!(format_events(&Vec::new(), 5), "");
}
