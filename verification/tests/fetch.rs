use calenderdot::date::{Date, DateTime};
use calenderdot::event::{hash_to_color, CalendarEvent, FILE_EVENT_COLOR};
use calenderdot::fetch::{collect_events, list_events, CacheRecord, Source, StoredOccurrence};

fn d(year: i32, month: u32, day: u32) -> Date {
    Date { year, month, day }
}

fn at(date: Date, hour: u32, minute: u32) -> Option<DateTime> {
    Some(DateTime { date, hour, minute, second: 0, nanosecond: 0 })
}

fn row(object: &str, summary: &str) -> CacheRecord {
    CacheRecord { object: object.to_string(), summary: summary.to_string() }
}

fn occurrence(summary: &str, start: &str) -> StoredOccurrence {
    StoredOccurrence { summary: summary.to_string(), start_text: Some(start.to_string()), end_text: None }
}

fn sample() -> Vec<Source> {
    vec![
        Source::Cache {
            name: "work".to_string(),
            rows: vec![
                row("BEGIN:VEVENT\nSUMMARY:Review\nDTSTART:20240312T140000\nEND:VEVENT", ""),
                row("no event here", "Dentist"),
                row("BEGIN:VEVENT\nDTSTART:20240305T090000\nEND:VEVENT", "Stand-up"),
                row("no event here", ""),
            ],
            occurrences: vec![
                occurrence("Dentist", "2024-03-20T08:00:00"),
                occurrence("Gym", "2024-03-06T18:00:00"),
                occurrence("Dentist", "2024-04-20T08:00:00"),
            ],
        },
        Source::File("BEGIN:VEVENT\nSUMMARY:Trip\nDTSTART:20240305T090000\nEND:VEVENT".to_string()),
        Source::File("not a calendar".to_string()),
    ]
}

fn summaries(events: &[CalendarEvent]) -> Vec<&str> {
    events.iter().map(|e| e.summary.as_str()).collect()
}

#[test]
fn sources_are_gathered_in_order() {
    let events = collect_events(&sample(), &d(2024, 3, 1), &d(2024, 3, 31));
    assert_eq!(summaries(&events), vec!["Review", "Dentist", "Stand-up", "Trip"]);
    let work = hash_to_color("work");
    assert_eq!(events[0].color, work);
    assert_eq!(events[1].color, work);
    assert_eq!(events[1].start_time, at(d(2024, 3, 20), 8, 0));
    assert_eq!(events[1].location, "");
    assert!(!events[1].all_day);
    assert_eq!(events[3].color, FILE_EVENT_COLOR);
}

#[test]
fn listing_is_ordered_by_start_keeping_source_order() {
    let events = list_events(&sample(), &d(2024, 3, 1), &d(2024, 3, 31));
    assert_eq!(summaries(&events), vec!["Stand-up", "Trip", "Review", "Dentist"]);
    assert_eq!(events[0].start_time, at(d(2024, 3, 5), 9, 0));
    assert_eq!(events[1].start_time, at(d(2024, 3, 5), 9, 0));
}

#[test]
fn narrower_listing_filters_the_wider_one() {
    let sources = sample();
    let wide = list_events(&sources, &d(2024, 3, 1), &d(2024, 4, 30));
    assert_eq!(summaries(&wide), vec!["Stand-up", "Trip", "Review", "Dentist", "Dentist"]);
    let narrow = list_events(&sources, &d(2024, 3, 5), &d(2024, 3, 12));
    assert_eq!(summaries(&narrow), vec!["Stand-up", "Trip", "Review"]);
    let kept: Vec<&CalendarEvent> = wide
        .iter()
        .filter(|e| {
            let day = e.start_time.unwrap().date;
            !day.is_before(&d(2024, 3, 5)) && !d(2024, 3, 12).is_before(&day)
        })
        .collect();
    assert_eq!(kept.len(), narrow.len());
    for (a, b) in kept.iter().zip(narrow.iter()) {
        assert_eq!(a.summary, b.summary);
        assert_eq!(a.start_time, b.start_time);
        assert_eq!(a.color, b.color);
    }
}

#[test]
fn nothing_to_list() {
    assert!(list_events(&Vec::new(), &d(2024, 3, 1), &d(2024, 3, 31)).is_empty());
    assert!(list_events(&sample(), &d(2025, 1, 1), &d(2025, 1, 31)).is_empty());
}
