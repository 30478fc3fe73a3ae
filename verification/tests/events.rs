use calenderdot::date::{Date, DateTime};
use calenderdot::event::{
    event_in_range, hash_to_color, parse_iso_datetime, sort_by_start, start_is_before, CalendarEvent,
};

fn d(year: i32, month: u32, day: u32) -> Date {
    Date { year, month, day }
}

fn at(date: Date, hour: u32, minute: u32) -> DateTime {
    DateTime { date, hour, minute, second: 0, nanosecond: 0 }
}

fn ev(summary: &str, start: Option<DateTime>) -> CalendarEvent {
    CalendarEvent { summary: summary.to_string(), location: String::new(), start_time: start, end_time: None, all_day: false, color: 0 }
}

#[test]
fn colour_comes_from_the_name_hash() {
    assert_eq!(hash_to_color("default"), 1);
    assert_eq!(hash_to_color("abc"), 2);
    assert_eq!(hash_to_color(""), 0);
    assert_eq!(hash_to_color("a1b2c3d4e5f6g7h8i9j0kkkkkk"), 6);
    assert!(hash_to_color("ümlaut-calendar") < 8);
}

#[test]
fn range_includes_both_ends() {
    let start = d(2024, 3, 1);
    let end = d(2024, 3, 31);
    assert!(event_in_range(&ev("a", Some(at(d(2024, 3, 1), 0, 0))), &start, &end));
    assert!(event_in_range(&ev("b", Some(at(d(2024, 3, 31), 23, 59))), &start, &end));
    assert!(!event_in_range(&ev("c", Some(at(d(2024, 2, 29), 23, 59))), &start, &end));
    assert!(!event_in_range(&ev("d", Some(at(d(2024, 4, 1), 0, 0))), &start, &end));
    assert!(!event_in_range(&ev("e", None), &start, &end));
}

#[test]
fn iso_date_times_with_and_without_fraction() {
    assert_eq!(parse_iso_datetime("2024-03-05T10:20:30"), Some(at(d(2024, 3, 5), 10, 20).with_second(30)));
    let t = parse_iso_datetime("2024-03-05T10:20:30.5").unwrap();
    assert_eq!(t.nanosecond, 500_000_000);
    assert_eq!(t.second, 30);
    assert_eq!(parse_iso_datetime("2024-03-05 10:20:30"), None);
    assert_eq!(parse_iso_datetime("not a date"), None);
    assert_eq!(parse_iso_datetime("2024-02-30T10:20:30"), None);
}

trait WithSecond {
    fn with_second(self, s: u32) -> Self;
}

impl WithSecond for DateTime {
    fn with_second(self, s: u32) -> Self {
        DateTime { second: s, ..self }
    }
}

#[test]
fn start_order_puts_missing_starts_first() {
    let t = Some(at(d(2024, 3, 1), 9, 0));
    assert!(start_is_before(&None, &t));
    assert!(!start_is_before(&t, &None));
    assert!(!start_is_before(&None, &None));
    assert!(start_is_before(&t, &Some(at(d(2024, 3, 1), 9, 1))));
}

#[test]
fn sorting_is_stable_by_start() {
    let nine = Some(at(d(2024, 3, 2), 9, 0));
    let eight = Some(at(d(2024, 3, 2), 8, 0));
    let events = vec![
        ev("late-1", nine),
        ev("early", eight),
        ev("none-1", None),
        ev("late-2", nine),
        ev("previous day", Some(at(d(2024, 3, 1), 23, 0))),
        ev("none-2", None),
        ev("late-3", nine),
    ];
    let sorted = sort_by_start(events);
    let names: Vec<&str> = sorted.iter().map(|e| e.summary.as_str()).collect();
    assert_eq!(names, vec!["none-1", "none-2", "previous day", "early", "late-1", "late-2", "late-3"]);
}

#[test]
fn sorting_nothing_gives_nothing() {
    assert!(sort_by_start(Vec::new()).is_empty());
}

#[test]
fn narrowing_the_range_only_filters() {
    let day = |n: u32| d(2024, 3, n);
    let events = vec![
        ev("a", Some(at(day(20), 9, 0))),
        ev("b", Some(at(day(2), 9, 0))),
        ev("c", None),
        ev("d", Some(at(day(10), 9, 0))),
        ev("e", Some(at(day(10), 9, 0))),
        ev("f", Some(at(day(25), 9, 0))),
    ];
    let (start, end) = (day(5), day(20));
    let wide = sort_by_start(events.clone());
    let filtered: Vec<String> = wide
        .iter()
        .filter(|e| event_in_range(e, &start, &end))
        .map(|e| e.summary.clone())
        .collect();
    let narrow: Vec<CalendarEvent> = events.into_iter().filter(|e| event_in_range(e, &start, &end)).collect();
    let narrow: Vec<String> = sort_by_start(narrow).iter().map(|e| e.summary.clone()).collect();
    assert_eq!(narrow, filtered);
    assert_eq!(narrow, vec!["d", "e", "a"]);
}
