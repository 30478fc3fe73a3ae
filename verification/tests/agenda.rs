use calenderdot::agenda::{agenda_groups, agenda_time, AgendaTime};
use calenderdot::date::{Date, DateTime};
use calenderdot::event::CalendarEvent;

fn d(year: i32, month: u32, day: u32) -> Date {
    Date { year, month, day }
}

fn at(date: Date, hour: u32) -> DateTime {
    DateTime { date, hour, minute: 0, second: 0, nanosecond: 0 }
}

fn ev(start: Option<DateTime>, end: Option<DateTime>, all_day: bool) -> CalendarEvent {
    CalendarEvent { summary: String::from("x"), location: String::new(), start_time: start, end_time: end, all_day, color: 3 }
}

#[test]
fn groups_follow_days_in_order() {
    let today = d(2024, 3, 10);
    let events = vec![
        ev(Some(at(d(2024, 3, 12), 9)), None, false),
        ev(Some(at(d(2024, 3, 10), 8)), None, false),
        ev(None, None, false),
        ev(Some(at(d(2024, 3, 12), 7)), None, false),
        ev(Some(at(d(2024, 3, 11), 7)), None, false),
    ];
    let groups = agenda_groups(&events, &today);
    assert_eq!(groups.len(), 3);
    assert_eq!(groups[0].date, d(2024, 3, 10));
    assert_eq!(groups[0].members, vec![1, 2]);
    assert_eq!(groups[1].date, d(2024, 3, 11));
    assert_eq!(groups[1].members, vec![4]);
    assert_eq!(groups[2].date, d(2024, 3, 12));
    assert_eq!(groups[2].members, vec![0, 3]);
}

#[test]
fn no_events_no_groups() {
    assert!(agenda_groups(&Vec::new(), &d(2024, 1, 1)).is_empty());
}

#[test]
fn shown_time_of_an_event() {
    let s = at(d(2024, 3, 10), 9);
    let e = at(d(2024, 3, 10), 10);
    assert_eq!(agenda_time(&ev(Some(s), Some(e), false)), AgendaTime::Span(s, e));
    assert_eq!(agenda_time(&ev(Some(s), None, false)), AgendaTime::At(s));
    assert_eq!(agenda_time(&ev(None, Some(e), false)), AgendaTime::NoTime);
    assert_eq!(agenda_time(&ev(Some(s), Some(e), true)), AgendaTime::NoTime);
}
