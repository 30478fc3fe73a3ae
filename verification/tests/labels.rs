use calenderdot::agenda::daily_summary;
use calenderdot::collect::with_demo_events;
use calenderdot::date::{Date, DateTime};
use calenderdot::event::CalendarEvent;
use calenderdot::grid::{calendar_grid, days_with_events};
use calenderdot::label::{day_badge, day_heading, greeting, month_title, time_caption};

fn d(year: i32, month: u32, day: u32) -> Date {
    Date { year, month, day }
}

fn at(date: Date, hour: u32, minute: u32) -> DateTime {
    DateTime { date, hour, minute, second: 0, nanosecond: 0 }
}

fn ev(start: Option<DateTime>, end: Option<DateTime>, all_day: bool) -> CalendarEvent {
    CalendarEvent {
        summary: String::from("x"),
        location: String::new(),
        start_time: start,
        end_time: end,
        all_day,
        color: 1,
    }
}

#[test]
fn month_titles() {
    assert_eq!(month_title(2024, 3), "March 2024");
    assert_eq!(month_title(1999, 12), "December 1999");
    assert_eq!(month_title(7, 1), "January 7");
    assert_eq!(month_title(-44, 3), "March -44");
    assert_eq!(month_title(0, 9), "September 0");
}

#[test]
fn day_headings() {
    let today = d(2024, 3, 10);
    assert_eq!(day_heading(&today, &today), "Today \u{2022} 03/10/24");
    assert_eq!(day_heading(&d(2024, 3, 12), &today), "Tuesday \u{2022} 03/12/24");
    assert_eq!(day_heading(&d(2000, 1, 1), &today), "Saturday \u{2022} 01/01/00");
    assert_eq!(day_heading(&d(-1, 12, 31), &today), "Friday \u{2022} 12/31/99");
}

#[test]
fn time_badges() {
    let day = d(2024, 3, 10);
    let e = ev(Some(at(day, 9, 5)), Some(at(day, 14, 30)), false);
    assert_eq!(time_caption(&e), "9:05 AM - 2:30 PM");
    assert_eq!(time_caption(&ev(Some(at(day, 0, 0)), None, false)), "12:00 AM");
    assert_eq!(time_caption(&ev(Some(at(day, 12, 59)), None, false)), "12:59 PM");
    assert_eq!(time_caption(&ev(Some(at(day, 23, 7)), None, false)), "11:07 PM");
    assert_eq!(time_caption(&ev(Some(at(day, 10, 0)), None, true)), "");
    assert_eq!(time_caption(&ev(None, Some(at(day, 10, 0)), false)), "");
}

#[test]
fn grid_days_with_events_get_dots() {
    let selected = d(2024, 3, 15);
    let cells = calendar_grid(&selected, &selected);
    let events = vec![
        ev(Some(at(d(2024, 3, 12), 9, 0)), None, false),
        ev(None, None, false),
        ev(Some(at(d(2024, 2, 25), 9, 0)), None, false),
    ];
    let dots = days_with_events(&cells, &events);
    assert_eq!(dots.len(), 42);
    for (i, cell) in cells.iter().enumerate() {
        let expected = cell.date == d(2024, 3, 12) || cell.date == d(2024, 2, 25);
        assert_eq!(dots[i], expected);
    }
}

#[test]
fn demo_events_only_when_nothing_was_found() {
    let today = d(2024, 3, 10);
    let demo = with_demo_events(Vec::new(), &today);
    assert_eq!(demo.len(), 3);
    assert_eq!(demo[0].summary, "Team stand-up");
    assert_eq!(demo[0].location, "Video call");
    assert_eq!(demo[0].start_time, Some(at(today, 9, 30)));
    assert_eq!(demo[1].summary, "Lunch with Sam");
    assert_eq!(demo[2].summary, "Focus time");
    assert_eq!(demo[2].end_time, Some(at(today, 17, 0)));
    let found = with_demo_events(vec![ev(None, None, false)], &today);
    assert_eq!(found.len(), 1);
    assert_eq!(found[0].summary, "x");
}

#[test]
fn badge_and_greeting() {
    assert_eq!(day_badge(&d(2024, 3, 9)), "9");
    assert_eq!(day_badge(&d(2024, 3, 31)), "31");
    assert_eq!(greeting(4, "ann"), "Good evening, ann");
    assert_eq!(greeting(5, "ann"), "Good morning, ann");
    assert_eq!(greeting(11, "ann"), "Good morning, ann");
    assert_eq!(greeting(12, "ann"), "Good afternoon, ann");
    assert_eq!(greeting(17, ""), "Good afternoon, ");
    assert_eq!(greeting(18, "bo"), "Good evening, bo");
}

#[test]
fn daily_summary_counts_today() {
    let today = d(2024, 3, 10);
    let events = vec![
        ev(Some(at(today, 9, 0)), Some(at(today, 10, 30)), false),
        ev(Some(at(today, 13, 0)), Some(at(today, 13, 45)), false),
        ev(Some(at(today, 0, 0)), Some(at(today, 23, 0)), true),
        ev(None, None, false),
        ev(Some(at(today, 20, 0)), Some(at(d(2024, 3, 11), 1, 0)), false),
        ev(Some(at(d(2024, 3, 11), 9, 0)), Some(at(d(2024, 3, 11), 10, 0)), false),
    ];
    let s = daily_summary(&events, &today);
    assert_eq!(s.event_count, 5);
    assert_eq!(s.focus_minutes, 90 + 45);
    let none = daily_summary(&Vec::new(), &today);
    assert_eq!(none.event_count, 0);
    assert_eq!(none.focus_minutes, 0);
}

#[test]
fn summary_lines() {
    use_summary_line();
}

fn use_summary_line() {
    let s = calenderdot::agenda::DaySummary { event_count: 3, focus_minutes: 135 };
    assert_eq!(calenderdot::label::summary_line(&s), "3 events today \u{2022} 2h 15m focus");
    let s = calenderdot::agenda::DaySummary { event_count: 0, focus_minutes: 0 };
    assert_eq!(calenderdot::label::summary_line(&s), "0 events today \u{2022} 0h 00m focus");
}
