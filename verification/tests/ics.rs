use calenderdot::date::{Date, DateTime};
use calenderdot::event::FILE_EVENT_COLOR;
use calenderdot::ics::{ics_dt_faults_in, ics_event_faults, parse_ics_dt, parse_ics_event, white_space};

fn at(year: i32, month: u32, day: u32, hour: u32, minute: u32, second: u32) -> DateTime {
    DateTime { date: Date { year, month, day }, hour, minute, second, nanosecond: 0 }
}

const MEETING: &str = "BEGIN:VCALENDAR\r\nVERSION:2.0\r\nBEGIN:VEVENT\r\nUID:1\r\nSUMMARY:Meeting\r\nDTSTART:20240301T100000\r\nDTEND:20240301T110000\r\nEND:VEVENT\r\nEND:VCALENDAR\r\n";

#[test]
fn reads_a_timed_event() {
    let e = parse_ics_event(MEETING).unwrap();
    assert_eq!(e.summary, "Meeting");
    assert_eq!(e.start_time, Some(at(2024, 3, 1, 10, 0, 0)));
    assert_eq!(e.end_time, Some(at(2024, 3, 1, 11, 0, 0)));
    assert!(!e.all_day);
    assert_eq!(e.color, FILE_EVENT_COLOR);
}

#[test]
fn reads_an_all_day_event_with_parameters() {
    let text = "BEGIN:VEVENT\nSUMMARY:Holiday\nDTSTART;VALUE=DATE:20241225\nDTEND;VALUE=DATE:20241226\nEND:VEVENT\n";
    let e = parse_ics_event(text).unwrap();
    assert_eq!(e.summary, "Holiday");
    assert!(e.all_day);
    assert_eq!(e.start_time, Some(at(2024, 12, 25, 0, 0, 0)));
    assert_eq!(e.end_time, Some(at(2024, 12, 26, 0, 0, 0)));
}

#[test]
fn time_zone_parameter_does_not_change_the_name() {
    let text = "BEGIN:VEVENT\r\nDTSTART;TZID=Europe/Berlin:20240301T100000\r\nEND:VEVENT";
    let e = parse_ics_event(text).unwrap();
    assert_eq!(e.summary, "");
    assert_eq!(e.start_time, Some(at(2024, 3, 1, 10, 0, 0)));
    assert!(!e.all_day);
}

#[test]
fn utc_start_is_not_all_day() {
    let text = "BEGIN:VEVENT\nDTSTART:20240301Z\nEND:VEVENT";
    let e = parse_ics_event(text).unwrap();
    assert!(!e.all_day);
    assert_eq!(e.start_time, Some(at(2024, 3, 1, 0, 0, 0)));
}

#[test]
fn later_lines_win_and_all_day_sticks() {
    let text = "BEGIN:VEVENT\nSUMMARY:first\nDTSTART:20240301\nSUMMARY:second\nDTSTART:20240302T080000\nEND:VEVENT";
    let e = parse_ics_event(text).unwrap();
    assert_eq!(e.summary, "second");
    assert_eq!(e.start_time, Some(at(2024, 3, 2, 8, 0, 0)));
    assert!(e.all_day);
}

#[test]
fn value_keeps_leading_space_and_lines_are_trimmed() {
    let text = "BEGIN:VEVENT\n   SUMMARY: Lunch with Ann  \t\nEND:VEVENT";
    let e = parse_ics_event(text).unwrap();
    assert_eq!(e.summary, " Lunch with Ann");
}

#[test]
fn only_the_first_event_is_read() {
    let text = "BEGIN:VEVENT\nSUMMARY:one\nEND:VEVENT\nBEGIN:VEVENT\nSUMMARY:two\nEND:VEVENT\n";
    assert_eq!(parse_ics_event(text).unwrap().summary, "one");
}

#[test]
fn texts_without_an_event() {
    assert!(parse_ics_event("").is_none());
    assert!(parse_ics_event("BEGIN:VCALENDAR\nEND:VCALENDAR\n").is_none());
    assert!(parse_ics_event("BEGIN:VEVENT\nSUMMARY:no end").is_none());
    assert!(parse_ics_event("BEGIN:VEVENT SUMMARY:x\nEND:VEVENT").is_none());
    // The event's lines must hold at least one character.
    assert!(parse_ics_event("BEGIN:VEVENT\n\nEND:VEVENT").is_none());
}

#[test]
fn event_without_summary_or_start_is_dropped() {
    assert!(parse_ics_event("BEGIN:VEVENT\nUID:42\nDTEND:20240301\nEND:VEVENT").is_none());
    assert!(parse_ics_event("BEGIN:VEVENT\nDTSTART:garbage\nEND:VEVENT").is_none());
}

#[test]
fn lines_without_a_name_are_ignored() {
    let text = "BEGIN:VEVENT\n:SUMMARY\n;x:y\nSUMMARY\nSUMMARY;NO COLON\nSUMMARY:ok\nEND:VEVENT";
    assert_eq!(parse_ics_event(text).unwrap().summary, "ok");
}

#[test]
fn date_values() {
    assert_eq!(parse_ics_dt("20240301"), Some(at(2024, 3, 1, 0, 0, 0)));
    assert_eq!(parse_ics_dt("  20240301T235959 "), Some(at(2024, 3, 1, 23, 59, 59)));
    assert_eq!(parse_ics_dt("20240301T2359"), Some(at(2024, 3, 1, 0, 0, 0)));
    assert_eq!(parse_ics_dt("2024030"), None);
    assert_eq!(parse_ics_dt("20241301"), None);
    assert_eq!(parse_ics_dt("20240230"), None);
    assert_eq!(parse_ics_dt("20240301T250000"), None);
    assert_eq!(parse_ics_dt("20240301T10a000"), None);
    assert_eq!(parse_ics_dt("2024-3-1"), None);
}

#[test]
fn date_fields_read_signs_as_str_parse_does() {
    assert_eq!(parse_ics_dt("+0240301"), Some(at(24, 3, 1, 0, 0, 0)));
    assert_eq!(parse_ics_dt("-0010101"), Some(at(-1, 1, 1, 0, 0, 0)));
    assert_eq!(parse_ics_dt("2024+3+1"), Some(at(2024, 3, 1, 0, 0, 0)));
    assert_eq!(parse_ics_dt("2024-301"), None);
    assert_eq!(parse_ics_dt("+   0301"), None);
}

#[test]
fn cuts_inside_a_character_are_faults() {
    // The euro sign takes three bytes, so byte 6 falls inside it.
    assert!(ics_dt_faults_in("2024€01"));
    assert!(!ics_dt_faults_in("2024é01"));
    assert_eq!(parse_ics_dt("2024é01"), None);
    assert!(!ics_dt_faults_in("20240301"));
    assert!(!ics_dt_faults_in("x024€01"));
    let text = "BEGIN:VEVENT\nSUMMARY:x\nDTSTART:2024€01\nEND:VEVENT";
    assert!(ics_event_faults(text));
    assert!(!ics_event_faults(MEETING));
    assert!(!ics_event_faults("BEGIN:VEVENT\nSUMMARY:2024€01\nEND:VEVENT"));
}

#[test]
fn white_space_matches_char_is_whitespace() {
    for c in ['\t', '\n', '\r', ' ', '\u{85}', '\u{a0}', '\u{2003}', '\u{3000}', 'a', '_', '\u{200b}', '€'] {
        assert_eq!(white_space(c), c.is_whitespace());
    }
}

#[test]
fn reads_the_location() {
    let text = "BEGIN:VEVENT\r\nSUMMARY:Lunch\r\nLOCATION:Corner Cafe, Main St\r\nDTSTART:20240301T120000\r\nEND:VEVENT";
    let e = parse_ics_event(text).unwrap();
    assert_eq!(e.location, "Corner Cafe, Main St");
    assert_eq!(e.location_chip(), Some("Corner Cafe, Main St"));
    let e = parse_ics_event(MEETING).unwrap();
    assert_eq!(e.location, "");
    assert_eq!(e.location_chip(), None);
}

#[test]
fn location_alone_makes_no_event() {
    assert!(parse_ics_event("BEGIN:VEVENT\nLOCATION:Room 4\nEND:VEVENT").is_none());
}

#[test]
fn written_date_times_read_back() {
    for (y, mo, d, h, mi, s) in [(2024, 2, 29, 23, 59, 59), (1000, 1, 1, 0, 0, 0), (9999, 12, 31, 12, 5, 7)] {
        let stamp = format!("{:04}{:02}{:02}T{:02}{:02}{:02}", y, mo, d, h, mi, s);
        assert_eq!(parse_ics_dt(&stamp), Some(at(y, mo, d, h, mi, s)));
        let date = format!("{:04}{:02}{:02}", y, mo, d);
        assert_eq!(parse_ics_dt(&date), Some(at(y, mo, d, 0, 0, 0)));
    }
}
