use calenderdot::collect::{classify_cache_row, ics_file_event, occurrence_event, CacheRow};
use calenderdot::date::{Date, DateTime};

fn d(year: i32, month: u32, day: u32) -> Date {
    Date { year, month, day }
}

const NO_SUMMARY: &str = "BEGIN:VEVENT\nDTSTART:20240305T090000\nEND:VEVENT";

#[test]
fn cache_row_in_range_is_kept_with_the_row_summary() {
    let summary = String::from("Stand-up");
    match classify_cache_row(NO_SUMMARY, &summary, 4, &d(2024, 3, 1), &d(2024, 3, 31)) {
        CacheRow::Keep(e) => {
            assert_eq!(e.summary, "Stand-up");
            assert_eq!(e.color, 4);
            assert_eq!(
                e.start_time,
                Some(DateTime { date: d(2024, 3, 5), hour: 9, minute: 0, second: 0, nanosecond: 0 })
            );
        }
        other => panic!("unexpected {:?}", other),
    }
}

#[test]
fn cache_row_keeps_its_own_summary() {
    let text = "BEGIN:VEVENT\nSUMMARY:Own\nDTSTART:20240305\nEND:VEVENT";
    match classify_cache_row(text, &String::from("Row"), 2, &d(2024, 3, 1), &d(2024, 3, 31)) {
        CacheRow::Keep(e) => assert_eq!(e.summary, "Own"),
        other => panic!("unexpected {:?}", other),
    }
}

#[test]
fn cache_row_out_of_range_is_skipped() {
    let summary = String::from("Stand-up");
    assert!(matches!(
        classify_cache_row(NO_SUMMARY, &summary, 4, &d(2024, 4, 1), &d(2024, 4, 30)),
        CacheRow::Skip
    ));
}

#[test]
fn unreadable_row_with_summary_looks_up_occurrences() {
    assert!(matches!(
        classify_cache_row("garbage", &String::from("Dentist"), 0, &d(2024, 3, 1), &d(2024, 3, 31)),
        CacheRow::LookUpOccurrences
    ));
    assert!(matches!(
        classify_cache_row("garbage", &String::new(), 0, &d(2024, 3, 1), &d(2024, 3, 31)),
        CacheRow::Skip
    ));
}

#[test]
fn occurrences_from_stored_times() {
    let summary = String::from("Dentist");
    let e = occurrence_event(
        &summary,
        Some("2024-03-05T09:00:00"),
        Some("2024-03-05T09:30:00.25"),
        5,
        &d(2024, 3, 1),
        &d(2024, 3, 31),
    )
    .unwrap();
    assert_eq!(e.summary, "Dentist");
    assert!(!e.all_day);
    assert_eq!(e.color, 5);
    assert_eq!(e.end_time.unwrap().nanosecond, 250_000_000);
    assert!(occurrence_event(&summary, None, None, 5, &d(2024, 3, 1), &d(2024, 3, 31)).is_none());
    assert!(occurrence_event(&summary, Some("bad"), None, 5, &d(2024, 3, 1), &d(2024, 3, 31)).is_none());
    assert!(occurrence_event(&summary, Some("2024-05-05T09:00:00"), None, 5, &d(2024, 3, 1), &d(2024, 3, 31))
        .is_none());
}

#[test]
fn calendar_file_events() {
    let text = "BEGIN:VEVENT\nSUMMARY:Trip\nDTSTART:20240320\nEND:VEVENT";
    assert_eq!(ics_file_event(text, &d(2024, 3, 1), &d(2024, 3, 31)).unwrap().summary, "Trip");
    assert!(ics_file_event(text, &d(2024, 4, 1), &d(2024, 4, 30)).is_none());
    assert!(ics_file_event("nothing", &d(2024, 4, 1), &d(2024, 4, 30)).is_none());
}

#[test]
fn narrower_range_filters_cache_rows() {
    let summary = String::from("Stand-up");
    let wide = classify_cache_row(NO_SUMMARY, &summary, 4, &d(2024, 3, 1), &d(2024, 3, 31));
    let inside = classify_cache_row(NO_SUMMARY, &summary, 4, &d(2024, 3, 5), &d(2024, 3, 5));
    let outside = classify_cache_row(NO_SUMMARY, &summary, 4, &d(2024, 3, 6), &d(2024, 3, 31));
    match (wide, inside) {
        (CacheRow::Keep(w), CacheRow::Keep(n)) => {
            assert_eq!(w.summary, n.summary);
            assert_eq!(w.start_time, n.start_time);
            assert_eq!(w.color, n.color);
        }
        other => panic!("unexpected {:?}", other),
    }
    assert!(matches!(outside, CacheRow::Skip));
    assert!(matches!(
        classify_cache_row("garbage", &summary, 0, &d(2024, 3, 6), &d(2024, 3, 7)),
        CacheRow::LookUpOccurrences
    ));
}

#[test]
fn narrower_range_filters_occurrences_and_files() {
    let summary = String::from("Dentist");
    let at = Some("2024-03-05T09:00:00");
    let wide = occurrence_event(&summary, at, None, 1, &d(2024, 3, 1), &d(2024, 3, 31)).unwrap();
    let narrow = occurrence_event(&summary, at, None, 1, &d(2024, 3, 5), &d(2024, 3, 10)).unwrap();
    assert_eq!(wide.start_time, narrow.start_time);
    assert!(occurrence_event(&summary, at, None, 1, &d(2024, 3, 6), &d(2024, 3, 10)).is_none());
    let text = "BEGIN:VEVENT\nSUMMARY:Trip\nDTSTART:20240320\nEND:VEVENT";
    let wide = ics_file_event(text, &d(2024, 3, 1), &d(2024, 3, 31)).unwrap();
    let narrow = ics_file_event(text, &d(2024, 3, 20), &d(2024, 3, 20)).unwrap();
    assert_eq!(wide.summary, narrow.summary);
    assert_eq!(wide.start_time, narrow.start_time);
    assert!(ics_file_event(text, &d(2024, 3, 21), &d(2024, 3, 31)).is_none());
}
