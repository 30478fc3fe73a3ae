use calenderdot::date::{Date, DateTime, Weekday};

fn d(year: i32, month: u32, day: u32) -> Date {
    Date { year, month, day }
}

#[test]
fn new_accepts_only_existing_dates() {
    assert_eq!(Date::new(2024, 2, 29), Some(d(2024, 2, 29)));
    assert_eq!(Date::new(2023, 2, 29), None);
    assert_eq!(Date::new(1900, 2, 29), None);
    assert_eq!(Date::new(2000, 2, 29), Some(d(2000, 2, 29)));
    assert_eq!(Date::new(2024, 13, 1), None);
    assert_eq!(Date::new(2024, 0, 1), None);
    assert_eq!(Date::new(2024, 4, 31), None);
    assert_eq!(Date::new(2024, 4, 0), None);
}

#[test]
fn new_respects_the_year_range() {
    assert_eq!(Date::new(262142, 12, 31), Some(d(262142, 12, 31)));
    assert_eq!(Date::new(262143, 1, 1), None);
    assert_eq!(Date::new(-262143, 1, 1), Some(d(-262143, 1, 1)));
    assert_eq!(Date::new(-262144, 12, 31), None);
}

#[test]
fn weekday_of_known_dates() {
    assert_eq!(d(1970, 1, 1).weekday(), Weekday::Thu);
    assert_eq!(d(2024, 1, 1).weekday(), Weekday::Mon);
    assert_eq!(d(1, 1, 1).weekday(), Weekday::Mon);
    assert_eq!(d(2023, 10, 1).weekday(), Weekday::Sun);
    assert_eq!(d(0, 12, 31).weekday(), Weekday::Sun);
    assert_eq!(Weekday::Sat.num_days_from_sunday(), 6);
    assert_eq!(Weekday::Sun.num_days_from_sunday(), 0);
}

#[test]
fn adding_days_crosses_months_and_years() {
    assert_eq!(d(2024, 2, 28).checked_add_days(1), Some(d(2024, 2, 29)));
    assert_eq!(d(2024, 2, 28).checked_add_days(2), Some(d(2024, 3, 1)));
    assert_eq!(d(2024, 1, 1).checked_add_days(-1), Some(d(2023, 12, 31)));
    assert_eq!(d(2024, 3, 1).checked_add_days(-6), Some(d(2024, 2, 24)));
    assert_eq!(d(2024, 1, 1).checked_add_days(366), Some(d(2025, 1, 1)));
    assert_eq!(d(2024, 1, 1).checked_add_days(0), Some(d(2024, 1, 1)));
}

#[test]
fn adding_days_stops_at_the_range_ends() {
    assert_eq!(d(262142, 12, 31).checked_add_days(1), None);
    assert_eq!(d(-262143, 1, 1).checked_add_days(-1), None);
    assert_eq!(d(2024, 1, 1).checked_add_days(i32::MAX), None);
}

#[test]
fn time_of_day_must_exist() {
    let date = d(2015, 6, 3);
    assert_eq!(
        date.and_hms_opt(12, 34, 56),
        Some(DateTime { date, hour: 12, minute: 34, second: 56, nanosecond: 0 })
    );
    assert_eq!(date.and_hms_opt(12, 34, 60), None);
    assert_eq!(date.and_hms_opt(12, 60, 56), None);
    assert_eq!(date.and_hms_opt(24, 34, 56), None);
}

#[test]
fn chronological_order() {
    assert!(d(2023, 12, 31).is_before(&d(2024, 1, 1)));
    assert!(d(2024, 1, 31).is_before(&d(2024, 2, 1)));
    assert!(!d(2024, 2, 1).is_before(&d(2024, 2, 1)));
    assert!(!d(2024, 2, 2).is_before(&d(2024, 2, 1)));
    let t = DateTime { date: d(2024, 2, 1), hour: 9, minute: 0, second: 0, nanosecond: 0 };
    let later = DateTime { nanosecond: 1, ..t };
    assert!(t.is_before(&later));
    assert!(!later.is_before(&t));
    assert!(!t.is_before(&t));
}

#[test]
fn parse_from_str_reads_formats() {
    let t = DateTime::parse_from_str("2024-03-05 10:20", "%Y-%m-%d %H:%M").unwrap();
    assert_eq!(t, DateTime { date: d(2024, 3, 5), hour: 10, minute: 20, second: 0, nanosecond: 0 });
    assert_eq!(DateTime::parse_from_str("2024-02-30 10:20", "%Y-%m-%d %H:%M"), None);
}
