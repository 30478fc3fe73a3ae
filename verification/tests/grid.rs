use calenderdot::date::{Date, Weekday};
use calenderdot::grid::{calendar_grid, get_calendar_first, grid_header, grid_in_range, style_of_day, DayStyle};

fn d(year: i32, month: u32, day: u32) -> Date {
    Date { year, month, day }
}

#[test]
fn first_visible_day_is_the_sunday_before() {
    // 1 March 2024 is a Friday.
    assert_eq!(get_calendar_first(2024, 3, Weekday::Sun), d(2024, 2, 25));
    assert_eq!(get_calendar_first(2024, 3, Weekday::Mon), d(2024, 2, 26));
    assert_eq!(get_calendar_first(2024, 3, Weekday::Fri), d(2024, 3, 1));
    assert_eq!(get_calendar_first(2024, 3, Weekday::Sat), d(2024, 2, 24));
}

#[test]
fn month_starting_on_sunday_starts_the_grid() {
    assert_eq!(get_calendar_first(2023, 10, Weekday::Sun), d(2023, 10, 1));
    assert_eq!(get_calendar_first(2023, 1, Weekday::Sun), d(2023, 1, 1));
}

#[test]
fn first_visible_day_crosses_the_year() {
    // 1 January 2025 is a Wednesday.
    assert_eq!(get_calendar_first(2025, 1, Weekday::Sun), d(2024, 12, 29));
}

#[test]
fn grid_shows_six_weeks_from_the_first_sunday() {
    let selected = d(2024, 3, 15);
    let today = d(2024, 3, 10);
    let cells = calendar_grid(&selected, &today);
    assert_eq!(cells.len(), 42);
    assert_eq!(cells[0].date, d(2024, 2, 25));
    assert_eq!(cells[41].date, d(2024, 4, 6));
    for i in 1..42 {
        assert_eq!(cells[i - 1].date.checked_add_days(1), Some(cells[i].date));
    }
    for day in 1..=31 {
        assert!(cells.iter().any(|c| c.date == d(2024, 3, day)));
    }
}

#[test]
fn grid_styles_days() {
    let selected = d(2024, 3, 15);
    let today = d(2024, 3, 10);
    let cells = calendar_grid(&selected, &today);
    assert_eq!(cells[0].style, DayStyle::OtherMonth);
    assert_eq!(cells[5].style, DayStyle::InMonth); // 1 March
    assert_eq!(cells[14].style, DayStyle::Marked); // 10 March, today
    assert_eq!(cells[19].style, DayStyle::Marked); // 15 March, selected
    assert_eq!(cells[41].style, DayStyle::OtherMonth);
    assert!(!DayStyle::OtherMonth.is_selectable());
    assert!(DayStyle::InMonth.is_selectable());
    assert!(DayStyle::Marked.is_selectable());
}

#[test]
fn today_outside_the_month_is_marked() {
    let s = style_of_day(&d(2024, 4, 2), 3, &d(2024, 3, 15), &d(2024, 4, 2));
    assert_eq!(s, DayStyle::Marked);
    let s = style_of_day(&d(2024, 4, 3), 3, &d(2024, 3, 15), &d(2024, 4, 2));
    assert_eq!(s, DayStyle::OtherMonth);
}

#[test]
fn grid_header_reads_weekday_letters() {
    assert_eq!(grid_header(&d(2024, 3, 15)), vec!['S', 'M', 'T', 'W', 'T', 'F', 'S']);
    assert_eq!(grid_header(&d(1999, 12, 31)), vec!['S', 'M', 'T', 'W', 'T', 'F', 'S']);
    assert_eq!(Weekday::Thu.letter(), 'T');
}

#[test]
fn grids_next_to_the_range_ends_are_out_of_range() {
    assert!(grid_in_range(&d(2024, 3, 15)));
    assert!(grid_in_range(&d(262142, 10, 5)));
    assert!(!grid_in_range(&d(262142, 12, 5)));
    // 1 January of the first year is not a Sunday, so its grid would start before it.
    assert!(d(-262143, 1, 1).weekday() != Weekday::Sun);
    assert!(!grid_in_range(&d(-262143, 1, 5)));
    assert!(grid_in_range(&d(-262143, 2, 5)));
}
