//! The month grid of the calendar: its first visible day, its six weeks of
//! cells and the letters that head its columns.
use vstd::prelude::*;
use crate::event::CalendarEvent;
use crate::date::{
    Date, Weekday, day_number, valid_ymd, day_number_in_range, weekday_of_day_number,
    lemma_precedes_iff_number_less,
};

verus! {

/// The first day of month `m` of year `y`.
pub open spec fn first_of_month(y: int, m: int) -> int {
    day_number(y, m, 1)
}

/// How many days the grid shows before the first of the month so that its
/// rows start on `first_weekday`.
pub open spec fn lead_days(y: int, m: int, first_weekday: Weekday) -> int {
    (weekday_of_day_number(first_of_month(y, m)) - first_weekday.index() + 7) % 7
}

/// Day number of the first date shown in the grid of month `m` of year `y`.
pub open spec fn grid_start(y: int, m: int, first_weekday: Weekday) -> int {
    first_of_month(y, m) - lead_days(y, m, first_weekday)
}

/// The inputs on which the grid's first day exists: the first of the
/// month is a valid date and the grid's start stays in `chrono`'s range.
pub open spec fn calendar_first_defined(y: int, m: int, first_weekday: Weekday) -> bool {
    &&& valid_ymd(y, m, 1)
    &&& day_number_in_range(grid_start(y, m, first_weekday))
}

/// Computes the first date visible in the calendar grid for a given month.
#[verifier::spinoff_prover]
#[verifier::rlimit(30)]
pub fn get_calendar_first(year: i32, month: u32, first_weekday: Weekday) -> (r: Date)
    requires
        calendar_first_defined(year as int, month as int, first_weekday),
    ensures
        r.is_valid(),
        r.number() == grid_start(year as int, month as int, first_weekday),
        r.weekday_index() == first_weekday.index(),
        first_of_month(year as int, month as int) - 6 <= r.number() <= first_of_month(
            year as int,
            month as int,
        ),
{
    let first_of_month = Date::new(year, month, 1).unwrap();
    let current = first_of_month.weekday().num_days_from_sunday();
    let target = first_weekday.num_days_from_sunday();
    let diff = ((current + 7 - target) % 7) as i32;
    let r = first_of_month.checked_add_days(-diff).unwrap();
    proof {
        let n = first_of_month.number();
        assert(r.number() == n - diff);
        assert(current as int == n % 7);
        assert((n - diff) % 7 == target as int) by {
            assert(diff as int == (n % 7 - target as int + 7) % 7);
        }
    }
    r
}


/// How a day of the grid is drawn: marked (today or the selected day), as a
/// day of the shown month, or dimmed as a day of a neighbouring month.
#[derive(Clone, Copy, Debug, PartialEq, Eq, Structural)]
pub enum DayStyle {
    Marked,
    InMonth,
    OtherMonth,
}

/// One day of the grid.
#[derive(Clone, Copy, Debug, PartialEq, Eq, Structural)]
pub struct GridCell {
    pub date: Date,
    pub style: DayStyle,
}

/// The grid always shows six weeks.
pub const GRID_DAYS: usize = 42;

/// Some cell of the grid shows `d`.
pub open spec fn grid_shows(cells: Seq<GridCell>, d: Date) -> bool {
    exists|i: int| 0 <= i < cells.len() && (#[trigger] cells[i]).date == d
}

/// The style of `date` in the grid of `month`.
pub open spec fn day_style(date: Date, month: int, selected: Date, today: Date) -> DayStyle {
    if date == today || date == selected {
        DayStyle::Marked
    } else if date.month == month {
        DayStyle::InMonth
    } else {
        DayStyle::OtherMonth
    }
}

/// Day number of the first cell of the grid of the selected date's month,
/// whose rows start on Sunday.
pub open spec fn grid_first_number(selected: Date) -> int {
    grid_start(selected.year as int, selected.month as int, Weekday::Sun)
}

/// The grid of the selected date's month exists: its first and last cells
/// are dates `chrono` can represent.
pub open spec fn grid_defined(selected: Date) -> bool {
    &&& selected.is_valid()
    &&& calendar_first_defined(selected.year as int, selected.month as int, Weekday::Sun)
    &&& day_number_in_range(grid_first_number(selected) + 41)
}

/// Whether the grid of a valid date's month lies in `chrono`'s range (it
/// does except next to the first and the last representable years).
pub fn grid_in_range(selected: &Date) -> (r: bool)
    requires
        selected.is_valid(),
    ensures
        r == grid_defined(*selected),
{
    let first_of_month = Date::new(selected.year, selected.month, 1).unwrap();
    let lead = first_of_month.weekday().num_days_from_sunday() as i32;
    match first_of_month.checked_add_days(-lead) {
        Some(first) => {
            proof {
                assert(lead as int == (weekday_of_day_number(first_of_month.number()) - 0 + 7) % 7);
            }
            first.checked_add_days(41).is_some()
        },
        None => false,
    }
}

impl DayStyle {
    /// Days of a neighbouring month cannot be picked.
    pub fn is_selectable(&self) -> (r: bool)
        ensures
            r == (*self != DayStyle::OtherMonth),
    {
        match self {
            DayStyle::OtherMonth => false,
            _ => true,
        }
    }
}

/// The style of a grid day, as the applet draws it.
pub fn style_of_day(date: &Date, month: u32, selected: &Date, today: &Date) -> (r: DayStyle)
    ensures
        r == day_style(*date, month as int, *selected, *today),
{
    if *date == *today || *date == *selected {
        DayStyle::Marked
    } else if date.month == month {
        DayStyle::InMonth
    } else {
        DayStyle::OtherMonth
    }
}

/// The six weeks of days shown for the selected date's month, starting on
/// a Sunday; every day of that month is among them.
pub fn calendar_grid(selected: &Date, today: &Date) -> (cells: Vec<GridCell>)
    requires
        grid_defined(*selected),
    ensures
        cells.len() == GRID_DAYS,
        forall|i: int|
            0 <= i < GRID_DAYS ==> {
                &&& (#[trigger] cells@[i]).date.is_valid()
                &&& cells@[i].date.number() == grid_first_number(*selected) + i
                &&& cells@[i].style == day_style(cells@[i].date, selected.month as int, *selected, *today)
            },
        forall|d: Date|
            d.is_valid() && d.year == selected.year && d.month == selected.month
                ==> #[trigger] grid_shows(cells@, d),
{
    let first = get_calendar_first(selected.year, selected.month, Weekday::Sun);
    let mut cells: Vec<GridCell> = Vec::new();
    let mut i: usize = 0;
    while i < GRID_DAYS
        invariant
            i <= GRID_DAYS,
            cells.len() == i,
            first.is_valid(),
            first.number() == grid_first_number(*selected),
            grid_defined(*selected),
            forall|j: int|
                0 <= j < i ==> {
                    &&& (#[trigger] cells@[j]).date.is_valid()
                    &&& cells@[j].date.number() == grid_first_number(*selected) + j
                    &&& cells@[j].style == day_style(cells@[j].date, selected.month as int, *selected, *today)
                },
        decreases GRID_DAYS - i,
    {
        let date = first.checked_add_days(i as i32).unwrap();
        let style = style_of_day(&date, selected.month, selected, today);
        cells.push(GridCell { date, style });
        i = i + 1;
    }
    proof {
        assert forall|d: Date|
            d.is_valid() && d.year == selected.year && d.month == selected.month
                implies #[trigger] grid_shows(cells@, d) by {
            let idx = d.number() - grid_first_number(*selected);
            assert(0 <= idx < GRID_DAYS);
            lemma_precedes_iff_number_less(cells@[idx].date, d);
            assert(cells@[idx].date == d);
        }
    }
    cells
}

/// The letter that heads the column of a weekday.
pub open spec fn weekday_letter(w: Weekday) -> char {
    match w {
        Weekday::Sun => 'S',
        Weekday::Mon => 'M',
        Weekday::Tue => 'T',
        Weekday::Wed => 'W',
        Weekday::Thu => 'T',
        Weekday::Fri => 'F',
        Weekday::Sat => 'S',
    }
}

/// The letter of the weekday of a day number.
pub open spec fn letter_of_day_number(n: int) -> char {
    let w = weekday_of_day_number(n);
    if w == 0 { 'S' }
    else if w == 1 { 'M' }
    else if w == 2 { 'T' }
    else if w == 3 { 'W' }
    else if w == 4 { 'T' }
    else if w == 5 { 'F' }
    else { 'S' }
}

impl Weekday {
    /// The letter that heads this weekday's column.
    pub fn letter(&self) -> (r: char)
        ensures
            r == weekday_letter(*self),
    {
        match self {
            Weekday::Sun => 'S',
            Weekday::Mon => 'M',
            Weekday::Tue => 'T',
            Weekday::Wed => 'W',
            Weekday::Thu => 'T',
            Weekday::Fri => 'F',
            Weekday::Sat => 'S',
        }
    }
}

/// The letter of a weekday is that of every day number falling on it.
proof fn lemma_weekday_letter(w: Weekday, n: int)
    requires
        w.index() == weekday_of_day_number(n),
    ensures
        weekday_letter(w) == letter_of_day_number(n),
{
}

/// A week that starts on Sunday reads S M T W T F S.
proof fn lemma_week_letters(start: int)
    requires
        weekday_of_day_number(start) == 0,
    ensures
        seq![
            letter_of_day_number(start),
            letter_of_day_number(start + 1),
            letter_of_day_number(start + 2),
            letter_of_day_number(start + 3),
            letter_of_day_number(start + 4),
            letter_of_day_number(start + 5),
            letter_of_day_number(start + 6),
        ] == seq!['S', 'M', 'T', 'W', 'T', 'F', 'S'],
{
    assert(weekday_of_day_number(start + 1) == 1);
    assert(weekday_of_day_number(start + 2) == 2);
    assert(weekday_of_day_number(start + 3) == 3);
    assert(weekday_of_day_number(start + 4) == 4);
    assert(weekday_of_day_number(start + 5) == 5);
    assert(weekday_of_day_number(start + 6) == 6);
}

/// The column headings of the grid: the weekday letters of its first week,
/// which always read S M T W T F S.
pub fn grid_header(selected: &Date) -> (r: Vec<char>)
    requires
        grid_defined(*selected),
    ensures
        r@.len() == 7,
        forall|i: int| 0 <= i < 7 ==> #[trigger] r@[i] == letter_of_day_number(grid_first_number(*selected) + i),
        r@ == seq!['S', 'M', 'T', 'W', 'T', 'F', 'S'],
{
    let first = get_calendar_first(selected.year, selected.month, Weekday::Sun);
    let ghost start = first.number();
    let mut r: Vec<char> = Vec::new();
    let mut i: usize = 0;
    while i < 7
        invariant
            i <= 7,
            r.len() == i,
            first.is_valid(),
            start == first.number(),
            start == grid_first_number(*selected),
            day_number_in_range(start + 41),
            forall|j: int| 0 <= j < i ==> #[trigger] r@[j] == letter_of_day_number(start + j),
        decreases 7 - i,
    {
        let date = first.checked_add_days(i as i32).unwrap();
        let w = date.weekday();
        let c = w.letter();
        proof {
            lemma_weekday_letter(w, start + i);
        }
        r.push(c);
        i = i + 1;
    }
    proof {
        lemma_week_letters(start);
        assert(r@ =~= seq![
            letter_of_day_number(start),
            letter_of_day_number(start + 1),
            letter_of_day_number(start + 2),
            letter_of_day_number(start + 3),
            letter_of_day_number(start + 4),
            letter_of_day_number(start + 5),
            letter_of_day_number(start + 6),
        ]);
    }
    r
}


/// Some event starts on day `d`.
pub open spec fn has_event_on(events: Seq<CalendarEvent>, d: Date) -> bool {
    exists|j: int| 0 <= j < events.len() && starts_on(#[trigger] events[j], d)
}

/// The event starts on day `d`.
pub open spec fn starts_on(e: CalendarEvent, d: Date) -> bool {
    match e.start_time {
        Some(t) => t.date == d,
        None => false,
    }
}

/// Whether some event starts on day `d`.
pub fn day_has_event(events: &Vec<CalendarEvent>, d: &Date) -> (r: bool)
    ensures
        r == has_event_on(events@, *d),
{
    let mut j: usize = 0;
    while j < events.len()
        invariant
            j <= events@.len(),
            forall|k: int| 0 <= k < j ==> !starts_on(#[trigger] events@[k], *d),
        decreases events@.len() - j,
    {
        match &events[j].start_time {
            Some(t) => {
                if t.date == *d {
                    return true;
                }
            },
            None => {},
        }
        j = j + 1;
    }
    false
}

/// The event dots of the grid: for each cell, whether some event starts on
/// its day.
pub fn days_with_events(cells: &Vec<GridCell>, events: &Vec<CalendarEvent>) -> (r: Vec<bool>)
    ensures
        r@.len() == cells@.len(),
        forall|i: int| 0 <= i < cells@.len() ==> #[trigger] r@[i] == has_event_on(events@, cells@[i].date),
{
    let mut r: Vec<bool> = Vec::new();
    let mut i: usize = 0;
    while i < cells.len()
        invariant
            i <= cells@.len(),
            r@.len() == i,
            forall|k: int| 0 <= k < i ==> #[trigger] r@[k] == has_event_on(events@, cells@[k].date),
        decreases cells@.len() - i,
    {
        let dot = day_has_event(events, &cells[i].date);
        r.push(dot);
        i = i + 1;
    }
    r
}


/// A grid day is highlighted exactly when it is today or the selected
/// date, compared as whole dates (a day of another month or year with the
/// same day number is not); any other day shows as a day of the month when
/// it lies in the grid's month, and as a day of another month otherwise.
pub proof fn law_day_style(date: Date, month: int, selected: Date, today: Date)
    ensures
        day_style(date, month, selected, today) is Marked <==> (date == today || date == selected),
        date != today && date != selected ==> (day_style(date, month, selected, today) is InMonth
            <==> date.month == month),
        date != today && date != selected ==> (day_style(date, month, selected, today) is OtherMonth
            <==> date.month != month),
{
}

} // verus!
