//! The texts the applet shows: the month title, the day headings of the
//! agenda and the time badge of each agenda card (in the forms `chrono`'s
//! `%B`, `%A`, `%m/%d/%y` and `%-I:%M %p` give them), the panel's day
//! badge, the greeting and the summary of today.
use vstd::prelude::*;
use vstd::string::StringExecFns;
use crate::agenda::{AgendaTime, DaySummary, agenda_time, shown_time};
use crate::date::{Date, DateTime, MIN_YEAR, MAX_YEAR, weekday_of_day_number};
use crate::event::CalendarEvent;

verus! {

/// The decimal digit `d`.
pub open spec fn digit_text(d: int) -> Seq<char> {
    if d == 0 { "0"@ }
    else if d == 1 { "1"@ }
    else if d == 2 { "2"@ }
    else if d == 3 { "3"@ }
    else if d == 4 { "4"@ }
    else if d == 5 { "5"@ }
    else if d == 6 { "6"@ }
    else if d == 7 { "7"@ }
    else if d == 8 { "8"@ }
    else { "9"@ }
}

/// The character of the decimal digit `d`.
pub open spec fn digit_char(d: int) -> char {
    if d == 0 { '0' }
    else if d == 1 { '1' }
    else if d == 2 { '2' }
    else if d == 3 { '3' }
    else if d == 4 { '4' }
    else if d == 5 { '5' }
    else if d == 6 { '6' }
    else if d == 7 { '7' }
    else if d == 8 { '8' }
    else { '9' }
}

/// The text of a digit is its one character.
pub proof fn lemma_digit_text(d: int)
    requires
        0 <= d < 10,
    ensures
        digit_text(d) == seq![digit_char(d)],
        digit_char(d) as u8 == 48 + d,
{
    reveal_strlit("0");
    reveal_strlit("1");
    reveal_strlit("2");
    reveal_strlit("3");
    reveal_strlit("4");
    reveal_strlit("5");
    reveal_strlit("6");
    reveal_strlit("7");
    reveal_strlit("8");
    reveal_strlit("9");
    assert(digit_text(d) =~= seq![digit_char(d)]);
}

/// Two digits are their two characters.
pub proof fn lemma_two_digits(n: int)
    requires
        0 <= n < 100,
    ensures
        two_digits(n) == seq![digit_char(n / 10), digit_char(n % 10)],
{
    lemma_digit_text(n / 10);
    lemma_digit_text(n % 10);
    assert(two_digits(n) =~= seq![digit_char(n / 10), digit_char(n % 10)]);
}

/// `n` (below 100) as two digits, zero-padded.
pub open spec fn two_digits(n: int) -> Seq<char> {
    digit_text(n / 10) + digit_text(n % 10)
}

/// `n` in decimal, without leading zeros.
pub open spec fn decimal(n: nat) -> Seq<char>
    decreases n,
{
    if n < 10 {
        digit_text(n as int)
    } else {
        decimal(n / 10) + digit_text((n % 10) as int)
    }
}

/// A year as `{}` prints an `i32`.
pub open spec fn year_text(y: int) -> Seq<char> {
    if y < 0 { "-"@ + decimal((-y) as nat) } else { decimal(y as nat) }
}

/// The English name of month `m`.
pub open spec fn month_name(m: int) -> Seq<char> {
    if m == 1 { "January"@ }
    else if m == 2 { "February"@ }
    else if m == 3 { "March"@ }
    else if m == 4 { "April"@ }
    else if m == 5 { "May"@ }
    else if m == 6 { "June"@ }
    else if m == 7 { "July"@ }
    else if m == 8 { "August"@ }
    else if m == 9 { "September"@ }
    else if m == 10 { "October"@ }
    else if m == 11 { "November"@ }
    else { "December"@ }
}

/// The English name of the weekday `w` days after Sunday.
pub open spec fn weekday_name(w: int) -> Seq<char> {
    if w == 0 { "Sunday"@ }
    else if w == 1 { "Monday"@ }
    else if w == 2 { "Tuesday"@ }
    else if w == 3 { "Wednesday"@ }
    else if w == 4 { "Thursday"@ }
    else if w == 5 { "Friday"@ }
    else { "Saturday"@ }
}

/// The grid's title: the month's name and the year.
pub open spec fn title_text(y: int, m: int) -> Seq<char> {
    month_name(m) + " "@ + year_text(y)
}

/// A date as `%m/%d/%y`: the year's last two digits (modulo 100, as
/// `rem_euclid`).
pub open spec fn short_date_text(d: Date) -> Seq<char> {
    two_digits(d.month as int) + "/"@ + two_digits(d.day as int) + "/"@ + two_digits(d.year as int % 100)
}

/// The heading of an agenda day: `Today` for today, else the weekday's
/// name, then a bullet and the short date.
pub open spec fn day_heading_text(d: Date, today: Date) -> Seq<char> {
    (if d == today { "Today"@ } else { weekday_name(d.weekday_index()) }) + " \u{2022} "@ + short_date_text(d)
}

/// The hour on a 12-hour clock (12 for noon and midnight).
pub open spec fn hour12(h: int) -> int {
    if h % 12 == 0 { 12 } else { h % 12 }
}

/// A time as `%-I:%M %p`: the unpadded 12-hour hour, the two-digit minute
/// and `AM` or `PM`.
pub open spec fn clock_text(t: DateTime) -> Seq<char> {
    decimal(hour12(t.hour as int) as nat) + ":"@ + two_digits(t.minute as int) + " "@ + (if t.hour < 12 { "AM"@ } else { "PM"@ })
}

/// The time badge of an agenda card: nothing, the start, or `start - end`.
pub open spec fn caption_text(a: AgendaTime) -> Seq<char> {
    match a {
        AgendaTime::NoTime => Seq::empty(),
        AgendaTime::At(s) => clock_text(s),
        AgendaTime::Span(s, e) => clock_text(s) + " - "@ + clock_text(e),
    }
}

fn push_digit(s: &mut String, d: u32)
    requires
        d < 10,
    ensures
        final(s)@ == old(s)@ + digit_text(d as int),
{
    match d {
        0 => s.append("0"),
        1 => s.append("1"),
        2 => s.append("2"),
        3 => s.append("3"),
        4 => s.append("4"),
        5 => s.append("5"),
        6 => s.append("6"),
        7 => s.append("7"),
        8 => s.append("8"),
        _ => s.append("9"),
    }
}

fn push_two_digits(s: &mut String, n: u32)
    requires
        n < 100,
    ensures
        final(s)@ == old(s)@ + two_digits(n as int),
{
    push_digit(s, n / 10);
    push_digit(s, n % 10);
}

fn push_decimal(s: &mut String, n: u64)
    ensures
        final(s)@ == old(s)@ + decimal(n as nat),
    decreases n,
{
    if n >= 10 {
        push_decimal(s, n / 10);
    }
    push_digit(s, (n % 10) as u32);
}

/// The title of the month grid, such as `March 2024`.
pub fn month_title(year: i32, month: u32) -> (r: String)
    requires
        MIN_YEAR <= year <= MAX_YEAR,
    ensures
        r@ == title_text(year as int, month as int),
{
    let mut r = String::new();
    match month {
        1 => r.append("January"),
        2 => r.append("February"),
        3 => r.append("March"),
        4 => r.append("April"),
        5 => r.append("May"),
        6 => r.append("June"),
        7 => r.append("July"),
        8 => r.append("August"),
        9 => r.append("September"),
        10 => r.append("October"),
        11 => r.append("November"),
        _ => r.append("December"),
    }
    r.append(" ");
    if year < 0 {
        r.append("-");
        push_decimal(&mut r, (-year) as u64);
    } else {
        push_decimal(&mut r, year as u64);
    }
    r
}

fn push_weekday_name(s: &mut String, w: u32)
    ensures
        final(s)@ == old(s)@ + weekday_name(w as int),
{
    match w {
        0 => s.append("Sunday"),
        1 => s.append("Monday"),
        2 => s.append("Tuesday"),
        3 => s.append("Wednesday"),
        4 => s.append("Thursday"),
        5 => s.append("Friday"),
        _ => s.append("Saturday"),
    }
}

/// The year modulo 100 (never negative).
fn year_mod_100(year: i32) -> (r: u32)
    requires
        MIN_YEAR <= year <= MAX_YEAR,
    ensures
        r == year as int % 100,
        r < 100,
{
    if year < 0 {
        let m = (-year) % 100;
        if m == 0 { 0 } else { (100 - m) as u32 }
    } else {
        (year % 100) as u32
    }
}

fn push_short_date(s: &mut String, date: &Date)
    requires
        date.is_valid(),
    ensures
        final(s)@ == old(s)@ + short_date_text(*date),
{
    push_two_digits(s, date.month);
    s.append("/");
    push_two_digits(s, date.day);
    s.append("/");
    let yy = year_mod_100(date.year);
    push_two_digits(s, yy);
    assert(final(s)@ =~= old(s)@ + short_date_text(*date));
}

/// The heading of an agenda day, such as `Today • 03/10/24` or
/// `Tuesday • 03/12/24`.
pub fn day_heading(date: &Date, today: &Date) -> (r: String)
    requires
        date.is_valid(),
    ensures
        r@ == day_heading_text(*date, *today),
{
    let mut r = String::new();
    if *date == *today {
        r.append("Today");
    } else {
        let w = date.weekday().num_days_from_sunday();
        push_weekday_name(&mut r, w);
    }
    r.append(" \u{2022} ");
    push_short_date(&mut r, date);
    assert(r@ =~= day_heading_text(*date, *today));
    r
}

fn push_clock(s: &mut String, t: &DateTime)
    requires
        t.hour < 24,
        t.minute < 60,
    ensures
        final(s)@ == old(s)@ + clock_text(*t),
{
    let h = if t.hour % 12 == 0 { 12 } else { t.hour % 12 };
    push_decimal(s, h as u64);
    s.append(":");
    push_two_digits(s, t.minute);
    s.append(" ");
    if t.hour < 12 {
        s.append("AM");
    } else {
        s.append("PM");
    }
}

/// The time badge of an event's agenda card, such as `9:05 AM - 2:30 PM`;
/// empty for an all-day event or one without a start.
pub fn time_caption(event: &CalendarEvent) -> (r: String)
    requires
        event.start_time matches Some(t) ==> t.is_valid(),
        event.end_time matches Some(t) ==> t.is_valid(),
    ensures
        r@ == caption_text(shown_time(*event)),
{
    let mut r = String::new();
    match agenda_time(event) {
        AgendaTime::NoTime => {},
        AgendaTime::At(s) => push_clock(&mut r, &s),
        AgendaTime::Span(s, e) => {
            push_clock(&mut r, &s);
            r.append(" - ");
            push_clock(&mut r, &e);
        },
    }
    r
}


/// The greeting for an hour of the day: morning from 5 to 11, afternoon
/// from 12 to 17, evening otherwise.
pub open spec fn greeting_text(hour: int, name: Seq<char>) -> Seq<char> {
    (if 5 <= hour < 12 {
        "Good morning, "@
    } else if 12 <= hour < 18 {
        "Good afternoon, "@
    } else {
        "Good evening, "@
    }) + name
}

/// The greeting at the top of the popup, such as `Good morning, ann`.
pub fn greeting(hour: u32, name: &str) -> (r: String)
    ensures
        r@ == greeting_text(hour as int, name@),
{
    let mut r = String::new();
    if 5 <= hour && hour < 12 {
        r.append("Good morning, ");
    } else if 12 <= hour && hour < 18 {
        r.append("Good afternoon, ");
    } else {
        r.append("Good evening, ");
    }
    r.append(name);
    r
}

/// The panel badge: the day of the month, without leading zero.
pub fn day_badge(today: &Date) -> (r: String)
    ensures
        r@ == decimal(today.day as nat),
{
    let mut r = String::new();
    push_decimal(&mut r, today.day as u64);
    r
}


/// The summary line: `N events today • Hh MMm focus`.
pub open spec fn summary_text(count: nat, minutes: nat) -> Seq<char> {
    decimal(count) + " events today \u{2022} "@ + decimal(minutes / 60) + "h "@ + two_digits((minutes % 60) as int)
        + "m focus"@
}

/// The line that sums up today's events.
pub fn summary_line(summary: &DaySummary) -> (r: String)
    ensures
        r@ == summary_text(summary.event_count as nat, summary.focus_minutes as nat),
{
    let mut r = String::new();
    push_decimal(&mut r, summary.event_count as u64);
    r.append(" events today \u{2022} ");
    push_decimal(&mut r, summary.focus_minutes / 60);
    r.append("h ");
    push_two_digits(&mut r, (summary.focus_minutes % 60) as u32);
    r.append("m focus");
    r
}


/// The full English names of the weekdays, from Sunday.
pub open spec fn english_weekdays() -> Seq<Seq<char>> {
    seq!["Sunday"@, "Monday"@, "Tuesday"@, "Wednesday"@, "Thursday"@, "Friday"@, "Saturday"@]
}

/// The full English names of the months, from January.
pub open spec fn english_months() -> Seq<Seq<char>> {
    seq![
        "January"@, "February"@, "March"@, "April"@, "May"@, "June"@, "July"@, "August"@,
        "September"@, "October"@, "November"@, "December"@,
    ]
}

/// A text begins with its first part.
proof fn lemma_begins_with(a: Seq<char>, b: Seq<char>, c: Seq<char>)
    ensures
        (a + b).subrange(0, a.len() as int) == a,
        (a + b + c).subrange(0, a.len() as int) == a,
{
    assert((a + b).subrange(0, a.len() as int) =~= a);
    assert((a + b + c).subrange(0, a.len() as int) =~= a);
}

/// The weekday names used in headings are the English ones, from Sunday.
proof fn lemma_weekday_table(w: int)
    requires
        0 <= w < 7,
    ensures
        weekday_name(w) == english_weekdays()[w],
{
    if w == 0 {
    } else if w == 1 {
    } else if w == 2 {
    } else if w == 3 {
    } else if w == 4 {
    } else if w == 5 {
    } else {
    }
}

/// Counting weekdays from 4 January 1970, a Sunday, gives each date's
/// days since Sunday.
proof fn lemma_sunday_anchor(n: int)
    ensures
        (n - Date { year: 1970, month: 1, day: 4 }.number()) % 7 == weekday_of_day_number(n),
{
    assert(Date { year: 1970, month: 1, day: 4 }.number() == 719166);
    assert((n - 719166) % 7 == n % 7) by (nonlinear_arith);
}

/// The heading of a day other than today begins with the full English
/// name of its weekday (as `%A` writes it), counted from 4 January 1970,
/// a Sunday; today's heading begins with `Today`.
pub proof fn law_heading_names_weekday(d: Date, today: Date)
    requires
        d.is_valid(),
    ensures
        d != today ==> ({
            let name = english_weekdays()[(d.number() - Date { year: 1970, month: 1, day: 4 }.number()) % 7];
            day_heading_text(d, today).subrange(0, name.len() as int) == name
        }),
        d == today ==> day_heading_text(d, today).subrange(0, "Today"@.len() as int) == "Today"@,
{
    let n = d.number();
    lemma_sunday_anchor(n);
    let w = weekday_of_day_number(n);
    if d == today {
        lemma_begins_with("Today"@, " \u{2022} "@, short_date_text(d));
    } else {
        lemma_weekday_table(w);
        lemma_begins_with(weekday_name(w), " \u{2022} "@, short_date_text(d));
    }
}

/// The title of month `m` begins with the month's full English name (as
/// `%B` writes it), followed by a space.
pub proof fn law_title_names_month(y: int, m: int)
    requires
        1 <= m <= 12,
    ensures
        ({
            let name = english_months()[m - 1];
            &&& title_text(y, m).subrange(0, name.len() as int) == name
            &&& title_text(y, m)[name.len() as int] == ' '
        }),
{
    let name = month_name(m);
    assert(name == english_months()[m - 1]);
    let rest = " "@ + year_text(y);
    assert(title_text(y, m) =~= name + rest);
    lemma_begins_with(name, rest, Seq::empty());
    reveal_strlit(" ");
    assert((name + rest)[name.len() as int] == rest[0]);
}

} // verus!
