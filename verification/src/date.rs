//! Dates of the proleptic Gregorian calendar, as `chrono` represents them.
//!
//! `Date` and `DateTime` hold as plain numbers what the calendar logic reads;
//! the arithmetic that only `chrono` performs (validation, day offsets,
//! weekdays, parsing with a format) goes through the small trusted functions
//! at the end of this file.
use vstd::prelude::*;
use chrono::Datelike;
use chrono::Timelike;

verus! {

/// The earliest year a `chrono::NaiveDate` can hold.
pub const MIN_YEAR: i32 = -262143;

/// The latest year a `chrono::NaiveDate` can hold.
pub const MAX_YEAR: i32 = 262142;

/// A calendar date (year, month 1..=12, day of month).
#[derive(Clone, Copy, Debug, PartialEq, Eq, Structural)]
pub struct Date {
    pub year: i32,
    pub month: u32,
    pub day: u32,
}

/// A date with a time of day; `nanosecond` may exceed one second to
/// represent a leap second, as in `chrono`.
#[derive(Clone, Copy, Debug, PartialEq, Eq, Structural)]
pub struct DateTime {
    pub date: Date,
    pub hour: u32,
    pub minute: u32,
    pub second: u32,
    pub nanosecond: u32,
}

/// A day of the week.
#[derive(Clone, Copy, Debug, PartialEq, Eq, Structural)]
pub enum Weekday {
    Sun,
    Mon,
    Tue,
    Wed,
    Thu,
    Fri,
    Sat,
}

pub open spec fn is_leap_year(y: int) -> bool {
    y % 4 == 0 && (y % 100 != 0 || y % 400 == 0)
}

pub open spec fn days_in_month(y: int, m: int) -> int {
    if m == 2 {
        if is_leap_year(y) { 29 } else { 28 }
    } else if m == 4 || m == 6 || m == 9 || m == 11 {
        30
    } else {
        31
    }
}

pub open spec fn days_in_year(y: int) -> int {
    if is_leap_year(y) { 366 } else { 365 }
}

/// A year, month and day that name a date `chrono` can represent.
pub open spec fn valid_ymd(y: int, m: int, d: int) -> bool {
    &&& MIN_YEAR <= y <= MAX_YEAR
    &&& 1 <= m <= 12
    &&& 1 <= d <= days_in_month(y, m)
}

/// Days of the years before `y`, counted from 1 January of year 1.
pub open spec fn days_before_year(y: int) -> int {
    365 * (y - 1) + (y - 1) / 4 - (y - 1) / 100 + (y - 1) / 400
}

/// Days of the months of year `y` before month `m`.
pub open spec fn days_before_month(y: int, m: int) -> int {
    let common: int = if m <= 1 { 0 }
        else if m == 2 { 31 }
        else if m == 3 { 59 }
        else if m == 4 { 90 }
        else if m == 5 { 120 }
        else if m == 6 { 151 }
        else if m == 7 { 181 }
        else if m == 8 { 212 }
        else if m == 9 { 243 }
        else if m == 10 { 273 }
        else if m == 11 { 304 }
        else { 334 };
    if m > 2 && is_leap_year(y) { common + 1 } else { common }
}

/// The day number of a date: 1 January of year 1 is day 1 (as
/// `chrono::Datelike::num_days_from_ce` counts).
pub open spec fn day_number(y: int, m: int, d: int) -> int {
    days_before_year(y) + days_before_month(y, m) + d
}

/// An hour, minute and second of a day without a leap second.
pub open spec fn valid_hms(h: int, m: int, s: int) -> bool {
    0 <= h < 24 && 0 <= m < 60 && 0 <= s < 60
}

/// The day numbers of the dates `chrono` can represent.
pub open spec fn day_number_in_range(n: int) -> bool {
    day_number(MIN_YEAR as int, 1, 1) <= n <= day_number(MAX_YEAR as int, 12, 31)
}

/// Days since Sunday of the day with number `n` (day 1 was a Monday).
pub open spec fn weekday_of_day_number(n: int) -> int {
    n % 7
}

impl Date {
    pub open spec fn is_valid(self) -> bool {
        valid_ymd(self.year as int, self.month as int, self.day as int)
    }

    pub open spec fn number(self) -> int {
        day_number(self.year as int, self.month as int, self.day as int)
    }

    /// Days since Sunday of this date.
    pub open spec fn weekday_index(self) -> int {
        weekday_of_day_number(self.number())
    }

    /// Chronological order of dates.
    pub open spec fn precedes(self, other: Date) -> bool {
        ||| self.year < other.year
        ||| self.year == other.year && self.month < other.month
        ||| self.year == other.year && self.month == other.month && self.day < other.day
    }
}

impl DateTime {
    pub open spec fn is_valid(self) -> bool {
        &&& self.date.is_valid()
        &&& self.hour < 24
        &&& self.minute < 60
        &&& self.second < 60
        &&& self.nanosecond < 2_000_000_000
    }

    /// Chronological order of date-times.
    pub open spec fn precedes(self, other: DateTime) -> bool {
        ||| self.date.precedes(other.date)
        ||| self.date == other.date && self.hour < other.hour
        ||| self.date == other.date && self.hour == other.hour && self.minute < other.minute
        ||| self.date == other.date && self.hour == other.hour && self.minute == other.minute
            && self.second < other.second
        ||| self.date == other.date && self.hour == other.hour && self.minute == other.minute
            && self.second == other.second && self.nanosecond < other.nanosecond
    }
}

impl Weekday {
    pub open spec fn index(self) -> int {
        match self {
            Weekday::Sun => 0,
            Weekday::Mon => 1,
            Weekday::Tue => 2,
            Weekday::Wed => 3,
            Weekday::Thu => 4,
            Weekday::Fri => 5,
            Weekday::Sat => 6,
        }
    }

    /// Days since Sunday, as `chrono::Weekday::num_days_from_sunday`.
    pub fn num_days_from_sunday(&self) -> (r: u32)
        ensures
            r == self.index(),
    {
        match self {
            Weekday::Sun => 0,
            Weekday::Mon => 1,
            Weekday::Tue => 2,
            Weekday::Wed => 3,
            Weekday::Thu => 4,
            Weekday::Fri => 5,
            Weekday::Sat => 6,
        }
    }
}

/// Makes a `chrono::NaiveDate` from year, month and day with
/// `chrono::NaiveDate::from_ymd_opt`; it is `Some` exactly for the valid
/// dates of `chrono`'s range, and then holds the same year, month and day.
#[verifier::external_body]
fn chrono_from_ymd(year: i32, month: u32, day: u32) -> (r: Option<Date>)
    ensures
        r is Some <==> valid_ymd(year as int, month as int, day as int),
        r matches Some(d) ==> d == (Date { year, month, day }),
{
    chrono::NaiveDate::from_ymd_opt(year, month, day).map(
        |d| Date { year: d.year(), month: d.month(), day: d.day() },
    )
}


/// Moves a valid date by a number of days with
/// `chrono::NaiveDate::checked_add_signed` (and `chrono::TimeDelta::days`,
/// which cannot overflow for an `i32` count); it is `Some` exactly when the
/// day reached lies in `chrono`'s range, and then it is the valid date with
/// that day number.
#[verifier::external_body]
fn chrono_add_days(date: Date, days: i32) -> (r: Option<Date>)
    requires
        date.is_valid(),
    ensures
        r is Some <==> day_number_in_range(date.number() + days),
        r matches Some(d) ==> d.is_valid() && d.number() == date.number() + days,
{
    let naive = chrono::NaiveDate::from_ymd_opt(date.year, date.month, date.day).unwrap();
    naive.checked_add_signed(chrono::TimeDelta::days(days as i64)).map(
        |d| Date { year: d.year(), month: d.month(), day: d.day() },
    )
}

/// The weekday of a valid date with `chrono::NaiveDate::weekday` and
/// `chrono::Weekday::num_days_from_sunday`: the number of days since Sunday,
/// which in the proleptic Gregorian calendar is the day number modulo 7.
#[verifier::external_body]
fn chrono_weekday(date: Date) -> (r: u32)
    requires
        date.is_valid(),
    ensures
        r == date.weekday_index(),
{
    let naive = chrono::NaiveDate::from_ymd_opt(date.year, date.month, date.day).unwrap();
    naive.weekday().num_days_from_sunday()
}

/// Adds a time of day to a valid date with `chrono::NaiveDate::and_hms_opt`;
/// it is `Some` exactly for hour < 24, minute < 60 and second < 60 (no leap
/// second), with a zero sub-second part.
#[verifier::external_body]
fn chrono_and_hms(date: Date, hour: u32, minute: u32, second: u32) -> (r: Option<DateTime>)
    requires
        date.is_valid(),
    ensures
        r is Some <==> valid_hms(hour as int, minute as int, second as int),
        r matches Some(t) ==> t == (DateTime { date, hour, minute, second, nanosecond: 0 }),
{
    let naive = chrono::NaiveDate::from_ymd_opt(date.year, date.month, date.day).unwrap();
    naive.and_hms_opt(hour, minute, second).map(
        |t| DateTime {
            date: Date { year: t.year(), month: t.month(), day: t.day() },
            hour: t.hour(),
            minute: t.minute(),
            second: t.second(),
            nanosecond: t.nanosecond(),
        },
    )
}

/// What `chrono::NaiveDateTime::parse_from_str` makes of a text with a
/// format string (`None` where it reports an error).
pub uninterp spec fn parsed_date_time(text: Seq<char>, format: Seq<char>) -> Option<DateTime>;

/// Parses a date-time with `chrono::NaiveDateTime::parse_from_str`. The
/// result is the named value above; a `NaiveDateTime` always holds a valid
/// date and time of day. How the format is interpreted is left unsaid.
#[verifier::external_body]
fn chrono_parse_date_time(text: &str, format: &str) -> (r: Option<DateTime>)
    ensures
        r == parsed_date_time(text@, format@),
        r matches Some(t) ==> t.is_valid(),
{
    chrono::NaiveDateTime::parse_from_str(text, format).ok().map(
        |t| DateTime {
            date: Date { year: t.year(), month: t.month(), day: t.day() },
            hour: t.hour(),
            minute: t.minute(),
            second: t.second(),
            nanosecond: t.nanosecond(),
        },
    )
}

impl Date {
    /// The date with this year, month and day, where `chrono` has one.
    pub fn new(year: i32, month: u32, day: u32) -> (r: Option<Date>)
        ensures
            r is Some <==> valid_ymd(year as int, month as int, day as int),
            r matches Some(d) ==> d == (Date { year, month, day }),
    {
        chrono_from_ymd(year, month, day)
    }

    /// The date `days` days later (earlier for a negative count), where
    /// `chrono` can represent it.
    pub fn checked_add_days(&self, days: i32) -> (r: Option<Date>)
        requires
            self.is_valid(),
        ensures
            r is Some <==> day_number_in_range(self.number() + days),
            r matches Some(d) ==> d.is_valid() && d.number() == self.number() + days,
    {
        chrono_add_days(*self, days)
    }

    /// The day of the week of a valid date.
    pub fn weekday(&self) -> (r: Weekday)
        requires
            self.is_valid(),
        ensures
            r.index() == self.weekday_index(),
    {
        let n = chrono_weekday(*self);
        if n == 0 {
            Weekday::Sun
        } else if n == 1 {
            Weekday::Mon
        } else if n == 2 {
            Weekday::Tue
        } else if n == 3 {
            Weekday::Wed
        } else if n == 4 {
            Weekday::Thu
        } else if n == 5 {
            Weekday::Fri
        } else {
            Weekday::Sat
        }
    }

    /// Whether this date comes before `other`.
    pub fn is_before(&self, other: &Date) -> (r: bool)
        ensures
            r == self.precedes(*other),
    {
        self.year < other.year || (self.year == other.year && (self.month < other.month || (
        self.month == other.month && self.day < other.day)))
    }

    /// The date with a time of day, where that time exists (no leap second).
    pub fn and_hms_opt(&self, hour: u32, minute: u32, second: u32) -> (r: Option<DateTime>)
        requires
            self.is_valid(),
        ensures
            r is Some <==> valid_hms(hour as int, minute as int, second as int),
            r matches Some(t) ==> t == (DateTime { date: *self, hour, minute, second, nanosecond: 0 }),
    {
        chrono_and_hms(*self, hour, minute, second)
    }
}

impl DateTime {
    /// Whether this date-time comes before `other`.
    pub fn is_before(&self, other: &DateTime) -> (r: bool)
        ensures
            r == self.precedes(*other),
    {
        if self.date.is_before(&other.date) {
            true
        } else if self.date != other.date {
            false
        } else if self.hour != other.hour {
            self.hour < other.hour
        } else if self.minute != other.minute {
            self.minute < other.minute
        } else if self.second != other.second {
            self.second < other.second
        } else {
            self.nanosecond < other.nanosecond
        }
    }

    /// Parses `text` with a `chrono` format string.
    pub fn parse_from_str(text: &str, format: &str) -> (r: Option<DateTime>)
        ensures
            r == parsed_date_time(text@, format@),
            r matches Some(t) ==> t.is_valid(),
    {
        chrono_parse_date_time(text, format)
    }
}

/// Chronological order of dates is a strict total order.
pub proof fn lemma_date_order(a: Date, b: Date, c: Date)
    ensures
        !a.precedes(a),
        a.precedes(b) ==> !b.precedes(a),
        a.precedes(b) && b.precedes(c) ==> a.precedes(c),
        a != b ==> a.precedes(b) || b.precedes(a),
{
}

/// Each year adds its own length to the day count.
pub proof fn lemma_days_before_next_year(y: int)
    ensures
        days_before_year(y + 1) == days_before_year(y) + days_in_year(y),
{
}

/// Earlier years end before later years begin.
pub proof fn lemma_days_before_year_monotonic(y1: int, y2: int)
    requires
        y1 < y2,
    ensures
        days_before_year(y1) + days_in_year(y1) <= days_before_year(y2),
    decreases y2 - y1,
{
    lemma_days_before_next_year(y1);
    if y1 + 1 < y2 {
        lemma_days_before_year_monotonic(y1 + 1, y2);
        lemma_days_before_next_year(y1 + 1);
    }
}

/// A valid date falls within its own year.
pub proof fn lemma_day_within_year(d: Date)
    requires
        d.is_valid(),
    ensures
        days_before_year(d.year as int) < d.number() <= days_before_year(d.year as int)
            + days_in_year(d.year as int),
{
}

/// Chronological order of valid dates is the order of their day numbers.
pub proof fn lemma_precedes_iff_number_less(a: Date, b: Date)
    requires
        a.is_valid(),
        b.is_valid(),
    ensures
        a.precedes(b) <==> a.number() < b.number(),
        a == b <==> a.number() == b.number(),
{
    lemma_day_within_year(a);
    lemma_day_within_year(b);
    if a.year < b.year {
        lemma_days_before_year_monotonic(a.year as int, b.year as int);
    } else if b.year < a.year {
        lemma_days_before_year_monotonic(b.year as int, a.year as int);
    }
}


/// The seconds of a time of day, counted from midnight, lie within one day
/// and order times as a clock does.
proof fn lemma_seconds_of_day(a: DateTime, b: DateTime)
    requires
        a.is_valid(),
        b.is_valid(),
    ensures
        0 <= a.hour * 3600 + a.minute * 60 + a.second < 86400,
        (a.hour < b.hour || (a.hour == b.hour && (a.minute < b.minute || (a.minute == b.minute
            && a.second < b.second)))) <==> a.hour * 3600 + a.minute * 60 + a.second < b.hour * 3600
            + b.minute * 60 + b.second,
        (a.hour == b.hour && a.minute == b.minute && a.second == b.second) <==> a.hour * 3600 + a.minute
            * 60 + a.second == b.hour * 3600 + b.minute * 60 + b.second,
{
    let (ah, am, asec) = (a.hour as int, a.minute as int, a.second as int);
    let (bh, bm, bsec) = (b.hour as int, b.minute as int, b.second as int);
    assert(0 <= ah * 3600 + am * 60 + asec < 86400) by (nonlinear_arith)
        requires 0 <= ah < 24, 0 <= am < 60, 0 <= asec < 60;
    assert(ah < bh ==> ah * 3600 + am * 60 + asec < bh * 3600 + bm * 60 + bsec) by (nonlinear_arith)
        requires 0 <= ah < 24, 0 <= am < 60, 0 <= asec < 60, 0 <= bh < 24, 0 <= bm < 60, 0 <= bsec < 60;
    assert(bh < ah ==> bh * 3600 + bm * 60 + bsec < ah * 3600 + am * 60 + asec) by (nonlinear_arith)
        requires 0 <= ah < 24, 0 <= am < 60, 0 <= asec < 60, 0 <= bh < 24, 0 <= bm < 60, 0 <= bsec < 60;
    assert(am < bm ==> am * 60 + asec < bm * 60 + bsec) by (nonlinear_arith)
        requires 0 <= am < 60, 0 <= asec < 60, 0 <= bm < 60, 0 <= bsec < 60;
    assert(bm < am ==> bm * 60 + bsec < am * 60 + asec) by (nonlinear_arith)
        requires 0 <= am < 60, 0 <= asec < 60, 0 <= bm < 60, 0 <= bsec < 60;
}

/// Date-times are ordered chronologically: one comes before another
/// exactly when it lies fewer seconds after the start of day 1, or as many
/// seconds and fewer nanoseconds.
pub proof fn law_date_time_order(a: DateTime, b: DateTime)
    requires
        a.is_valid(),
        b.is_valid(),
    ensures
        a.precedes(b) <==> ({
            let sa = a.date.number() * 86400 + a.hour * 3600 + a.minute * 60 + a.second;
            let sb = b.date.number() * 86400 + b.hour * 3600 + b.minute * 60 + b.second;
            sa < sb || (sa == sb && a.nanosecond < b.nanosecond)
        }),
{
    lemma_precedes_iff_number_less(a.date, b.date);
    lemma_seconds_of_day(a, b);
    lemma_seconds_of_day(b, a);
    let na = a.date.number();
    let nb = b.date.number();
    let ia = a.hour * 3600 + a.minute * 60 + a.second;
    let ib = b.hour * 3600 + b.minute * 60 + b.second;
    assert(na < nb ==> na * 86400 + ia < nb * 86400 + ib) by (nonlinear_arith)
        requires 0 <= ia < 86400, 0 <= ib < 86400;
    assert(nb < na ==> nb * 86400 + ib < na * 86400 + ia) by (nonlinear_arith)
        requires 0 <= ia < 86400, 0 <= ib < 86400;
}

} // verus!
