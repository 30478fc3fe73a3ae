//! What becomes of each record the applet reads: a row of the Evolution
//! Data Server's calendar cache, a stored occurrence, or a calendar file.
use vstd::prelude::*;
use crate::date::{Date, DateTime};
use crate::event::{
    CalendarEvent, PALETTE_LEN, starts_within, start_within, event_in_range, iso_date_time, parse_iso_datetime,
};
use crate::date::lemma_date_order;
use crate::ics::{IcsFields, ics_fields, ics_faults, parse_ics_event};

verus! {

/// The fields of the first event of a text, when reading it gives an
/// event (it has one, with a summary or a start).
pub open spec fn read_fields(s: Seq<char>) -> Option<IcsFields> {
    match ics_fields(s) {
        Some(f) => if f.summary.len() == 0 && f.start is None { None } else { Some(f) },
        None => None,
    }
}

/// What to do with a row of the calendar cache.
#[derive(Debug)]
pub enum CacheRow {
    /// The row's event starts in the range: list it.
    Keep(CalendarEvent),
    /// Nothing to list.
    Skip,
    /// The row's object holds no event, but the row has a summary: its
    /// stored occurrences are to be listed instead.
    LookUpOccurrences,
}

/// The event a cache row lists when its object reads as the event with
/// fields `f`: the row's summary stands in for an empty one, and the event
/// takes the calendar's colour.
pub open spec fn row_event_is(e: CalendarEvent, f: IcsFields, summary: Seq<char>, color: usize) -> bool {
    &&& e.summary@ == (if f.summary.len() == 0 && summary.len() > 0 { summary } else { f.summary })
    &&& e.location@ == f.location
    &&& e.start_time == f.start
    &&& e.end_time == f.end
    &&& e.all_day == f.all_day
    &&& e.color == color
}

/// `r` is what becomes of a cache row with object `obj` and summary
/// `summary`, for a calendar of colour `color` and the days from `start`
/// to `end`.
pub open spec fn is_row_outcome(
    obj: Seq<char>,
    summary: Seq<char>,
    color: usize,
    start: Date,
    end: Date,
    r: CacheRow,
) -> bool {
    match read_fields(obj) {
        Some(f) => match r {
            CacheRow::Keep(e) => row_event_is(e, f, summary, color) && starts_within(e, start, end) && e.wf(),
            CacheRow::Skip => !start_within(f.start, start, end),
            CacheRow::LookUpOccurrences => false,
        },
        None => if summary.len() > 0 {
            r is LookUpOccurrences
        } else {
            r is Skip
        },
    }
}

/// Decides what becomes of a cache row: its object (an iCalendar text)
/// and its summary, for a calendar of colour `color` and the days from
/// `start` to `end`.
pub fn classify_cache_row(obj: &str, summary: &String, color: usize, start: &Date, end: &Date) -> (r: CacheRow)
    requires
        !ics_faults(obj@),
        color < PALETTE_LEN,
    ensures
        is_row_outcome(obj@, summary@, color, *start, *end, r),
{
    match parse_ics_event(obj) {
        Some(mut event) => {
            if event.summary.as_str().is_empty() && !summary.as_str().is_empty() {
                event.summary = summary.clone();
            }
            event.color = color;
            if event_in_range(&event, start, end) {
                CacheRow::Keep(event)
            } else {
                CacheRow::Skip
            }
        },
        None => {
            if !summary.as_str().is_empty() {
                CacheRow::LookUpOccurrences
            } else {
                CacheRow::Skip
            }
        },
    }
}

/// A stored start or end text, read as an ISO date-time.
pub open spec fn stored_time(text: Option<&str>) -> Option<DateTime> {
    match text {
        Some(t) => iso_date_time(t@),
        None => None,
    }
}

/// `r` is the event of a stored occurrence of `summary`, from its stored
/// start and end texts, when it starts between `start` and `end`.
pub open spec fn is_occurrence_outcome(
    summary: Seq<char>,
    start_text: Option<&str>,
    end_text: Option<&str>,
    color: usize,
    start: Date,
    end: Date,
    r: Option<CalendarEvent>,
) -> bool {
    match r {
        Some(e) => {
            &&& e.summary@ == summary
            &&& e.location@.len() == 0
            &&& e.start_time == stored_time(start_text)
            &&& e.end_time == stored_time(end_text)
            &&& !e.all_day
            &&& e.color == color
            &&& starts_within(e, start, end)
        },
        None => !start_within(stored_time(start_text), start, end),
    }
}

/// The event of a stored occurrence of `summary`, from its stored start
/// and end texts, when it starts in the range.
pub fn occurrence_event(
    summary: &String,
    start_text: Option<&str>,
    end_text: Option<&str>,
    color: usize,
    start: &Date,
    end: &Date,
) -> (r: Option<CalendarEvent>)
    requires
        color < PALETTE_LEN,
    ensures
        is_occurrence_outcome(summary@, start_text, end_text, color, *start, *end, r),
{
    let start_time = match start_text {
        Some(t) => parse_iso_datetime(t),
        None => None,
    };
    let end_time = match end_text {
        Some(t) => parse_iso_datetime(t),
        None => None,
    };
    let event = CalendarEvent {
        summary: summary.clone(),
        location: String::new(),
        start_time,
        end_time,
        all_day: false,
        color,
    };
    if event_in_range(&event, start, end) {
        Some(event)
    } else {
        None
    }
}

/// `r` is the event of the calendar file `content`, when it has one
/// starting between `start` and `end`.
pub open spec fn is_file_outcome(content: Seq<char>, start: Date, end: Date, r: Option<CalendarEvent>) -> bool {
    match read_fields(content) {
        Some(f) => match r {
            Some(e) => row_event_is(e, f, Seq::empty(), crate::event::FILE_EVENT_COLOR) && starts_within(e, start, end)
                && e.wf(),
            None => !start_within(f.start, start, end),
        },
        None => r is None,
    }
}

/// The event of a calendar file, when it has one starting in the range.
pub fn ics_file_event(content: &str, start: &Date, end: &Date) -> (r: Option<CalendarEvent>)
    requires
        !ics_faults(content@),
    ensures
        is_file_outcome(content@, *start, *end, r),
{
    match parse_ics_event(content) {
        Some(event) => if event_in_range(&event, start, end) {
            Some(event)
        } else {
            None
        },
        None => None,
    }
}


/// A demo event of today, from `hour:minute` to `end_hour:end_minute`.
pub open spec fn is_demo_event(
    e: CalendarEvent,
    today: Date,
    summary: Seq<char>,
    location: Seq<char>,
    hour: u32,
    minute: u32,
    end_hour: u32,
    end_minute: u32,
    color: usize,
) -> bool {
    &&& e.summary@ == summary
    &&& e.location@ == location
    &&& e.start_time == Some(DateTime { date: today, hour, minute, second: 0, nanosecond: 0 })
    &&& e.end_time == Some(DateTime { date: today, hour: end_hour, minute: end_minute, second: 0, nanosecond: 0 })
    &&& !e.all_day
    &&& e.color == color
}

/// The demo events shown when no calendar holds any: a stand-up, a lunch
/// and a block of focus time, all today.
pub open spec fn is_demo_list(r: Seq<CalendarEvent>, today: Date) -> bool {
    &&& r.len() == 3
    &&& is_demo_event(r[0], today, "Team stand-up"@, "Video call"@, 9, 30, 9, 45, 0)
    &&& is_demo_event(r[1], today, "Lunch with Sam"@, "Corner Cafe"@, 12, 30, 13, 30, 2)
    &&& is_demo_event(r[2], today, "Focus time"@, ""@, 15, 0, 17, 0, 4)
}

fn demo_event(
    today: &Date,
    summary: &str,
    location: &str,
    hour: u32,
    minute: u32,
    end_hour: u32,
    end_minute: u32,
    color: usize,
) -> (e: CalendarEvent)
    ensures
        is_demo_event(e, *today, summary@, location@, hour, minute, end_hour, end_minute, color),
{
    CalendarEvent {
        summary: summary.to_owned(),
        location: location.to_owned(),
        start_time: Some(DateTime { date: *today, hour, minute, second: 0, nanosecond: 0 }),
        end_time: Some(DateTime { date: *today, hour: end_hour, minute: end_minute, second: 0, nanosecond: 0 }),
        all_day: false,
        color,
    }
}

/// The events to list: the ones found, or the demo events of today when
/// no calendar data yielded any.
pub fn with_demo_events(events: Vec<CalendarEvent>, today: &Date) -> (r: Vec<CalendarEvent>)
    ensures
        events@.len() > 0 ==> r@ == events@,
        events@.len() == 0 ==> is_demo_list(r@, *today),
        (forall|i: int| 0 <= i < events@.len() ==> (#[trigger] events@[i]).wf()) ==> (forall|i: int|
            0 <= i < r@.len() ==> (#[trigger] r@[i]).wf()),
{
    if events.len() > 0 {
        return events;
    }
    let mut r: Vec<CalendarEvent> = Vec::new();
    r.push(demo_event(today, "Team stand-up", "Video call", 9, 30, 9, 45, 0));
    r.push(demo_event(today, "Lunch with Sam", "Corner Cafe", 12, 30, 13, 30, 2));
    r.push(demo_event(today, "Focus time", "", 15, 0, 17, 0, 4));
    r
}


/// The two events hold the same fields.
pub open spec fn same_event(a: CalendarEvent, b: CalendarEvent) -> bool {
    &&& a.summary@ == b.summary@
    &&& a.location@ == b.location@
    &&& a.start_time == b.start_time
    &&& a.end_time == b.end_time
    &&& a.all_day == b.all_day
    &&& a.color == b.color
}

/// The two outcomes are both nothing, or events with the same fields.
pub open spec fn same_outcome(a: Option<CalendarEvent>, b: Option<CalendarEvent>) -> bool {
    match (a, b) {
        (Some(x), Some(y)) => same_event(x, y),
        (None, None) => true,
        _ => false,
    }
}

/// An outcome kept only when its event starts between `start` and `end`.
pub open spec fn filtered(r: Option<CalendarEvent>, start: Date, end: Date) -> Option<CalendarEvent> {
    match r {
        Some(e) => if starts_within(e, start, end) { Some(e) } else { None },
        None => None,
    }
}

/// The event a cache row lists, if it lists one.
pub open spec fn kept(r: CacheRow) -> Option<CalendarEvent> {
    match r {
        CacheRow::Keep(e) => Some(e),
        _ => None,
    }
}

/// The days from `start` to `end` lie within those from `start2` to `end2`.
pub open spec fn range_inside(start: Date, end: Date, start2: Date, end2: Date) -> bool {
    !start.precedes(start2) && !end2.precedes(end)
}

/// A start in the narrower range lies in the wider one.
pub proof fn lemma_start_within_inside(k: Option<DateTime>, start: Date, end: Date, start2: Date, end2: Date)
    requires
        range_inside(start, end, start2, end2),
        start_within(k, start, end),
    ensures
        start_within(k, start2, end2),
{
    if let Some(t) = k {
        lemma_date_order(t.date, start, start2);
        lemma_date_order(start2, start, t.date);
        lemma_date_order(end, t.date, end2);
        lemma_date_order(end2, end, t.date);
    }
}

/// On a narrower range of days a cache row gives the wider range's
/// outcome filtered to the narrower range: the event it lists is the one
/// listed on the wider range when that starts in the narrower one, and
/// the lookup of stored occurrences happens on both ranges or on neither.
pub proof fn law_row_narrowing(
    obj: Seq<char>,
    summary: Seq<char>,
    color: usize,
    start: Date,
    end: Date,
    start2: Date,
    end2: Date,
    narrow: CacheRow,
    wide: CacheRow,
)
    requires
        range_inside(start, end, start2, end2),
        is_row_outcome(obj, summary, color, start, end, narrow),
        is_row_outcome(obj, summary, color, start2, end2, wide),
    ensures
        same_outcome(kept(narrow), filtered(kept(wide), start, end)),
        narrow is LookUpOccurrences <==> wide is LookUpOccurrences,
{
    if let Some(f) = read_fields(obj) {
        if narrow is Keep {
            lemma_start_within_inside(f.start, start, end, start2, end2);
        }
    }
}

/// On a narrower range a stored occurrence gives the wider range's event
/// when it starts in the narrower range, and nothing otherwise.
pub proof fn law_occurrence_narrowing(
    summary: Seq<char>,
    start_text: Option<&str>,
    end_text: Option<&str>,
    color: usize,
    start: Date,
    end: Date,
    start2: Date,
    end2: Date,
    narrow: Option<CalendarEvent>,
    wide: Option<CalendarEvent>,
)
    requires
        range_inside(start, end, start2, end2),
        is_occurrence_outcome(summary, start_text, end_text, color, start, end, narrow),
        is_occurrence_outcome(summary, start_text, end_text, color, start2, end2, wide),
    ensures
        same_outcome(narrow, filtered(wide, start, end)),
{
    if let Some(x) = narrow {
        lemma_start_within_inside(stored_time(start_text), start, end, start2, end2);
        if let Some(y) = wide {
            assert(x.location@ =~= y.location@);
        }
    }
}

/// On a narrower range a calendar file gives the wider range's event when
/// it starts in the narrower range, and nothing otherwise.
pub proof fn law_file_narrowing(
    content: Seq<char>,
    start: Date,
    end: Date,
    start2: Date,
    end2: Date,
    narrow: Option<CalendarEvent>,
    wide: Option<CalendarEvent>,
)
    requires
        range_inside(start, end, start2, end2),
        is_file_outcome(content, start, end, narrow),
        is_file_outcome(content, start2, end2, wide),
    ensures
        same_outcome(narrow, filtered(wide, start, end)),
{
    if let Some(f) = read_fields(content) {
        if narrow is Some {
            lemma_start_within_inside(f.start, start, end, start2, end2);
        }
    }
}

} // verus!
