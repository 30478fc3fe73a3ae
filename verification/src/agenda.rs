//! The agenda below the grid: events grouped by day, days in order, and
//! the time shown for each event.
use vstd::prelude::*;
use crate::date::{Date, DateTime, lemma_date_order};
use crate::event::CalendarEvent;

verus! {

/// The events of one day of the agenda, by their index in the event list.
#[derive(Debug)]
pub struct AgendaGroup {
    pub date: Date,
    pub members: Vec<usize>,
}

/// The day an event is listed under: the day it starts, or today when it
/// has no start.
pub open spec fn agenda_date(e: CalendarEvent, today: Date) -> Date {
    match e.start_time {
        Some(t) => t.date,
        None => today,
    }
}

/// The indices below `n` of the events listed under day `d`, in order.
pub open spec fn indices_on(events: Seq<CalendarEvent>, today: Date, d: Date, n: int) -> Seq<usize>
    decreases n,
{
    if n <= 0 {
        Seq::empty()
    } else if agenda_date(events[n - 1], today) == d {
        indices_on(events, today, d, n - 1).push((n - 1) as usize)
    } else {
        indices_on(events, today, d, n - 1)
    }
}

/// Some group is for day `d`.
pub open spec fn has_group(groups: Seq<AgendaGroup>, d: Date) -> bool {
    exists|g: int| 0 <= g < groups.len() && (#[trigger] groups[g]).date == d
}

/// Event `j` is a member of a group for day `d`.
pub open spec fn listed_in(groups: Seq<AgendaGroup>, d: Date, j: int) -> bool {
    exists|g: int| 0 <= g < groups.len() && (#[trigger] groups[g]).date == d && groups[g].members@.contains(j as usize)
}

/// An event is among the indices of its own day.
pub proof fn lemma_indices_on_contains(events: Seq<CalendarEvent>, today: Date, j: int, n: int)
    requires
        0 <= j < n <= events.len(),
    ensures
        indices_on(events, today, agenda_date(events[j], today), n).contains(j as usize),
    decreases n,
{
    let d = agenda_date(events[j], today);
    if j == n - 1 {
        assert(indices_on(events, today, d, n).last() == j as usize);
    } else {
        lemma_indices_on_contains(events, today, j, n - 1);
        let p = indices_on(events, today, d, n - 1);
        let k = choose|k: int| 0 <= k < p.len() && p[k] == j as usize;
        if agenda_date(events[n - 1], today) == d {
            assert(p.push((n - 1) as usize)[k] == j as usize);
        }
    }
}

/// The day an event is listed under.
fn agenda_date_of(e: &CalendarEvent, today: &Date) -> (r: Date)
    ensures
        r == agenda_date(*e, *today),
{
    match &e.start_time {
        Some(t) => t.date,
        None => *today,
    }
}

/// Groups the events by the day they are listed under: one group per day,
/// days in chronological order, and in each group the indices of that day's
/// events in list order.
pub fn agenda_groups(events: &Vec<CalendarEvent>, today: &Date) -> (groups: Vec<AgendaGroup>)
    ensures
        forall|a: int, b: int|
            0 <= a < b < groups@.len() ==> (#[trigger] groups@[a]).date.precedes((#[trigger] groups@[b]).date),
        forall|g: int|
            0 <= g < groups@.len() ==> (#[trigger] groups@[g]).members@ == indices_on(
                events@,
                *today,
                groups@[g].date,
                events@.len() as int,
            ) && groups@[g].members@.len() > 0,
        forall|d: Date|
            has_group(groups@, d) || #[trigger] indices_on(events@, *today, d, events@.len() as int)
                == Seq::<usize>::empty(),
        forall|j: int|
            0 <= j < events@.len() ==> #[trigger] listed_in(groups@, agenda_date(events@[j], *today), j),
{
    let n = events.len();
    let mut groups: Vec<AgendaGroup> = Vec::new();
    let mut i: usize = 0;
    while i < n
        invariant
            n == events@.len(),
            i <= n,
            forall|a: int, b: int|
                0 <= a < b < groups@.len() ==> (#[trigger] groups@[a]).date.precedes((#[trigger] groups@[b]).date),
            forall|g: int|
                0 <= g < groups@.len() ==> (#[trigger] groups@[g]).members@ == indices_on(
                    events@,
                    *today,
                    groups@[g].date,
                    i as int,
                ) && groups@[g].members@.len() > 0,
            forall|d: Date|
                has_group(groups@, d) || #[trigger] indices_on(events@, *today, d, i as int) == Seq::<
                    usize,
                >::empty(),
        decreases n - i,
    {
        let d = agenda_date_of(&events[i], today);
        let mut pos: usize = 0;
        while pos < groups.len() && groups[pos].date.is_before(&d)
            invariant
                pos <= groups@.len(),
                forall|k: int| 0 <= k < pos ==> (#[trigger] groups@[k]).date.precedes(d),
            decreases groups@.len() - pos,
        {
            pos = pos + 1;
        }
        let ghost old_groups = groups@;
        if pos < groups.len() && groups[pos].date == d {
            let mut g = groups.remove(pos);
            g.members.push(i);
            groups.insert(pos, g);
            proof {
                assert forall|k: int| 0 <= k < groups@.len() implies (#[trigger] groups@[k]).date == old_groups[k].date by {
                    if k != pos {
                        assert(groups@[k] == old_groups[k]);
                    }
                }
                assert forall|g2: int|
                    0 <= g2 < groups@.len() implies (#[trigger] groups@[g2]).members@ == indices_on(
                        events@,
                        *today,
                        groups@[g2].date,
                        i + 1,
                    ) && groups@[g2].members@.len() > 0 by {
                    if g2 != pos {
                        assert(groups@[g2] == old_groups[g2]);
                        lemma_date_order(groups@[g2].date, d, d);
                        if g2 < pos {
                            lemma_date_order(old_groups[g2].date, old_groups[pos as int].date, d);
                        } else {
                            lemma_date_order(old_groups[pos as int].date, old_groups[g2].date, d);
                        }
                    }
                }
                assert forall|d2: Date|
                    has_group(groups@, d2) || #[trigger] indices_on(events@, *today, d2, i + 1) == Seq::<usize>::empty() by {
                    if d2 == d {
                        assert(groups@[pos as int].date == d);
                    } else if has_group(old_groups, d2) {
                        let g2 = choose|g2: int| 0 <= g2 < old_groups.len() && (#[trigger] old_groups[g2]).date == d2;
                        assert(groups@[g2].date == d2);
                    } else {
                        assert(indices_on(events@, *today, d2, i as int) == Seq::<usize>::empty());
                    }
                }
            }
        } else {
            let mut members: Vec<usize> = Vec::new();
            members.push(i);
            groups.insert(pos, AgendaGroup { date: d, members });
            proof {
                if pos < old_groups.len() {
                    lemma_date_order(old_groups[pos as int].date, d, d);
                }
                assert(!has_group(old_groups, d)) by {
                    if has_group(old_groups, d) {
                        let g2 = choose|g2: int| 0 <= g2 < old_groups.len() && (#[trigger] old_groups[g2]).date == d;
                        lemma_date_order(d, d, d);
                        if g2 > pos {
                            lemma_date_order(old_groups[pos as int].date, old_groups[g2].date, d);
                            lemma_date_order(d, old_groups[pos as int].date, old_groups[g2].date);
                        }
                    }
                }
                assert(indices_on(events@, *today, d, i as int) == Seq::<usize>::empty());
                assert(members@ =~= Seq::<usize>::empty().push(i));
                assert forall|a: int, b: int|
                    0 <= a < b < groups@.len() implies (#[trigger] groups@[a]).date.precedes((#[trigger] groups@[b]).date) by {
                    if b < pos {
                        assert(groups@[a] == old_groups[a] && groups@[b] == old_groups[b]);
                    } else if b == pos {
                        assert(groups@[a] == old_groups[a]);
                    } else if a == pos {
                        assert(groups@[b] == old_groups[b - 1]);
                        lemma_date_order(d, old_groups[pos as int].date, old_groups[b - 1].date);
                        lemma_date_order(old_groups[pos as int].date, d, d);
                    } else if a < pos {
                        assert(groups@[a] == old_groups[a] && groups@[b] == old_groups[b - 1]);
                    } else {
                        assert(groups@[a] == old_groups[a - 1] && groups@[b] == old_groups[b - 1]);
                    }
                }
                assert forall|g2: int|
                    0 <= g2 < groups@.len() implies (#[trigger] groups@[g2]).members@ == indices_on(
                        events@,
                        *today,
                        groups@[g2].date,
                        i + 1,
                    ) && groups@[g2].members@.len() > 0 by {
                    if g2 != pos {
                        let og = if g2 < pos { g2 } else { g2 - 1 };
                        assert(groups@[g2] == old_groups[og]);
                        assert(old_groups[og].date != d);
                    }
                }
                assert forall|d2: Date|
                    has_group(groups@, d2) || #[trigger] indices_on(events@, *today, d2, i + 1) == Seq::<usize>::empty() by {
                    if d2 == d {
                        assert(groups@[pos as int].date == d);
                    } else if has_group(old_groups, d2) {
                        let g2 = choose|g2: int| 0 <= g2 < old_groups.len() && (#[trigger] old_groups[g2]).date == d2;
                        if g2 < pos {
                            assert(groups@[g2].date == d2);
                        } else {
                            assert(groups@[g2 + 1].date == d2);
                        }
                    } else {
                        assert(indices_on(events@, *today, d2, i as int) == Seq::<usize>::empty());
                    }
                }
            }
        }
        i = i + 1;
    }
    proof {
        assert forall|j: int| 0 <= j < events@.len() implies #[trigger] listed_in(groups@, agenda_date(events@[j], *today), j) by {
            let d = agenda_date(events@[j], *today);
            lemma_indices_on_contains(events@, *today, j, n as int);
            assert(indices_on(events@, *today, d, n as int).len() > 0);
            let g = choose|g: int| 0 <= g < groups@.len() && (#[trigger] groups@[g]).date == d;
            assert(groups@[g].members@ == indices_on(events@, *today, d, n as int));
            assert(groups@[g].members@.contains(j as usize));
        }
    }
    groups
}

/// The time an agenda entry shows.
#[derive(Clone, Copy, Debug, PartialEq, Eq, Structural)]
pub enum AgendaTime {
    /// No time: an all-day event, or one without a start.
    NoTime,
    /// The start only.
    At(DateTime),
    /// From start to end.
    Span(DateTime, DateTime),
}

/// The time shown for an event: none for an all-day event, otherwise its
/// start and, when it has one, its end.
pub open spec fn shown_time(event: CalendarEvent) -> AgendaTime {
    if event.all_day {
        AgendaTime::NoTime
    } else {
        match (event.start_time, event.end_time) {
            (Some(s), Some(e)) => AgendaTime::Span(s, e),
            (Some(s), None) => AgendaTime::At(s),
            _ => AgendaTime::NoTime,
        }
    }
}

/// The time shown for an event.
pub fn agenda_time(event: &CalendarEvent) -> (r: AgendaTime)
    ensures
        r == shown_time(*event),
{
    if event.all_day {
        AgendaTime::NoTime
    } else {
        match (&event.start_time, &event.end_time) {
            (Some(s), Some(e)) => AgendaTime::Span(*s, *e),
            (Some(s), None) => AgendaTime::At(*s),
            _ => AgendaTime::NoTime,
        }
    }
}


/// Minutes an event of the day takes: from its start to its end on the
/// same day, for a timed event with both; nothing otherwise.
pub open spec fn focus_minutes(e: CalendarEvent) -> int {
    match (e.start_time, e.end_time) {
        (Some(s), Some(t)) => {
            let a = s.hour * 60 + s.minute;
            let b = t.hour * 60 + t.minute;
            if !e.all_day && s.date == t.date && a < b { b - a } else { 0 }
        },
        _ => 0,
    }
}

/// Total minutes of the events listed under day `d` among the first `n`.
pub open spec fn focus_total(events: Seq<CalendarEvent>, today: Date, d: Date, n: int) -> int
    decreases n,
{
    if n <= 0 {
        0
    } else if agenda_date(events[n - 1], today) == d {
        focus_total(events, today, d, n - 1) + focus_minutes(events[n - 1])
    } else {
        focus_total(events, today, d, n - 1)
    }
}

/// The summary of today: how many events are listed under today, and the
/// minutes they take (saturating at `u64::MAX`).
#[derive(Clone, Copy, Debug, PartialEq, Eq, Structural)]
pub struct DaySummary {
    pub event_count: usize,
    pub focus_minutes: u64,
}

/// The minutes an event takes.
fn event_minutes(e: &CalendarEvent) -> (r: u64)
    requires
        e.start_time matches Some(t) ==> t.is_valid(),
        e.end_time matches Some(t) ==> t.is_valid(),
    ensures
        r == focus_minutes(*e),
{
    match (&e.start_time, &e.end_time) {
        (Some(s), Some(t)) => {
            let a = s.hour * 60 + s.minute;
            let b = t.hour * 60 + t.minute;
            if !e.all_day && s.date == t.date && a < b {
                (b - a) as u64
            } else {
                0
            }
        },
        _ => 0,
    }
}

/// Today's summary: the number of events listed under today, and the
/// minutes the timed ones among them take.
pub fn daily_summary(events: &Vec<CalendarEvent>, today: &Date) -> (r: DaySummary)
    requires
        forall|i: int|
            0 <= i < events@.len() ==> ((#[trigger] events@[i]).start_time matches Some(t) ==> t.is_valid())
                && (events@[i].end_time matches Some(t) ==> t.is_valid()),
    ensures
        r.event_count == indices_on(events@, *today, *today, events@.len() as int).len(),
        r.focus_minutes == (if focus_total(events@, *today, *today, events@.len() as int) <= u64::MAX {
            focus_total(events@, *today, *today, events@.len() as int)
        } else {
            u64::MAX as int
        }),
{
    let n = events.len();
    let mut count: usize = 0;
    let mut total: u64 = 0;
    let mut i: usize = 0;
    while i < n
        invariant
            n == events@.len(),
            i <= n,
            count == indices_on(events@, *today, *today, i as int).len(),
            count <= i,
            total == (if focus_total(events@, *today, *today, i as int) <= u64::MAX {
                focus_total(events@, *today, *today, i as int)
            } else {
                u64::MAX as int
            }),
            forall|i: int|
                0 <= i < events@.len() ==> ((#[trigger] events@[i]).start_time matches Some(t) ==> t.is_valid())
                    && (events@[i].end_time matches Some(t) ==> t.is_valid()),
        decreases n - i,
    {
        proof {
            lemma_focus_total_nonneg(events@, *today, *today, i as int);
        }
        if agenda_date_of(&events[i], today) == *today {
            count = count + 1;
            let m = event_minutes(&events[i]);
            if total > u64::MAX - m {
                total = u64::MAX;
            } else {
                total = total + m;
            }
        }
        i = i + 1;
    }
    DaySummary { event_count: count, focus_minutes: total }
}

proof fn lemma_focus_total_nonneg(events: Seq<CalendarEvent>, today: Date, d: Date, n: int)
    ensures
        focus_total(events, today, d, n) >= 0,
    decreases n,
{
    if n > 0 {
        lemma_focus_total_nonneg(events, today, d, n - 1);
    }
}

} // verus!
