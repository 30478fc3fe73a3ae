//! Calendar events: their colour, whether they fall in a range of days,
//! the reading of stored start and end times, and the order in which the
//! applet lists them.
use vstd::prelude::*;
use crate::date::{Date, DateTime, parsed_date_time};
use vstd::string::StringSliceAdditionalSpecFns;

verus! {

/// Number of colours in the applet's palette.
pub const PALETTE_LEN: usize = 8;

/// The palette colour of events read from calendar files (cyan).
pub const FILE_EVENT_COLOR: usize = 7;

/// A calendar event. `location` is empty when the event names none;
/// `color` is an index into the applet's eight-colour palette.
#[derive(Clone, Debug)]
pub struct CalendarEvent {
    pub summary: String,
    pub location: String,
    pub start_time: Option<DateTime>,
    pub end_time: Option<DateTime>,
    pub all_day: bool,
    pub color: usize,
}

impl CalendarEvent {
    /// The colour lies in the palette.
    pub open spec fn wf(self) -> bool {
        self.color < PALETTE_LEN
    }

    /// The text of the location chip of the event's agenda card: its
    /// location, when it names one.
    pub fn location_chip(&self) -> (r: Option<&str>)
        ensures
            r is Some <==> self.location@.len() > 0,
            r matches Some(t) ==> t@ == self.location@,
    {
        let t = self.location.as_str();
        if t.is_empty() {
            None
        } else {
            Some(t)
        }
    }
}

/// The string hash that picks a calendar's colour: each byte is added to
/// 31 times the hash of the bytes before it, modulo 2^64.
pub open spec fn name_hash(bytes: Seq<u8>) -> u64
    decreases bytes.len(),
{
    if bytes.len() == 0 {
        0
    } else {
        ((name_hash(bytes.drop_last()) as int * 31 + bytes.last() as int) % 0x1_0000_0000_0000_0000) as u64
    }
}

/// The palette colour of a calendar, chosen by the hash of its name.
pub fn hash_to_color(hash: &str) -> (r: usize)
    ensures
        r == name_hash(hash.spec_bytes()) % (PALETTE_LEN as u64),
        r < PALETTE_LEN,
{
    let bytes = hash.as_bytes();
    let mut h: u64 = 0;
    let mut i: usize = 0;
    while i < bytes.len()
        invariant
            i <= bytes@.len(),
            bytes@ == hash.spec_bytes(),
            h == name_hash(bytes@.take(i as int)),
        decreases bytes@.len() - i,
    {
        let b = bytes[i];
        proof {
            assert(bytes@.take(i + 1).drop_last() =~= bytes@.take(i as int));
            let m = 0x1_0000_0000_0000_0000int;
            let p = (h as int * 31) % m;
            assert(((p + b as int) % m) == ((h as int * 31 + b as int) % m)) by (nonlinear_arith)
                requires p == (h as int * 31) % m, m > 0;
        }
        h = h.wrapping_mul(31).wrapping_add(b as u64);
        i = i + 1;
    }
    proof {
        assert(bytes@.take(bytes@.len() as int) =~= bytes@);
    }
    (h % 8) as usize
}

/// The event starts on a day between `start` and `end`, both included.
pub open spec fn starts_within(event: CalendarEvent, start: Date, end: Date) -> bool {
    match event.start_time {
        Some(t) => !t.date.precedes(start) && !end.precedes(t.date),
        None => false,
    }
}

/// Whether the event starts on a day between `start` and `end`.
pub fn event_in_range(event: &CalendarEvent, start: &Date, end: &Date) -> (r: bool)
    ensures
        r == starts_within(*event, *start, *end),
{
    match &event.start_time {
        Some(t) => !t.date.is_before(start) && !end.is_before(&t.date),
        None => false,
    }
}

/// A stored ISO date-time, read first without and then with a fraction of
/// a second.
pub open spec fn iso_date_time(s: Seq<char>) -> Option<DateTime> {
    match parsed_date_time(s, "%Y-%m-%dT%H:%M:%S"@) {
        Some(t) => Some(t),
        None => parsed_date_time(s, "%Y-%m-%dT%H:%M:%S%.f"@),
    }
}

/// Reads a stored ISO date-time, first without and then with a fraction
/// of a second.
pub fn parse_iso_datetime(s: &str) -> (r: Option<DateTime>)
    ensures
        r == iso_date_time(s@),
        r matches Some(t) ==> t.is_valid(),
{
    match DateTime::parse_from_str(s, "%Y-%m-%dT%H:%M:%S") {
        Some(t) => Some(t),
        None => DateTime::parse_from_str(s, "%Y-%m-%dT%H:%M:%S%.f"),
    }
}

/// The order of start times: no start time comes first, then the
/// chronological order.
pub open spec fn start_precedes(a: Option<DateTime>, b: Option<DateTime>) -> bool {
    match (a, b) {
        (None, Some(_)) => true,
        (Some(x), Some(y)) => x.precedes(y),
        _ => false,
    }
}

/// The start order is a strict total order.
pub proof fn lemma_start_order(a: Option<DateTime>, b: Option<DateTime>, c: Option<DateTime>)
    ensures
        !start_precedes(a, a),
        start_precedes(a, b) ==> !start_precedes(b, a),
        start_precedes(a, b) && start_precedes(b, c) ==> start_precedes(a, c),
        a != b ==> start_precedes(a, b) || start_precedes(b, a),
{
}

/// Whether start time `a` comes before start time `b`.
pub fn start_is_before(a: &Option<DateTime>, b: &Option<DateTime>) -> (r: bool)
    ensures
        r == start_precedes(*a, *b),
{
    match (a, b) {
        (None, Some(_)) => true,
        (Some(x), Some(y)) => x.is_before(y),
        _ => false,
    }
}

/// No event starts before an event listed ahead of it.
pub open spec fn sorted_by_start(s: Seq<CalendarEvent>) -> bool {
    forall|i: int, j: int|
        0 <= i < j < s.len() ==> !start_precedes(#[trigger] s[j].start_time, #[trigger] s[i].start_time)
}

/// The events of `s` with start time `k`, in their order in `s`.
pub open spec fn with_start(s: Seq<CalendarEvent>, k: Option<DateTime>) -> Seq<CalendarEvent>
    decreases s.len(),
{
    if s.len() == 0 {
        Seq::empty()
    } else if s.last().start_time == k {
        with_start(s.drop_last(), k).push(s.last())
    } else {
        with_start(s.drop_last(), k)
    }
}

/// Picking the events of one start time distributes over concatenation.
pub proof fn lemma_with_start_append(a: Seq<CalendarEvent>, b: Seq<CalendarEvent>, k: Option<DateTime>)
    ensures
        with_start(a + b, k) == with_start(a, k) + with_start(b, k),
    decreases b.len(),
{
    if b.len() == 0 {
        assert(a + b =~= a);
        assert(with_start(a, k) + with_start(b, k) =~= with_start(a, k));
    } else {
        lemma_with_start_append(a, b.drop_last(), k);
        assert((a + b).drop_last() =~= a + b.drop_last());
        assert((a + b).last() == b.last());
        if b.last().start_time == k {
            assert(with_start(a, k) + with_start(b, k) =~= (with_start(a, k) + with_start(b.drop_last(), k)).push(b.last()));
        }
    }
}

/// A sequence without start time `k` has no events of it.
proof fn lemma_with_start_none(s: Seq<CalendarEvent>, k: Option<DateTime>)
    requires
        forall|i: int| 0 <= i < s.len() ==> (#[trigger] s[i]).start_time != k,
    ensures
        with_start(s, k) == Seq::<CalendarEvent>::empty(),
    decreases s.len(),
{
    if s.len() > 0 {
        lemma_with_start_none(s.drop_last(), k);
    }
}

/// A single event.
proof fn lemma_with_start_single(e: CalendarEvent, k: Option<DateTime>)
    ensures
        with_start(seq![e], k) == (if e.start_time == k { seq![e] } else { Seq::<CalendarEvent>::empty() }),
{
    reveal_with_fuel(with_start, 2);
    assert(seq![e].drop_last() =~= Seq::<CalendarEvent>::empty());
    assert(seq![e].last() == e);
    if e.start_time == k {
        assert(Seq::<CalendarEvent>::empty().push(e) =~= seq![e]);
    }
}

/// Sorts events by start time, keeping the order of events that start at
/// the same time (a stable sort): the result is ordered, and for every start
/// time it lists exactly the input's events of that start time, in input
/// order.
pub fn sort_by_start(events: Vec<CalendarEvent>) -> (r: Vec<CalendarEvent>)
    ensures
        r@.len() == events@.len(),
        sorted_by_start(r@),
        forall|k: Option<DateTime>| #[trigger] with_start(r@, k) == with_start(events@, k),
        (forall|i: int| 0 <= i < events@.len() ==> (#[trigger] events@[i]).wf()) ==> (forall|i: int|
            0 <= i < r@.len() ==> (#[trigger] r@[i]).wf()),
{
    let ghost orig = events@;
    let total = events.len();
    let mut input = events;
    let mut out: Vec<CalendarEvent> = Vec::new();
    let mut n: usize = 0;
    while input.len() > 0
        invariant
            n + input@.len() == orig.len(),
            orig.len() == total,
            input@ == orig.skip(n as int),
            out@.len() == n,
            sorted_by_start(out@),
            forall|k: Option<DateTime>| #[trigger] with_start(out@, k) == with_start(orig.take(n as int), k),
            (forall|i: int| 0 <= i < orig.len() ==> (#[trigger] orig[i]).wf()) ==> (forall|i: int|
                0 <= i < out@.len() ==> (#[trigger] out@[i]).wf()),
        decreases input@.len(),
    {
        let e = input.remove(0);
        assert(e == orig[n as int]);
        // Find the position after every event that does not start later.
        let mut pos: usize = out.len();
        while pos > 0 && start_is_before(&e.start_time, &out[pos - 1].start_time)
            invariant
                pos <= out@.len(),
                forall|j: int| pos <= j < out@.len() ==> start_precedes(e.start_time, #[trigger] out@[j].start_time),
            decreases pos,
        {
            pos = pos - 1;
        }
        let ghost before = out@;
        proof {
            assert forall|j: int| 0 <= j < pos implies !start_precedes(e.start_time, #[trigger] before[j].start_time) by {
                lemma_start_order(e.start_time, before[j].start_time, before[pos - 1].start_time);
                lemma_start_order(before[j].start_time, before[pos - 1].start_time, e.start_time);
                lemma_start_order(before[pos - 1].start_time, before[j].start_time, e.start_time);
            }
        }
        out.insert(pos, e);
        proof {
            let a = before.subrange(0, pos as int);
            let b = before.subrange(pos as int, before.len() as int);
            assert(before =~= a + b);
            assert(out@ =~= a + seq![e] + b);
            assert(orig.take(n + 1) =~= orig.take(n as int) + seq![e]);
            assert forall|k: Option<DateTime>| #[trigger] with_start(out@, k) == with_start(orig.take(n + 1), k) by {
                lemma_with_start_append(a, b, k);
                lemma_with_start_append(a + seq![e], b, k);
                lemma_with_start_append(a, seq![e], k);
                lemma_with_start_append(orig.take(n as int), seq![e], k);
                lemma_with_start_single(e, k);
                if e.start_time == k {
                    assert forall|i: int| 0 <= i < b.len() implies (#[trigger] b[i]).start_time != k by {
                        lemma_start_order(e.start_time, b[i].start_time, e.start_time);
                    }
                    lemma_with_start_none(b, k);
                    assert(with_start(b, k) + seq![e] =~= seq![e] + with_start(b, k));
                }
                assert(with_start(before, k) == with_start(orig.take(n as int), k));
            }
            assert forall|i: int, j: int|
                0 <= i < j < out@.len() implies !start_precedes(#[trigger] out@[j].start_time, #[trigger] out@[i].start_time) by {
                if j < pos {
                    assert(out@[i] == before[i] && out@[j] == before[j]);
                } else if j == pos {
                    assert(out@[i] == before[i]);
                } else if i == pos {
                    assert(out@[j] == before[j - 1]);
                    lemma_start_order(e.start_time, before[j - 1].start_time, e.start_time);
                } else if i < pos {
                    assert(out@[i] == before[i] && out@[j] == before[j - 1]);
                } else {
                    assert(out@[i] == before[i - 1] && out@[j] == before[j - 1]);
                }
            }
            if forall|i: int| 0 <= i < orig.len() ==> (#[trigger] orig[i]).wf() {
                assert forall|i: int| 0 <= i < out@.len() implies (#[trigger] out@[i]).wf() by {
                    if i < pos {
                        assert(out@[i] == before[i]);
                    } else if i > pos {
                        assert(out@[i] == before[i - 1]);
                    }
                }
            }
            assert(input@ =~= orig.skip(n + 1));
        }
        n = n + 1;
    }
    proof {
        assert(orig.take(n as int) =~= orig);
    }
    out
}


/// `r` lists the events of `s` ordered by start, keeping the order of
/// events that start at the same time (what `sort_by_start` returns).
pub open spec fn is_stable_sort_of(r: Seq<CalendarEvent>, s: Seq<CalendarEvent>) -> bool {
    &&& sorted_by_start(r)
    &&& forall|k: Option<DateTime>| #[trigger] with_start(r, k) == with_start(s, k)
}

/// The events of `s` that start between `start` and `end`, in order.
pub open spec fn keep_within(s: Seq<CalendarEvent>, start: Date, end: Date) -> Seq<CalendarEvent>
    decreases s.len(),
{
    if s.len() == 0 {
        Seq::empty()
    } else if starts_within(s.last(), start, end) {
        keep_within(s.drop_last(), start, end).push(s.last())
    } else {
        keep_within(s.drop_last(), start, end)
    }
}

/// A start time that lies between `start` and `end`.
pub open spec fn start_within(k: Option<DateTime>, start: Date, end: Date) -> bool {
    match k {
        Some(t) => !t.date.precedes(start) && !end.precedes(t.date),
        None => false,
    }
}

/// The events of one start time all have it, and come from the list.
pub proof fn lemma_with_start_members(s: Seq<CalendarEvent>, k: Option<DateTime>)
    ensures
        forall|i: int|
            0 <= i < with_start(s, k).len() ==> (#[trigger] with_start(s, k)[i]).start_time == k
                && s.contains(with_start(s, k)[i]),
    decreases s.len(),
{
    if s.len() > 0 {
        lemma_with_start_members(s.drop_last(), k);
        let p = with_start(s.drop_last(), k);
        assert forall|i: int| 0 <= i < with_start(s, k).len() implies (#[trigger] with_start(s, k)[i]).start_time == k
            && s.contains(with_start(s, k)[i]) by {
            if i < p.len() {
                assert(with_start(s, k)[i] == p[i]);
                let j = choose|j: int| 0 <= j < s.drop_last().len() && s.drop_last()[j] == p[i];
                assert(s[j] == p[i]);
            } else {
                assert(s[s.len() - 1] == s.last());
            }
        }
    }
}

/// Every event of a list is among the events of its start time.
pub proof fn lemma_with_start_has(s: Seq<CalendarEvent>, i: int)
    requires
        0 <= i < s.len(),
    ensures
        with_start(s, s[i].start_time).len() > 0,
    decreases s.len(),
{
    if i < s.len() - 1 {
        lemma_with_start_has(s.drop_last(), i);
        assert(s.drop_last()[i] == s[i]);
    }
}

/// A list ordered by start stays ordered without its last event.
pub proof fn lemma_sorted_drop_last(s: Seq<CalendarEvent>)
    requires
        sorted_by_start(s),
        s.len() > 0,
    ensures
        sorted_by_start(s.drop_last()),
{
    assert forall|i: int, j: int| 0 <= i < j < s.drop_last().len() implies !start_precedes(
        #[trigger] s.drop_last()[j].start_time,
        #[trigger] s.drop_last()[i].start_time,
    ) by {
        assert(s.drop_last()[i] == s[i] && s.drop_last()[j] == s[j]);
    }
}

/// Ordering by start with ties kept in list order has one result: two
/// ordered lists with the same events of every start time are equal.
pub proof fn lemma_stable_sort_unique(r1: Seq<CalendarEvent>, r2: Seq<CalendarEvent>)
    requires
        sorted_by_start(r1),
        sorted_by_start(r2),
        forall|k: Option<DateTime>| #[trigger] with_start(r1, k) == with_start(r2, k),
    ensures
        r1 == r2,
    decreases r1.len() + r2.len(),
{
    if r1.len() == 0 && r2.len() == 0 {
        assert(r1 =~= r2);
    } else if r1.len() == 0 {
        lemma_with_start_has(r2, 0);
        assert(with_start(r1, r2[0].start_time).len() == 0);
    } else if r2.len() == 0 {
        lemma_with_start_has(r1, 0);
        assert(with_start(r2, r1[0].start_time).len() == 0);
    } else {
        let x = r1.last();
        let y = r2.last();
        let k1 = x.start_time;
        let k2 = y.start_time;
        if k1 != k2 {
            lemma_start_order(k1, k2, k1);
            if start_precedes(k1, k2) {
                // `y` has start k2, so some event of r1 starts at k2 after r1's last start.
                lemma_with_start_has(r2, r2.len() - 1);
                lemma_with_start_members(r1, k2);
                let w = with_start(r1, k2);
                assert(w == with_start(r2, k2));
                assert(w[0].start_time == k2);
                let i = choose|i: int| 0 <= i < r1.len() && r1[i] == w[0];
                if i < r1.len() - 1 {
                    assert(!start_precedes(r1[r1.len() - 1].start_time, r1[i].start_time));
                }
                assert(false);
            } else {
                lemma_with_start_has(r1, r1.len() - 1);
                lemma_with_start_members(r2, k1);
                let w = with_start(r2, k1);
                assert(w == with_start(r1, k1));
                assert(w[0].start_time == k1);
                let i = choose|i: int| 0 <= i < r2.len() && r2[i] == w[0];
                if i < r2.len() - 1 {
                    assert(!start_precedes(r2[r2.len() - 1].start_time, r2[i].start_time));
                }
                assert(false);
            }
        } else {
            assert(with_start(r1, k1) == with_start(r1.drop_last(), k1).push(x));
            assert(with_start(r2, k1) == with_start(r2.drop_last(), k1).push(y));
            assert(x == with_start(r1, k1).last());
            assert(y == with_start(r2, k1).last());
            assert(with_start(r1.drop_last(), k1) =~= with_start(r1, k1).drop_last());
            assert(with_start(r2.drop_last(), k1) =~= with_start(r2, k1).drop_last());
            assert forall|k: Option<DateTime>| #[trigger] with_start(r1.drop_last(), k) == with_start(r2.drop_last(), k) by {
                if k != k1 {
                    assert(with_start(r1, k) == with_start(r1.drop_last(), k));
                    assert(with_start(r2, k) == with_start(r2.drop_last(), k));
                }
            }
            lemma_sorted_drop_last(r1);
            lemma_sorted_drop_last(r2);
            lemma_stable_sort_unique(r1.drop_last(), r2.drop_last());
            assert(r1 =~= r1.drop_last().push(x));
            assert(r2 =~= r2.drop_last().push(y));
        }
    }
}

/// Keeping the events in a range keeps, for each start time, all or none.
pub proof fn lemma_with_start_keep_within(s: Seq<CalendarEvent>, start: Date, end: Date, k: Option<DateTime>)
    ensures
        with_start(keep_within(s, start, end), k) == (if start_within(k, start, end) {
            with_start(s, k)
        } else {
            Seq::<CalendarEvent>::empty()
        }),
    decreases s.len(),
{
    if s.len() > 0 {
        lemma_with_start_keep_within(s.drop_last(), start, end, k);
        let p = keep_within(s.drop_last(), start, end);
        if starts_within(s.last(), start, end) {
            assert(keep_within(s, start, end).drop_last() =~= p);
            assert(keep_within(s, start, end).last() == s.last());
        }
    }
}

/// The events kept in a range come from the list.
proof fn lemma_keep_within_members(s: Seq<CalendarEvent>, start: Date, end: Date)
    ensures
        forall|i: int|
            0 <= i < keep_within(s, start, end).len() ==> s.contains(#[trigger] keep_within(s, start, end)[i]),
    decreases s.len(),
{
    if s.len() > 0 {
        lemma_keep_within_members(s.drop_last(), start, end);
        let p = keep_within(s.drop_last(), start, end);
        assert forall|i: int| 0 <= i < keep_within(s, start, end).len() implies s.contains(
            #[trigger] keep_within(s, start, end)[i],
        ) by {
            if i < p.len() {
                assert(keep_within(s, start, end)[i] == p[i]);
                let j = choose|j: int| 0 <= j < s.drop_last().len() && s.drop_last()[j] == p[i];
                assert(s[j] == p[i]);
            } else {
                assert(s[s.len() - 1] == s.last());
            }
        }
    }
}

/// Keeping the events in a range keeps the order by start.
pub proof fn lemma_keep_within_sorted(s: Seq<CalendarEvent>, start: Date, end: Date)
    requires
        sorted_by_start(s),
    ensures
        sorted_by_start(keep_within(s, start, end)),
    decreases s.len(),
{
    if s.len() > 0 {
        lemma_sorted_drop_last(s);
        lemma_keep_within_sorted(s.drop_last(), start, end);
        lemma_keep_within_members(s.drop_last(), start, end);
        let p = keep_within(s.drop_last(), start, end);
        let q = keep_within(s, start, end);
        if starts_within(s.last(), start, end) {
            assert forall|i: int, j: int| 0 <= i < j < q.len() implies !start_precedes(
                #[trigger] q[j].start_time,
                #[trigger] q[i].start_time,
            ) by {
                if j < p.len() {
                    assert(q[i] == p[i] && q[j] == p[j]);
                } else {
                    assert(q[i] == p[i]);
                    let m = choose|m: int| 0 <= m < s.drop_last().len() && s.drop_last()[m] == p[i];
                    assert(s[m] == p[i]);
                    assert(q[j] == s[s.len() - 1]);
                }
            }
        }
    }
}

/// Narrowing the range of days only filters the listing: ordering the
/// events kept in a range gives the ordered list of all events with the
/// others left out, in the same order.
pub proof fn law_range_narrowing(
    all: Seq<CalendarEvent>,
    ordered: Seq<CalendarEvent>,
    ordered_kept: Seq<CalendarEvent>,
    start: Date,
    end: Date,
)
    requires
        is_stable_sort_of(ordered, all),
        is_stable_sort_of(ordered_kept, keep_within(all, start, end)),
    ensures
        ordered_kept == keep_within(ordered, start, end),
{
    lemma_keep_within_sorted(ordered, start, end);
    assert forall|k: Option<DateTime>| #[trigger] with_start(keep_within(ordered, start, end), k) == with_start(
        ordered_kept,
        k,
    ) by {
        lemma_with_start_keep_within(ordered, start, end, k);
        lemma_with_start_keep_within(all, start, end, k);
        assert(with_start(ordered, k) == with_start(all, k));
    }
    lemma_stable_sort_unique(keep_within(ordered, start, end), ordered_kept);
}

} // verus!
