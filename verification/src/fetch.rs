//! Gathering the events of a range of days from everything the applet has
//! read: the rows and stored occurrences of each calendar cache, and the
//! calendar files, in the order they were found; then ordering them by
//! start.
use vstd::prelude::*;
use crate::date::{Date, DateTime};
use crate::event::{
    CalendarEvent, FILE_EVENT_COLOR, PALETTE_LEN, hash_to_color, name_hash, start_within, keep_within,
    with_start, sorted_by_start, is_stable_sort_of, sort_by_start, lemma_with_start_members,
    lemma_with_start_has, lemma_sorted_drop_last, lemma_with_start_keep_within, lemma_keep_within_sorted,
    iso_date_time,
};
use crate::collect::{
    read_fields, range_inside, classify_cache_row, occurrence_event, ics_file_event, CacheRow,
    lemma_start_within_inside,
};
use crate::ics::ics_faults;

verus! {

/// A stored occurrence of a cache: the summary of its row and its stored
/// start and end texts.
pub struct StoredOccurrence {
    pub summary: String,
    pub start_text: Option<String>,
    pub end_text: Option<String>,
}

/// A row of a calendar cache: its object (an iCalendar text) and summary.
pub struct CacheRecord {
    pub object: String,
    pub summary: String,
}

/// What was read from one place.
pub enum Source {
    /// A calendar cache: the name of the calendar (which picks its
    /// colour), its rows, and the stored occurrences of all its rows.
    Cache { name: String, rows: Vec<CacheRecord>, occurrences: Vec<StoredOccurrence> },
    /// The text of a calendar file.
    File(String),
}

/// What an event holds, as plain values: summary, location, start, end,
/// whether it lasts all day, and colour.
pub type Fields = (Seq<char>, Seq<char>, Option<DateTime>, Option<DateTime>, bool, usize);

/// The fields of an event.
pub open spec fn fields(e: CalendarEvent) -> Fields {
    (e.summary@, e.location@, e.start_time, e.end_time, e.all_day, e.color)
}

/// The fields of each event of a list, in order.
pub open spec fn views(s: Seq<CalendarEvent>) -> Seq<Fields> {
    s.map_values(|e: CalendarEvent| fields(e))
}

/// The entries of `s` whose start lies between `start` and `end`, in order.
pub open spec fn keep_fields(s: Seq<Fields>, start: Date, end: Date) -> Seq<Fields>
    decreases s.len(),
{
    if s.len() == 0 {
        Seq::empty()
    } else if start_within(s.last().2, start, end) {
        keep_fields(s.drop_last(), start, end).push(s.last())
    } else {
        keep_fields(s.drop_last(), start, end)
    }
}

/// A stored text read as an ISO date-time.
pub open spec fn text_time(t: Option<String>) -> Option<DateTime> {
    match t {
        Some(s) => iso_date_time(s@),
        None => None,
    }
}

/// The colour of the calendar named `name`.
pub open spec fn calendar_color(name: Seq<char>) -> usize {
    (name_hash(vstd::utf8::encode_utf8(name)) % (PALETTE_LEN as u64)) as usize
}

/// The event a stored occurrence gives a row with summary `summary`: one
/// when it belongs to that summary and starts in the range.
pub open spec fn occurrence_fields(o: StoredOccurrence, summary: Seq<char>, color: usize, start: Date, end: Date) -> Seq<Fields> {
    if o.summary@ == summary && start_within(text_time(o.start_text), start, end) {
        seq![(summary, Seq::empty(), text_time(o.start_text), text_time(o.end_text), false, color)]
    } else {
        Seq::empty()
    }
}

/// The events the stored occurrences `occ` give a row with summary `summary`.
pub open spec fn occurrences_fields(occ: Seq<StoredOccurrence>, summary: Seq<char>, color: usize, start: Date, end: Date) -> Seq<Fields>
    decreases occ.len(),
{
    if occ.len() == 0 {
        Seq::empty()
    } else {
        occurrences_fields(occ.drop_last(), summary, color, start, end) + occurrence_fields(occ.last(), summary, color, start, end)
    }
}

/// The events a cache row gives: its own event when its object holds one
/// starting in the range, else, when it has a summary, the stored
/// occurrences of that summary.
pub open spec fn row_fields(r: CacheRecord, occ: Seq<StoredOccurrence>, color: usize, start: Date, end: Date) -> Seq<Fields> {
    match read_fields(r.object@) {
        Some(f) => if start_within(f.start, start, end) {
            seq![(
                if f.summary.len() == 0 && r.summary@.len() > 0 { r.summary@ } else { f.summary },
                f.location,
                f.start,
                f.end,
                f.all_day,
                color,
            )]
        } else {
            Seq::empty()
        },
        None => if r.summary@.len() > 0 {
            occurrences_fields(occ, r.summary@, color, start, end)
        } else {
            Seq::empty()
        },
    }
}

/// The events of the rows of a cache, row by row.
pub open spec fn rows_fields(rows: Seq<CacheRecord>, occ: Seq<StoredOccurrence>, color: usize, start: Date, end: Date) -> Seq<Fields>
    decreases rows.len(),
{
    if rows.len() == 0 {
        Seq::empty()
    } else {
        rows_fields(rows.drop_last(), occ, color, start, end) + row_fields(rows.last(), occ, color, start, end)
    }
}

/// The event of a calendar file, when it has one starting in the range.
pub open spec fn file_fields(content: Seq<char>, start: Date, end: Date) -> Seq<Fields> {
    match read_fields(content) {
        Some(f) => if start_within(f.start, start, end) {
            seq![(f.summary, f.location, f.start, f.end, f.all_day, FILE_EVENT_COLOR)]
        } else {
            Seq::empty()
        },
        None => Seq::empty(),
    }
}

/// The events one source gives.
pub open spec fn source_fields(s: Source, start: Date, end: Date) -> Seq<Fields> {
    match s {
        Source::Cache { name, rows, occurrences } => rows_fields(
            rows@,
            occurrences@,
            calendar_color(name@),
            start,
            end,
        ),
        Source::File(content) => file_fields(content@, start, end),
    }
}

/// The events of all sources, source by source, before ordering.
pub open spec fn sources_fields(s: Seq<Source>, start: Date, end: Date) -> Seq<Fields>
    decreases s.len(),
{
    if s.len() == 0 {
        Seq::empty()
    } else {
        sources_fields(s.drop_last(), start, end) + source_fields(s.last(), start, end)
    }
}

/// No text of the sources has a date-time value cut inside a character.
pub open spec fn sources_readable(s: Seq<Source>) -> bool {
    forall|i: int| 0 <= i < s.len() ==> match #[trigger] s[i] {
        Source::Cache { rows, .. } => forall|j: int| 0 <= j < rows@.len() ==> !ics_faults(#[trigger] rows@[j].object@),
        Source::File(content) => !ics_faults(content@),
    }
}

/// `r` is the listing of the sources: their events ordered by start, with
/// events of the same start in the order the sources gave them.
pub open spec fn is_listing_of(r: Seq<CalendarEvent>, s: Seq<Source>, start: Date, end: Date) -> bool {
    exists|u: Seq<CalendarEvent>| views(u) == sources_fields(s, start, end) && is_stable_sort_of(r, u)
}

/// Keeping the entries in a range distributes over concatenation.
proof fn lemma_keep_fields_append(a: Seq<Fields>, b: Seq<Fields>, start: Date, end: Date)
    ensures
        keep_fields(a + b, start, end) == keep_fields(a, start, end) + keep_fields(b, start, end),
    decreases b.len(),
{
    if b.len() == 0 {
        assert(a + b =~= a);
        assert(keep_fields(a, start, end) + keep_fields(b, start, end) =~= keep_fields(a, start, end));
    } else {
        lemma_keep_fields_append(a, b.drop_last(), start, end);
        assert((a + b).drop_last() =~= a + b.drop_last());
        assert((a + b).last() == b.last());
        if start_within(b.last().2, start, end) {
            assert(keep_fields(a, start, end) + keep_fields(b, start, end) =~= (keep_fields(a, start, end)
                + keep_fields(b.drop_last(), start, end)).push(b.last()));
        }
    }
}

/// An entry that starts in the narrower range is kept; the others go.
proof fn lemma_keep_fields_single(x: Fields, start: Date, end: Date)
    ensures
        keep_fields(seq![x], start, end) == (if start_within(x.2, start, end) { seq![x] } else { Seq::<Fields>::empty() }),
{
    reveal_with_fuel(keep_fields, 2);
    assert(seq![x].drop_last() =~= Seq::<Fields>::empty());
    assert(seq![x].last() == x);
    if start_within(x.2, start, end) {
        assert(Seq::<Fields>::empty().push(x) =~= seq![x]);
    }
}

/// An entry listed when it starts in the range: on a narrower range it is
/// the wider range's listing of it, kept when it starts there.
proof fn lemma_narrow_one(x: Fields, start: Date, end: Date, start2: Date, end2: Date)
    requires
        range_inside(start, end, start2, end2),
    ensures
        keep_fields(if start_within(x.2, start2, end2) { seq![x] } else { Seq::<Fields>::empty() }, start, end)
            == (if start_within(x.2, start, end) { seq![x] } else { Seq::<Fields>::empty() }),
{
    lemma_keep_fields_single(x, start, end);
    if start_within(x.2, start, end) {
        lemma_start_within_inside(x.2, start, end, start2, end2);
    }
    assert(keep_fields(Seq::<Fields>::empty(), start, end) == Seq::<Fields>::empty());
}

/// On a narrower range the stored occurrences give the wider range's
/// events that start there.
proof fn lemma_narrow_occurrences(
    occ: Seq<StoredOccurrence>, summary: Seq<char>, color: usize,
    start: Date, end: Date, start2: Date, end2: Date,
)
    requires
        range_inside(start, end, start2, end2),
    ensures
        occurrences_fields(occ, summary, color, start, end)
            == keep_fields(occurrences_fields(occ, summary, color, start2, end2), start, end),
    decreases occ.len(),
{
    if occ.len() == 0 {
        assert(keep_fields(Seq::<Fields>::empty(), start, end) == Seq::<Fields>::empty());
    } else {
        lemma_narrow_occurrences(occ.drop_last(), summary, color, start, end, start2, end2);
        let o = occ.last();
        lemma_keep_fields_append(
            occurrences_fields(occ.drop_last(), summary, color, start2, end2),
            occurrence_fields(o, summary, color, start2, end2),
            start, end,
        );
        let x = (summary, Seq::<char>::empty(), text_time(o.start_text), text_time(o.end_text), false, color);
        lemma_narrow_one(x, start, end, start2, end2);
        if o.summary@ != summary {
            assert(keep_fields(Seq::<Fields>::empty(), start, end) == Seq::<Fields>::empty());
        }
    }
}

/// On a narrower range the rows of a cache give the wider range's events
/// that start there.
proof fn lemma_narrow_rows(
    rows: Seq<CacheRecord>, occ: Seq<StoredOccurrence>, color: usize,
    start: Date, end: Date, start2: Date, end2: Date,
)
    requires
        range_inside(start, end, start2, end2),
    ensures
        rows_fields(rows, occ, color, start, end) == keep_fields(rows_fields(rows, occ, color, start2, end2), start, end),
    decreases rows.len(),
{
    if rows.len() == 0 {
        assert(keep_fields(Seq::<Fields>::empty(), start, end) == Seq::<Fields>::empty());
    } else {
        lemma_narrow_rows(rows.drop_last(), occ, color, start, end, start2, end2);
        let r = rows.last();
        lemma_keep_fields_append(
            rows_fields(rows.drop_last(), occ, color, start2, end2),
            row_fields(r, occ, color, start2, end2),
            start, end,
        );
        match read_fields(r.object@) {
            Some(f) => {
                let x = (
                    if f.summary.len() == 0 && r.summary@.len() > 0 { r.summary@ } else { f.summary },
                    f.location, f.start, f.end, f.all_day, color,
                );
                lemma_narrow_one(x, start, end, start2, end2);
            },
            None => {
                lemma_narrow_occurrences(occ, r.summary@, color, start, end, start2, end2);
                assert(keep_fields(Seq::<Fields>::empty(), start, end) == Seq::<Fields>::empty());
            },
        }
    }
}

/// Gathering the sources on a narrower range of days gives the wider
/// range's events that start in the narrower range, in the same order.
pub proof fn lemma_narrow_sources(s: Seq<Source>, start: Date, end: Date, start2: Date, end2: Date)
    requires
        range_inside(start, end, start2, end2),
    ensures
        sources_fields(s, start, end) == keep_fields(sources_fields(s, start2, end2), start, end),
    decreases s.len(),
{
    if s.len() == 0 {
        assert(keep_fields(Seq::<Fields>::empty(), start, end) == Seq::<Fields>::empty());
    } else {
        lemma_narrow_sources(s.drop_last(), start, end, start2, end2);
        lemma_keep_fields_append(sources_fields(s.drop_last(), start2, end2), source_fields(s.last(), start2, end2), start, end);
        match s.last() {
            Source::Cache { name, rows, occurrences } => {
                lemma_narrow_rows(rows@, occurrences@, calendar_color(name@), start, end, start2, end2);
            },
            Source::File(content) => {
                match read_fields(content@) {
                    Some(f) => {
                        lemma_narrow_one((f.summary, f.location, f.start, f.end, f.all_day, FILE_EVENT_COLOR), start, end, start2, end2);
                    },
                    None => {
                        assert(keep_fields(Seq::<Fields>::empty(), start, end) == Seq::<Fields>::empty());
                    },
                }
            },
        }
    }
}


/// Adds to `out` the events that the stored occurrences `occ` give a row
/// with summary `summary`.
fn push_occurrences(
    out: &mut Vec<CalendarEvent>,
    occ: &Vec<StoredOccurrence>,
    summary: &String,
    color: usize,
    start: &Date,
    end: &Date,
)
    requires
        color < PALETTE_LEN,
    ensures
        views(final(out)@) == views(old(out)@) + occurrences_fields(occ@, summary@, color, *start, *end),
{
    let ghost before = views(out@);
    proof {
        assert(occ@.take(0) =~= Seq::<StoredOccurrence>::empty());
        assert(before + Seq::<Fields>::empty() =~= before);
    }
    let mut i: usize = 0;
    while i < occ.len()
        invariant
            i <= occ@.len(),
            color < PALETTE_LEN,
            views(out@) == before + occurrences_fields(occ@.take(i as int), summary@, color, *start, *end),
        decreases occ@.len() - i,
    {
        let o = &occ[i];
        let ghost done = occurrences_fields(occ@.take(i as int), summary@, color, *start, *end);
        proof {
            assert(occ@.take(i + 1).drop_last() =~= occ@.take(i as int));
            assert(occ@.take(i + 1).last() == occ@[i as int]);
        }
        let ghost step = occurrence_fields(*o, summary@, color, *start, *end);
        if o.summary == *summary {
            let st = match &o.start_text {
                Some(t) => Some(t.as_str()),
                None => None,
            };
            let et = match &o.end_text {
                Some(t) => Some(t.as_str()),
                None => None,
            };
            match occurrence_event(summary, st, et, color, start, end) {
                Some(e) => {
                    let ghost v = views(out@);
                    proof {
                        assert(e.location@ =~= Seq::<char>::empty());
                        assert(fields(e) == (summary@, Seq::<char>::empty(), text_time(o.start_text), text_time(o.end_text), false, color));
                        assert(step == seq![fields(e)]);
                    }
                    out.push(e);
                    proof {
                        assert(views(out@) =~= v.push(fields(e)));
                        assert(before + done + step =~= before + (done + step));
                        assert(v.push(fields(e)) =~= v + step);
                    }
                },
                None => {
                    proof {
                        assert(step == Seq::<Fields>::empty());
                        assert(done + step =~= done);
                    }
                },
            }
        } else {
            proof {
                assert(done + step =~= done);
            }
        }
        i = i + 1;
    }
    proof {
        assert(occ@.take(occ@.len() as int) =~= occ@);
    }
}

/// Adds to `out` the events a cache row gives.
fn push_row(
    out: &mut Vec<CalendarEvent>,
    row: &CacheRecord,
    occ: &Vec<StoredOccurrence>,
    color: usize,
    start: &Date,
    end: &Date,
)
    requires
        !ics_faults(row.object@),
        color < PALETTE_LEN,
    ensures
        views(final(out)@) == views(old(out)@) + row_fields(*row, occ@, color, *start, *end),
{
    let ghost v = views(out@);
    let ghost step = row_fields(*row, occ@, color, *start, *end);
    match classify_cache_row(row.object.as_str(), &row.summary, color, start, end) {
        CacheRow::Keep(e) => {
            proof {
                assert(step == seq![fields(e)]);
            }
            out.push(e);
            proof {
                assert(views(out@) =~= v.push(fields(e)));
                assert(v.push(fields(e)) =~= v + step);
            }
        },
        CacheRow::Skip => {
            proof {
                assert(step == Seq::<Fields>::empty());
                assert(v + step =~= v);
            }
        },
        CacheRow::LookUpOccurrences => {
            push_occurrences(out, occ, &row.summary, color, start, end);
        },
    }
}

/// Adds to `out` the event of a calendar file, when it has one starting
/// in the range.
fn push_file(out: &mut Vec<CalendarEvent>, content: &String, start: &Date, end: &Date)
    requires
        !ics_faults(content@),
    ensures
        views(final(out)@) == views(old(out)@) + file_fields(content@, *start, *end),
{
    let ghost v = views(out@);
    let ghost step = file_fields(content@, *start, *end);
    match ics_file_event(content.as_str(), start, end) {
        Some(e) => {
            proof {
                assert(step == seq![fields(e)]);
            }
            out.push(e);
            proof {
                assert(views(out@) =~= v.push(fields(e)));
                assert(v.push(fields(e)) =~= v + step);
            }
        },
        None => {
            proof {
                assert(step == Seq::<Fields>::empty());
                assert(v + step =~= v);
            }
        },
    }
}

/// Adds to `out` the events of the rows of a cache of colour `color`.
fn push_rows(
    out: &mut Vec<CalendarEvent>,
    rows: &Vec<CacheRecord>,
    occ: &Vec<StoredOccurrence>,
    color: usize,
    start: &Date,
    end: &Date,
)
    requires
        forall|j: int| 0 <= j < rows@.len() ==> !ics_faults(#[trigger] rows@[j].object@),
        color < PALETTE_LEN,
    ensures
        views(final(out)@) == views(old(out)@) + rows_fields(rows@, occ@, color, *start, *end),
{
    let ghost before = views(out@);
    proof {
        assert(rows@.take(0) =~= Seq::<CacheRecord>::empty());
        assert(before + Seq::<Fields>::empty() =~= before);
    }
    let mut j: usize = 0;
    while j < rows.len()
        invariant
            j <= rows@.len(),
            color < PALETTE_LEN,
            forall|j: int| 0 <= j < rows@.len() ==> !ics_faults(#[trigger] rows@[j].object@),
            views(out@) == before + rows_fields(rows@.take(j as int), occ@, color, *start, *end),
        decreases rows@.len() - j,
    {
        let ghost done = rows_fields(rows@.take(j as int), occ@, color, *start, *end);
        proof {
            assert(rows@.take(j + 1).drop_last() =~= rows@.take(j as int));
            assert(rows@.take(j + 1).last() == rows@[j as int]);
        }
        push_row(out, &rows[j], occ, color, start, end);
        proof {
            assert(before + done + row_fields(rows@[j as int], occ@, color, *start, *end) =~= before + (done
                + row_fields(rows@[j as int], occ@, color, *start, *end)));
        }
        j = j + 1;
    }
    proof {
        assert(rows@.take(rows@.len() as int) =~= rows@);
    }
}

/// The events of all sources that start between `start` and `end`,
/// source by source, in the order the sources list them.
pub fn collect_events(sources: &Vec<Source>, start: &Date, end: &Date) -> (r: Vec<CalendarEvent>)
    requires
        sources_readable(sources@),
    ensures
        views(r@) == sources_fields(sources@, *start, *end),
{
    let mut out: Vec<CalendarEvent> = Vec::new();
    proof {
        assert(sources@.take(0) =~= Seq::<Source>::empty());
        assert(views(out@) =~= Seq::<Fields>::empty());
    }
    let mut i: usize = 0;
    while i < sources.len()
        invariant
            i <= sources@.len(),
            sources_readable(sources@),
            views(out@) == sources_fields(sources@.take(i as int), *start, *end),
        decreases sources@.len() - i,
    {
        proof {
            assert(sources@.take(i + 1).drop_last() =~= sources@.take(i as int));
            assert(sources@.take(i + 1).last() == sources@[i as int]);
        }
        match &sources[i] {
            Source::Cache { name, rows, occurrences } => {
                let color = hash_to_color(name.as_str());
                push_rows(&mut out, rows, occurrences, color, start, end);
            },
            Source::File(content) => {
                push_file(&mut out, content, start, end);
            },
        }
        i = i + 1;
    }
    proof {
        assert(sources@.take(sources@.len() as int) =~= sources@);
    }
    out
}

/// The listing of the sources on the days from `start` to `end`: their
/// events that start in the range, ordered by start, with events of the
/// same start in the order the sources gave them.
pub fn list_events(sources: &Vec<Source>, start: &Date, end: &Date) -> (r: Vec<CalendarEvent>)
    requires
        sources_readable(sources@),
    ensures
        is_listing_of(r@, sources@, *start, *end),
{
    let all = collect_events(sources, start, end);
    let ghost u = all@;
    let r = sort_by_start(all);
    proof {
        assert(views(u) == sources_fields(sources@, *start, *end) && is_stable_sort_of(r@, u));
    }
    r
}


/// Lists with the same fields keep the same fields when the events of one
/// start time are picked.
proof fn lemma_views_with_start(a: Seq<CalendarEvent>, b: Seq<CalendarEvent>, k: Option<DateTime>)
    requires
        views(a) == views(b),
    ensures
        views(with_start(a, k)) == views(with_start(b, k)),
    decreases a.len(),
{
    assert(a.len() == views(a).len() && b.len() == views(b).len());
    if a.len() > 0 {
        assert(views(a.drop_last()) =~= views(a).drop_last());
        assert(views(b.drop_last()) =~= views(b).drop_last());
        lemma_views_with_start(a.drop_last(), b.drop_last(), k);
        assert(views(a)[a.len() - 1] == views(b)[b.len() - 1]);
        assert(fields(a.last()) == fields(b.last()));
        if a.last().start_time == k {
            assert(views(with_start(a, k)) =~= views(with_start(a.drop_last(), k)).push(fields(a.last())));
            assert(views(with_start(b, k)) =~= views(with_start(b.drop_last(), k)).push(fields(b.last())));
        }
    }
}

/// The fields of the events kept in a range are the entries kept in it.
proof fn lemma_views_keep_within(s: Seq<CalendarEvent>, start: Date, end: Date)
    ensures
        views(keep_within(s, start, end)) == keep_fields(views(s), start, end),
    decreases s.len(),
{
    if s.len() > 0 {
        lemma_views_keep_within(s.drop_last(), start, end);
        assert(views(s.drop_last()) =~= views(s).drop_last());
        assert(views(s).last() == fields(s.last()));
        if start_within(s.last().start_time, start, end) {
            assert(views(keep_within(s, start, end)) =~= views(keep_within(s.drop_last(), start, end)).push(
                fields(s.last()),
            ));
        }
    }
}

/// Two lists ordered by start, with the same fields among the events of
/// every start time, have the same fields.
proof fn lemma_stable_sort_views(r1: Seq<CalendarEvent>, r2: Seq<CalendarEvent>)
    requires
        sorted_by_start(r1),
        sorted_by_start(r2),
        forall|k: Option<DateTime>| #[trigger] views(with_start(r1, k)) == views(with_start(r2, k)),
    ensures
        views(r1) == views(r2),
    decreases r1.len() + r2.len(),
{
    if r1.len() == 0 && r2.len() == 0 {
        assert(views(r1) =~= views(r2));
    } else if r1.len() == 0 {
        lemma_with_start_has(r2, 0);
        assert(views(with_start(r1, r2[0].start_time)) == views(with_start(r2, r2[0].start_time)));
        assert(with_start(r1, r2[0].start_time).len() == 0);
    } else if r2.len() == 0 {
        lemma_with_start_has(r1, 0);
        assert(views(with_start(r1, r1[0].start_time)) == views(with_start(r2, r1[0].start_time)));
        assert(with_start(r2, r1[0].start_time).len() == 0);
    } else {
        let x = r1.last();
        let y = r2.last();
        let k1 = x.start_time;
        let k2 = y.start_time;
        if k1 != k2 {
            crate::event::lemma_start_order(k1, k2, k1);
            if crate::event::start_precedes(k1, k2) {
                lemma_with_start_has(r2, r2.len() - 1);
                lemma_with_start_members(r1, k2);
                let w = with_start(r1, k2);
                assert(views(w) == views(with_start(r2, k2)));
                assert(w.len() == views(w).len());
                assert(w[0].start_time == k2);
                let i = choose|i: int| 0 <= i < r1.len() && r1[i] == w[0];
                if i < r1.len() - 1 {
                    assert(!crate::event::start_precedes(r1[r1.len() - 1].start_time, r1[i].start_time));
                }
                assert(false);
            } else {
                lemma_with_start_has(r1, r1.len() - 1);
                lemma_with_start_members(r2, k1);
                let w = with_start(r2, k1);
                assert(views(w) == views(with_start(r1, k1)));
                assert(w.len() == views(w).len());
                assert(w[0].start_time == k1);
                let i = choose|i: int| 0 <= i < r2.len() && r2[i] == w[0];
                if i < r2.len() - 1 {
                    assert(!crate::event::start_precedes(r2[r2.len() - 1].start_time, r2[i].start_time));
                }
                assert(false);
            }
        } else {
            let p1 = with_start(r1.drop_last(), k1);
            let p2 = with_start(r2.drop_last(), k1);
            assert(with_start(r1, k1) == p1.push(x));
            assert(with_start(r2, k1) == p2.push(y));
            assert(views(p1.push(x)) =~= views(p1).push(fields(x)));
            assert(views(p2.push(y)) =~= views(p2).push(fields(y)));
            assert(views(with_start(r1, k1)) == views(with_start(r2, k1)));
            assert(views(p1) =~= views(p1.push(x)).drop_last());
            assert(views(p2) =~= views(p2.push(y)).drop_last());
            assert(fields(x) == views(p1.push(x)).last());
            assert(fields(y) == views(p2.push(y)).last());
            assert forall|k: Option<DateTime>| #[trigger] views(with_start(r1.drop_last(), k)) == views(
                with_start(r2.drop_last(), k),
            ) by {
                if k != k1 {
                    assert(with_start(r1, k) == with_start(r1.drop_last(), k));
                    assert(with_start(r2, k) == with_start(r2.drop_last(), k));
                }
            }
            lemma_sorted_drop_last(r1);
            lemma_sorted_drop_last(r2);
            lemma_stable_sort_views(r1.drop_last(), r2.drop_last());
            assert(views(r1) =~= views(r1.drop_last()).push(fields(x)));
            assert(views(r2) =~= views(r2.drop_last()).push(fields(y)));
        }
    }
}

/// Narrowing the range of days only filters the listing: the listing of
/// the same sources on a narrower range holds, in the same order, the
/// events of the wider range's listing that start in the narrower range,
/// field for field.
pub proof fn law_listing_narrowing(
    sources: Seq<Source>,
    start: Date,
    end: Date,
    start2: Date,
    end2: Date,
    narrow: Seq<CalendarEvent>,
    wide: Seq<CalendarEvent>,
)
    requires
        range_inside(start, end, start2, end2),
        is_listing_of(narrow, sources, start, end),
        is_listing_of(wide, sources, start2, end2),
    ensures
        views(narrow) == views(keep_within(wide, start, end)),
{
    let un = choose|u: Seq<CalendarEvent>| views(u) == sources_fields(sources, start, end) && is_stable_sort_of(narrow, u);
    let uw = choose|u: Seq<CalendarEvent>| views(u) == sources_fields(sources, start2, end2) && is_stable_sort_of(wide, u);
    let kw = keep_within(uw, start, end);
    let kept = keep_within(wide, start, end);
    lemma_narrow_sources(sources, start, end, start2, end2);
    lemma_views_keep_within(uw, start, end);
    // The narrower listing's events have the fields of the wider ones kept.
    assert(views(un) == views(kw));
    // The wider listing with the others left out orders the kept events.
    lemma_keep_within_sorted(wide, start, end);
    assert forall|k: Option<DateTime>| #[trigger] views(with_start(narrow, k)) == views(with_start(kept, k)) by {
        lemma_with_start_keep_within(wide, start, end, k);
        lemma_with_start_keep_within(uw, start, end, k);
        assert(with_start(wide, k) == with_start(uw, k));
        assert(with_start(narrow, k) == with_start(un, k));
        lemma_views_with_start(un, kw, k);
        assert(views(Seq::<CalendarEvent>::empty()) =~= Seq::<Fields>::empty());
    }
    lemma_stable_sort_views(narrow, kept);
}

} // verus!
