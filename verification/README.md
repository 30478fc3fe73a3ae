# calenderdot

The calendar logic of a COSMIC panel applet (month grid, agenda, iCalendar
reading), written in Verus and verified.

- `src/date.rs` — dates and date-times as plain numbers, the Gregorian day
  count they are specified by, and the calls into `chrono`.
- `src/grid.rs` — the first visible day of a month, the six-week grid and
  its column letters.
- `src/ics.rs` — the first event of an iCalendar text, read on characters
  and, for date-times, on UTF-8 bytes.
- `src/event.rs` — events, their palette colour, range test, stored
  date-times and the stable ordering by start.
- `src/collect.rs` — what becomes of a cache row, a stored occurrence or a
  calendar file, and the demo events shown when none is found.
- `src/fetch.rs` — the listing of everything read from the caches and
  files: their events in a range of days, ordered by start, and the proof
  that a narrower range only filters it.
- `src/agenda.rs` — events grouped by day, the time each shows, and the
  summary of today.
- `src/label.rs` — the texts shown: month title, day headings, time badges,
  the panel's day badge, the greeting and the summary line.
- `src/applet.rs` — the applet's state and its answer to each message.
- `app/` — the applet window (libcosmic), timers, and the reading of
  directories, files and the Evolution Data Server cache.
- `tests/` — tests of the library on concrete values.
