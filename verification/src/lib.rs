//! The calendar logic of a panel applet: dates and the month grid, the
//! parsing of iCalendar events, event ordering and grouping, and the
//! applet's reaction to its messages.
pub mod date;
pub mod grid;
pub mod event;
pub mod ics;
pub mod collect;
pub mod fetch;
pub mod agenda;
pub mod applet;
pub mod label;
