//! The applet's state and how it answers each message: the minute tick,
//! the popup, moving through months and days, and the stored settings.
//! The settings' type `C` is the windowing side's configuration entry; the
//! logic here only stores it.
use vstd::prelude::*;
use crate::date::{Date, valid_ymd, day_number_in_range};
use crate::event::CalendarEvent;

verus! {

/// Every how many minute ticks the events are read again.
pub const REFRESH_TICKS: u32 = 60;

/// How many days ahead of today the applet lists events.
pub const EVENT_WINDOW_DAYS: i32 = 30;

/// A message to the applet. Popups are named by a number the windowing
/// side hands out; `UpdateConfig` carries newly stored settings.
#[derive(Clone, Debug)]
pub enum Message<C> {
    UpdateConfig(C),
    Tick,
    TogglePopup,
    PopupClosed(u64),
    CalendarPrev,
    CalendarNext,
    SelectDay(Date),
    CreateEvent,
    OpenNotifications,
    ToggleView,
    OpenSettings,
}

/// What the windowing side is to do after a message.
#[derive(Clone, Copy, Debug, PartialEq, Eq, Structural)]
pub enum Action {
    Nothing,
    /// Read the events of today and the days ahead again.
    RefreshEvents,
    /// Open a popup, and report its number with `popup_opened`.
    OpenPopup,
    /// Close the popup with this number.
    ClosePopup(u64),
}

/// The applet's calendar state.
#[derive(Debug)]
pub struct AppModel<C> {
    pub config: C,
    pub popup: Option<u64>,
    pub selected_date: Date,
    pub date_today: Date,
    pub events: Vec<CalendarEvent>,
    pub tick_count: u32,
}

/// The month before month `m` of year `y`.
pub open spec fn month_before(y: int, m: int) -> (int, int) {
    if m == 1 { (y - 1, 12) } else { (y, m - 1) }
}

/// The month after month `m` of year `y`.
pub open spec fn month_after(y: int, m: int) -> (int, int) {
    if m == 12 { (y + 1, 1) } else { (y, m + 1) }
}

/// The selected day after a message: the first of the previous or next
/// month where that date exists, the picked day, or unchanged.
pub open spec fn selected_after<C>(d: Date, msg: Message<C>) -> Date {
    match msg {
        Message::CalendarPrev => {
            let (y, m) = month_before(d.year as int, d.month as int);
            if valid_ymd(y, m, 1) { Date { year: y as i32, month: m as u32, day: 1 } } else { d }
        },
        Message::CalendarNext => {
            let (y, m) = month_after(d.year as int, d.month as int);
            if valid_ymd(y, m, 1) { Date { year: y as i32, month: m as u32, day: 1 } } else { d }
        },
        Message::SelectDay(day) => day,
        _ => d,
    }
}

/// The open popup after a message: toggling closes an open popup (opening
/// one is reported later), and a closed popup is forgotten if it is the
/// open one.
pub open spec fn popup_after<C>(p: Option<u64>, msg: Message<C>) -> Option<u64> {
    match msg {
        Message::TogglePopup => None,
        Message::PopupClosed(id) => if p == Some(id) { None } else { p },
        _ => p,
    }
}

/// The action a message asks for, given the popup before it and the tick
/// count after it.
pub open spec fn action_for<C>(p: Option<u64>, ticks: u32, msg: Message<C>) -> Action {
    match msg {
        Message::Tick => if ticks % REFRESH_TICKS == 0 { Action::RefreshEvents } else { Action::Nothing },
        Message::TogglePopup => match p {
            Some(id) => Action::ClosePopup(id),
            None => Action::OpenPopup,
        },
        _ => Action::Nothing,
    }
}

/// The stored settings after a message: the new ones it carries, or the
/// old ones.
pub open spec fn config_after<C>(c: C, msg: Message<C>) -> C {
    match msg {
        Message::UpdateConfig(n) => n,
        _ => c,
    }
}

impl<C> AppModel<C> {
    /// The state's dates are valid.
    pub open spec fn wf(&self) -> bool {
        self.selected_date.is_valid() && self.date_today.is_valid()
    }

    /// The state at start-up: the stored settings, today selected, no
    /// popup, no tick yet.
    pub fn new(today: Date, events: Vec<CalendarEvent>, config: C) -> (r: AppModel<C>)
        ensures
            r.config == config,
            r.popup is None,
            r.selected_date == today,
            r.date_today == today,
            r.events@ == events@,
            r.tick_count == 0,
    {
        AppModel { config, popup: None, selected_date: today, date_today: today, events, tick_count: 0 }
    }

    /// Answers a message. A tick must not overflow the tick count, and a
    /// picked day must be a valid date.
    pub fn update(&mut self, message: Message<C>) -> (action: Action)
        requires
            old(self).wf(),
            message is Tick ==> old(self).tick_count < u32::MAX,
            message matches Message::SelectDay(d) ==> d.is_valid(),
        ensures
            final(self).wf(),
            final(self).tick_count == (if message is Tick { old(self).tick_count + 1 } else { old(self).tick_count as int }),
            final(self).selected_date == selected_after(old(self).selected_date, message),
            final(self).popup == popup_after(old(self).popup, message),
            final(self).config == config_after(old(self).config, message),
            final(self).date_today == old(self).date_today,
            final(self).events@ == old(self).events@,
            action == action_for(old(self).popup, final(self).tick_count, message),
    {
        match message {
            Message::UpdateConfig(config) => {
                self.config = config;
            },
            Message::Tick => {
                self.tick_count = self.tick_count + 1;
                if self.tick_count % REFRESH_TICKS == 0 {
                    return Action::RefreshEvents;
                }
            },
            Message::TogglePopup => {
                return match self.popup.take() {
                    Some(p) => Action::ClosePopup(p),
                    None => Action::OpenPopup,
                };
            },
            Message::PopupClosed(id) => {
                if self.popup == Some(id) {
                    self.popup = None;
                }
            },
            Message::CalendarPrev => {
                let (year, month) = if self.selected_date.month == 1 {
                    (self.selected_date.year - 1, 12)
                } else {
                    (self.selected_date.year, self.selected_date.month - 1)
                };
                if let Some(date) = Date::new(year, month, 1) {
                    self.selected_date = date;
                }
            },
            Message::CalendarNext => {
                let (year, month) = if self.selected_date.month == 12 {
                    (self.selected_date.year + 1, 1)
                } else {
                    (self.selected_date.year, self.selected_date.month + 1)
                };
                if let Some(date) = Date::new(year, month, 1) {
                    self.selected_date = date;
                }
            },
            Message::SelectDay(date) => {
                self.selected_date = date;
            },
            Message::CreateEvent | Message::OpenNotifications | Message::ToggleView | Message::OpenSettings => {},
        }
        Action::Nothing
    }

    /// Records the popup the windowing side opened.
    pub fn popup_opened(&mut self, id: u64)
        ensures
            final(self).popup == Some(id),
            final(self).config == old(self).config,
            final(self).selected_date == old(self).selected_date,
            final(self).date_today == old(self).date_today,
            final(self).events@ == old(self).events@,
            final(self).tick_count == old(self).tick_count,
    {
        self.popup = Some(id);
    }

    /// Replaces the listed events with freshly read ones.
    pub fn set_events(&mut self, events: Vec<CalendarEvent>)
        ensures
            final(self).events@ == events@,
            final(self).config == old(self).config,
            final(self).popup == old(self).popup,
            final(self).selected_date == old(self).selected_date,
            final(self).date_today == old(self).date_today,
            final(self).tick_count == old(self).tick_count,
    {
        self.events = events;
    }
}

/// The days whose events the applet lists: from today to 30 days later.
pub fn event_window(today: &Date) -> (r: (Date, Date))
    requires
        today.is_valid(),
        day_number_in_range(today.number() + EVENT_WINDOW_DAYS),
    ensures
        r.0 == *today,
        r.1.is_valid(),
        r.1.number() == today.number() + EVENT_WINDOW_DAYS,
{
    (*today, today.checked_add_days(EVENT_WINDOW_DAYS).unwrap())
}

/// Moving to the next month and back leads to the first of the month one
/// started from, whenever the next month exists.
pub proof fn law_next_then_prev<C>(d: Date)
    requires
        d.is_valid(),
        ({
            let (y, m) = month_after(d.year as int, d.month as int);
            valid_ymd(y, m, 1)
        }),
    ensures
        selected_after(selected_after(d, Message::<C>::CalendarNext), Message::<C>::CalendarPrev) == (Date {
            year: d.year,
            month: d.month,
            day: 1,
        }),
{
}

/// Moving to the previous month and on leads to the first of the month one
/// started from, whenever the previous month exists.
pub proof fn law_prev_then_next<C>(d: Date)
    requires
        d.is_valid(),
        ({
            let (y, m) = month_before(d.year as int, d.month as int);
            valid_ymd(y, m, 1)
        }),
    ensures
        selected_after(selected_after(d, Message::<C>::CalendarPrev), Message::<C>::CalendarNext) == (Date {
            year: d.year,
            month: d.month,
            day: 1,
        }),
{
}

/// A popup that is open is closed by a toggle, which asks to close it; a
/// second toggle asks to open one again.
pub proof fn law_toggle_closes<C>(id: u64)
    ensures
        popup_after(Some(id), Message::<C>::TogglePopup) is None,
        action_for(Some(id), 0, Message::<C>::TogglePopup) == Action::ClosePopup(id),
        action_for(popup_after(Some(id), Message::<C>::TogglePopup), 0, Message::<C>::TogglePopup) == Action::OpenPopup,
{
}

/// Closing a popup other than the open one leaves the open one in place.
pub proof fn law_close_other_popup<C>(open: u64, closed: u64)
    requires
        open != closed,
    ensures
        popup_after(Some(open), Message::<C>::PopupClosed(closed)) == Some(open),
        popup_after(Some(open), Message::<C>::PopupClosed(open)) is None,
{
}

} // verus!
