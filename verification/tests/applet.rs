use calenderdot::applet::{event_window, Action, AppModel, Message};
use calenderdot::date::Date;

fn d(year: i32, month: u32, day: u32) -> Date {
    Date { year, month, day }
}

#[test]
fn refresh_every_sixty_ticks() {
    let mut m = AppModel::new(d(2024, 3, 10), Vec::new(), ());
    let mut refreshes = 0;
    for i in 1..=180u32 {
        let a = m.update(Message::Tick);
        assert_eq!(m.tick_count, i);
        if a == Action::RefreshEvents {
            refreshes += 1;
            assert_eq!(i % 60, 0);
        } else {
            assert_eq!(a, Action::Nothing);
        }
    }
    assert_eq!(refreshes, 3);
}

#[test]
fn popup_toggles() {
    let mut m = AppModel::new(d(2024, 3, 10), Vec::new(), ());
    assert_eq!(m.update(Message::TogglePopup), Action::OpenPopup);
    assert_eq!(m.popup, None);
    m.popup_opened(7);
    assert_eq!(m.popup, Some(7));
    assert_eq!(m.update(Message::PopupClosed(8)), Action::Nothing);
    assert_eq!(m.popup, Some(7));
    assert_eq!(m.update(Message::TogglePopup), Action::ClosePopup(7));
    assert_eq!(m.popup, None);
    m.popup_opened(9);
    assert_eq!(m.update(Message::PopupClosed(9)), Action::Nothing);
    assert_eq!(m.popup, None);
}

#[test]
fn months_move_to_their_first_day() {
    let mut m = AppModel::new(d(2024, 3, 10), Vec::new(), ());
    m.update(Message::CalendarNext);
    assert_eq!(m.selected_date, d(2024, 4, 1));
    m.update(Message::CalendarPrev);
    m.update(Message::CalendarPrev);
    m.update(Message::CalendarPrev);
    assert_eq!(m.selected_date, d(2024, 1, 1));
    m.update(Message::CalendarPrev);
    assert_eq!(m.selected_date, d(2023, 12, 1));
    m.update(Message::CalendarNext);
    assert_eq!(m.selected_date, d(2024, 1, 1));
    assert_eq!(m.date_today, d(2024, 3, 10));
}

#[test]
fn months_stop_at_the_range_ends() {
    let mut m = AppModel::new(d(262142, 12, 5), Vec::new(), ());
    m.update(Message::CalendarNext);
    assert_eq!(m.selected_date, d(262142, 12, 5));
    let mut m = AppModel::new(d(-262143, 1, 5), Vec::new(), ());
    m.update(Message::CalendarPrev);
    assert_eq!(m.selected_date, d(-262143, 1, 5));
}

#[test]
fn picking_a_day_and_other_buttons() {
    let mut m = AppModel::new(d(2024, 3, 10), Vec::new(), ());
    assert_eq!(m.update(Message::SelectDay(d(2024, 3, 22))), Action::Nothing);
    assert_eq!(m.selected_date, d(2024, 3, 22));
    for msg in [Message::CreateEvent, Message::OpenNotifications, Message::ToggleView, Message::OpenSettings] {
        assert_eq!(m.update(msg), Action::Nothing);
        assert_eq!(m.selected_date, d(2024, 3, 22));
        assert_eq!(m.popup, None);
    }
}

#[test]
fn events_are_replaced() {
    let mut m = AppModel::new(d(2024, 3, 10), Vec::new(), ());
    assert!(m.events.is_empty());
    m.set_events(vec![calenderdot::event::CalendarEvent {
        summary: String::from("a"),
        location: String::new(),
        start_time: None,
        end_time: None,
        all_day: false,
        color: 0,
    }]);
    assert_eq!(m.events.len(), 1);
}

#[test]
fn events_are_listed_for_thirty_days() {
    assert_eq!(event_window(&d(2024, 3, 10)), (d(2024, 3, 10), d(2024, 4, 9)));
    assert_eq!(event_window(&d(2024, 12, 15)), (d(2024, 12, 15), d(2025, 1, 14)));
}

#[test]
fn stored_settings_are_replaced() {
    let mut m = AppModel::new(d(2024, 3, 10), Vec::new(), String::from("old"));
    assert_eq!(m.config, "old");
    assert_eq!(m.update(Message::UpdateConfig(String::from("new"))), Action::Nothing);
    assert_eq!(m.config, "new");
    assert_eq!(m.selected_date, d(2024, 3, 10));
    assert_eq!(m.tick_count, 0);
    assert_eq!(m.update(Message::Tick), Action::Nothing);
    assert_eq!(m.config, "new");
}
