use conwayste::ui::{EventType, Handled, Screen, UIAction, EVENT_TYPE_COUNT};

#[test]
fn test_into_enum_iter() {
    let all: Vec<EventType> = EventType::variants();
    assert_eq!(all.len(), EVENT_TYPE_COUNT);
    assert!(all.contains(&EventType::Click));
}

#[test]
fn key_events_are_exactly_key_presses() {
    assert!(EventType::KeyPress.is_key_event());
    assert!(!EventType::Click.is_key_event());
    assert!(!EventType::MouseMove.is_key_event());
    assert!(!EventType::Drag.is_key_event());
    assert!(!EventType::Translate.is_key_event());
    assert!(!EventType::Resize.is_key_event());
    assert!(!EventType::ParentTranslate.is_key_event());
    assert!(!EventType::ParentResize.is_key_event());
}

#[test]
fn mouse_events_are_click_move_and_drag() {
    assert!(EventType::Click.is_mouse_event());
    assert!(EventType::MouseMove.is_mouse_event());
    assert!(EventType::Drag.is_mouse_event());
    assert!(!EventType::KeyPress.is_mouse_event());
    assert!(!EventType::Translate.is_mouse_event());
    assert!(!EventType::Resize.is_mouse_event());
    assert!(!EventType::ParentTranslate.is_mouse_event());
    assert!(!EventType::ParentResize.is_mouse_event());
}

#[test]
fn variants_lists_each_event_type_once() {
    let all = EventType::variants();
    for (i, a) in all.iter().enumerate() {
        for (j, b) in all.iter().enumerate() {
            if i != j {
                assert_ne!(a, b);
            }
        }
    }
}

#[test]
fn ui_actions_compare_by_value() {
    assert_eq!(
        UIAction::ScreenTransition(Screen::ServerList),
        UIAction::ScreenTransition(Screen::ServerList)
    );
    assert_ne!(
        UIAction::ScreenTransition(Screen::Menu),
        UIAction::ScreenTransition(Screen::Run)
    );
    assert_ne!(UIAction::EnterText, UIAction::ScreenTransition(Screen::Intro));
    assert_eq!(Handled::Handled, Handled::Handled);
    assert_ne!(Handled::Handled, Handled::NotHandled);
}
