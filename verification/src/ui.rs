//! User-interface event vocabulary of the client that embeds the
//! reliability layer: event classification and the actions a widget can ask
//! the client to take.
//!
//! These are plain value types; layout, rendering and input plumbing live
//! with the embedding application.

use vstd::prelude::*;

verus! {

/// The type of a user-interface event.
#[derive(Clone, Copy, Debug, PartialEq, Eq, Hash, Structural)]
pub enum EventType {
    Click,
    KeyPress,
    MouseMove,
    Drag,
    Translate,
    Resize,
    ParentTranslate,
    ParentResize,
}

/// How many variants [`EventType`] has.
pub const EVENT_TYPE_COUNT: usize = 8;

impl EventType {
    /// Returns true if and only if this is a keyboard event type.
    pub fn is_key_event(self) -> (r: bool)
        ensures
            r == (self is KeyPress),
    {
        matches!(self, EventType::KeyPress)
    }

    /// Returns true if and only if this is a mouse event type. For such an
    /// event the pointer position is meaningful.
    pub fn is_mouse_event(self) -> (r: bool)
        ensures
            r == (self is Click || self is MouseMove || self is Drag),
    {
        matches!(self, EventType::Click | EventType::MouseMove | EventType::Drag)
    }

    /// Every event type, each exactly once, in declaration order.
    pub fn variants() -> (all: Vec<EventType>)
        ensures
            all@.len() == EVENT_TYPE_COUNT,
            all@ == seq![
                EventType::Click,
                EventType::KeyPress,
                EventType::MouseMove,
                EventType::Drag,
                EventType::Translate,
                EventType::Resize,
                EventType::ParentTranslate,
                EventType::ParentResize,
            ],
    {
        let mut all: Vec<EventType> = Vec::new();
        all.push(EventType::Click);
        all.push(EventType::KeyPress);
        all.push(EventType::MouseMove);
        all.push(EventType::Drag);
        all.push(EventType::Translate);
        all.push(EventType::Resize);
        all.push(EventType::ParentTranslate);
        all.push(EventType::ParentResize);
        proof {
            assert(all@ =~= seq![
                EventType::Click,
                EventType::KeyPress,
                EventType::MouseMove,
                EventType::Drag,
                EventType::Translate,
                EventType::Resize,
                EventType::ParentTranslate,
                EventType::ParentResize,
            ]);
        }
        all
    }
}

/// Whether a widget consumed an event or left it to the remaining handlers.
#[derive(Clone, Copy, Debug, PartialEq, Eq, Structural)]
pub enum Handled {
    /// No other handlers should be called.
    Handled,
    /// Continue calling handlers.
    NotHandled,
}

/// The screens the client can show.
#[derive(Clone, Copy, Debug, PartialEq, Eq, Hash, Structural)]
pub enum Screen {
    Intro,
    Menu,
    ServerList,
    InRoom,
    Run,
    Exit,
}

/// What an interaction with a widget asks the client to do.
#[derive(Clone, Copy, Debug, PartialEq, Eq, Structural)]
pub enum UIAction {
    /// Switch to another screen.
    ScreenTransition(Screen),
    /// Begin text entry in the focused widget.
    EnterText,
}

} // verus!
