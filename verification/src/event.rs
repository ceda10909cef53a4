//! Input events as the user interface's components see them.

use vstd::prelude::*;

verus! {

/// Whether a button or key went down or up.
#[derive(Clone, Copy, PartialEq, Eq, Structural, Debug, Hash)]
pub enum ButtonState {
    Pressed,
    Released,
}

/// A mouse button.
#[derive(Clone, Copy, PartialEq, Eq, Structural, Debug, Hash)]
pub enum MouseButton {
    Left,
    Right,
    Middle,
    Other(u8),
}

/// The modifier keys held during a key event.
#[derive(Clone, Copy, PartialEq, Eq, Structural, Debug, Hash)]
pub struct KeyModifiers {
    pub shift: bool,
    pub ctrl: bool,
    pub alt: bool,
    pub logo: bool,
}

/// The keys that the components tell apart; every other key is `Other`.
#[derive(Clone, Copy, PartialEq, Eq, Structural, Debug, Hash)]
pub enum KeyCode {
    Left,
    Right,
    S,
    L,
    Other,
}

/// A key going down or up.
#[derive(Clone, Copy, PartialEq, Eq, Structural, Debug)]
pub struct KeyEvent {
    pub code: KeyCode,
    pub modifiers: KeyModifiers,
    pub state: ButtonState,
}

/// What happened. For pointer events, `inside` tells whether the pointer is within the
/// bounds of the component that receives the event.
#[derive(Clone, Copy, PartialEq, Eq, Structural, Debug)]
pub enum EventData {
    MouseMove { inside: bool },
    Click { inside: bool, button: MouseButton, state: ButtonState },
    Key(KeyEvent),
    Character(char),
}

/// An event, and whether the receiving component has the focus for it.
#[derive(Clone, Copy, PartialEq, Eq, Structural, Debug)]
pub struct Event {
    pub focus: bool,
    pub data: EventData,
}

impl Event {
    /// The same event, with the given focus.
    pub fn with_focus(self, focus: bool) -> (r: Event)
        ensures
            r == (Event { focus, data: self.data }),
    {
        Event { focus, data: self.data }
    }
}

} // verus!
