//! A push button: it lights up while the pointer is over it and reports a click when the
//! left button is released over it.

use vstd::prelude::*;
use crate::event::{ButtonState, Event, EventData, MouseButton};

verus! {

/// A labelled button, and whether the pointer is over it.
pub struct Button {
    pub label: String,
    pub hover: bool,
}

/// What handling an event did to a button.
#[derive(Clone, Copy, PartialEq, Eq, Structural, Debug)]
pub enum ButtonUpdate {
    Unchanged,
    NeedRender,
    Clicked,
}

/// What a button does on `event`, given whether the pointer was over it: the new hover
/// state and the update it reports.
pub open spec fn button_step(hover: bool, event: Event) -> (bool, ButtonUpdate) {
    match event.data {
        EventData::MouseMove { inside } => if hover != inside {
            (inside, ButtonUpdate::NeedRender)
        } else {
            (hover, ButtonUpdate::Unchanged)
        },
        EventData::Click { inside: _, button, state } => if button == MouseButton::Left && state
            == ButtonState::Released && hover {
            (hover, ButtonUpdate::Clicked)
        } else {
            (hover, ButtonUpdate::Unchanged)
        },
        _ => (hover, ButtonUpdate::Unchanged),
    }
}

impl Button {
    /// A button with the given label; the pointer is not over it.
    pub fn new(label: String) -> (b: Button)
        ensures
            b.label == label,
            !b.hover,
    {
        Button { label, hover: false }
    }

    /// Handles an event: pointer moves update the hover state (and ask for a redraw when
    /// it changes), and a release of the left button while hovered is a click.
    pub fn handle(&mut self, event: &Event) -> (r: ButtonUpdate)
        ensures
            (final(self).hover, r) == button_step(old(self).hover, *event),
            final(self).label == old(self).label,
    {
        match event.data {
            EventData::MouseMove { inside } => {
                if self.hover != inside {
                    self.hover = inside;
                    ButtonUpdate::NeedRender
                } else {
                    ButtonUpdate::Unchanged
                }
            },
            EventData::Click { inside: _, button, state } => {
                if button == MouseButton::Left && state == ButtonState::Released && self.hover {
                    ButtonUpdate::Clicked
                } else {
                    ButtonUpdate::Unchanged
                }
            },
            _ => ButtonUpdate::Unchanged,
        }
    }
}

} // verus!
