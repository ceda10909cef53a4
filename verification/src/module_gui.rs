//! The frame that the editor draws around every module: a title bar with a delete button.

use vstd::prelude::*;
use crate::button::{button_step, Button, ButtonUpdate};
use crate::event::{ButtonState, Event, MouseButton};

verus! {

/// What handling an event did to a module's frame.
#[derive(Clone, Copy, PartialEq, Eq, Structural, Debug)]
pub enum GuiModuleUpdate {
    Unchanged,
    Closed,
}

/// A module's frame: its delete button, and whether it must be drawn again.
pub struct ModuleFrame {
    pub delete_button: Button,
    pub dirty: bool,
}

/// What the frame reports for an update of its delete button, and whether the frame
/// then needs a redraw: a click closes the module, and a change of the button's look
/// marks the frame dirty.
pub open spec fn frame_update(dirty: bool, update: ButtonUpdate) -> (GuiModuleUpdate, bool) {
    match update {
        ButtonUpdate::NeedRender => (GuiModuleUpdate::Unchanged, true),
        ButtonUpdate::Clicked => (GuiModuleUpdate::Closed, dirty),
        ButtonUpdate::Unchanged => (GuiModuleUpdate::Unchanged, dirty),
    }
}

impl ModuleFrame {
    /// A frame with a delete button labelled `label`, to be drawn.
    pub fn new(label: String) -> (f: ModuleFrame)
        ensures
            f.delete_button.label == label,
            !f.delete_button.hover,
            f.dirty,
    {
        ModuleFrame { delete_button: Button::new(label), dirty: true }
    }

    /// Passes an event to the delete button and reports what it means for the module.
    pub fn handle_delete_button(&mut self, event: &Event) -> (r: GuiModuleUpdate)
        ensures
            ({
                let (hover, update) = button_step(old(self).delete_button.hover, *event);
                &&& final(self).delete_button.hover == hover
                &&& final(self).delete_button.label == old(self).delete_button.label
                &&& (r, final(self).dirty) == frame_update(old(self).dirty, update)
            }),
    {
        match self.delete_button.handle(event) {
            ButtonUpdate::NeedRender => {
                self.dirty = true;
                GuiModuleUpdate::Unchanged
            },
            ButtonUpdate::Clicked => GuiModuleUpdate::Closed,
            ButtonUpdate::Unchanged => GuiModuleUpdate::Unchanged,
        }
    }
}

/// What a click does to the dragging of a module by its title bar.
#[derive(Clone, Copy, PartialEq, Eq, Structural, Debug)]
pub enum DragChange {
    /// Start dragging, from where the pointer grabbed the module.
    Start,
    /// Stop dragging.
    Stop,
    /// Leave the drag as it is.
    Keep,
}

/// What a click does to dragging: with the focus and away from the delete button, a press of
/// the left button on the title bar starts a drag and a release of the left button ends it;
/// nothing else changes the drag.
pub fn drag_change(
    focus: bool,
    on_delete_button: bool,
    on_title_bar: bool,
    button: MouseButton,
    state: ButtonState,
) -> (r: DragChange)
    ensures
        r == if focus && !on_delete_button && button == MouseButton::Left {
            if state == ButtonState::Pressed {
                if on_title_bar {
                    DragChange::Start
                } else {
                    DragChange::Keep
                }
            } else {
                DragChange::Stop
            }
        } else {
            DragChange::Keep
        },
{
    if focus && !on_delete_button && button == MouseButton::Left {
        match state {
            ButtonState::Pressed => if on_title_bar {
                DragChange::Start
            } else {
                DragChange::Keep
            },
            ButtonState::Released => DragChange::Stop,
        }
    } else {
        DragChange::Keep
    }
}

} // verus!
