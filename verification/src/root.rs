//! The decisions of the editor's root component: which keys save or load the project, which
//! component gets the focus for a pointer event, and when the context menu opens or closes.

use vstd::prelude::*;
use crate::event::{ButtonState, KeyCode, KeyEvent, KeyModifiers, MouseButton};
use crate::menu::MenuUpdate;
use crate::module_gui::GuiModuleUpdate;

verus! {

/// What a key event asks of the root.
#[derive(Clone, Copy, PartialEq, Eq, Structural, Debug)]
pub enum KeyCommand {
    /// Save the project.
    Save,
    /// Load the project.
    Load,
    /// Pass the event on to every module, with focus.
    Forward,
}

/// Only Control held, no other modifier.
pub open spec fn ctrl_only(m: KeyModifiers) -> bool {
    m.ctrl && !m.shift && !m.alt && !m.logo
}

/// Control-S pressed saves, Control-L pressed loads; every other key event goes to the
/// modules.
pub fn key_command(kev: &KeyEvent) -> (r: KeyCommand)
    ensures
        r == if kev.state == ButtonState::Pressed && ctrl_only(kev.modifiers) && kev.code == KeyCode::S {
            KeyCommand::Save
        } else if kev.state == ButtonState::Pressed && ctrl_only(kev.modifiers) && kev.code == KeyCode::L {
            KeyCommand::Load
        } else {
            KeyCommand::Forward
        },
{
    let ctrl_only = kev.modifiers.ctrl && !kev.modifiers.shift && !kev.modifiers.alt && !kev.modifiers.logo;
    if kev.state == ButtonState::Pressed && ctrl_only && kev.code == KeyCode::S {
        KeyCommand::Save
    } else if kev.state == ButtonState::Pressed && ctrl_only && kev.code == KeyCode::L {
        KeyCommand::Load
    } else {
        KeyCommand::Forward
    }
}

/// The first position in `hits` that is true.
pub open spec fn first_hit(hits: Seq<bool>, k: int) -> Option<int>
    decreases hits.len() - k,
{
    if k < 0 || k >= hits.len() {
        None
    } else if hits[k] {
        Some(k)
    } else {
        first_hit(hits, k + 1)
    }
}

/// The module that gets the focus for a pointer event: none if the context menu took it,
/// else the first module, front to back in the root's order, that the pointer is over.
/// `module_hits[i]` tells whether the pointer is over module `i`.
pub fn pointer_focus(menu_hit: bool, module_hits: &[bool]) -> (r: Option<usize>)
    ensures
        r == if menu_hit {
            None
        } else {
            match first_hit(module_hits@, 0) {
                Some(k) => Some(k as usize),
                None => None,
            }
        },
{
    if menu_hit {
        return None;
    }
    let mut i: usize = 0;
    while i < module_hits.len()
        invariant
            i <= module_hits@.len(),
            !menu_hit,
            first_hit(module_hits@, 0) == first_hit(module_hits@, i as int),
        decreases module_hits@.len() - i,
    {
        if module_hits[i] {
            assert(first_hit(module_hits@, i as int) == Some(i as int));
            return Some(i);
        }
        i = i + 1;
    }
    None
}

/// What a click does to the context menu: a right press opens it at the pointer; a left
/// press outside it closes it. `menu_hit` tells whether the pointer is over the menu that
/// is shown once the right press has been handled. Returns (open, close).
pub fn click_menu_action(button: MouseButton, state: ButtonState, menu_shown: bool, menu_hit: bool) -> (r: (bool, bool))
    ensures
        r.0 == (state == ButtonState::Pressed && button == MouseButton::Right),
        r.1 == ((menu_shown || r.0) && !menu_hit && state == ButtonState::Pressed && button
            == MouseButton::Left),
{
    let open = state == ButtonState::Pressed && button == MouseButton::Right;
    let close = (menu_shown || open) && !menu_hit && state == ButtonState::Pressed && button == MouseButton::Left;
    (open, close)
}

/// What becomes of the module that had the focus for a pointer event.
#[derive(Clone, Copy, PartialEq, Eq, Structural, Debug)]
pub enum ModuleAction {
    /// The module is taken off the screen.
    Remove,
    /// The module is brought in front of the others.
    BringToFront,
    /// Nothing changes.
    Keep,
}

/// After a click, a module that answered `Closed` is removed and any other focused module
/// comes to the front; a pointer move changes neither.
pub fn focused_module_action(is_click: bool, status: GuiModuleUpdate) -> (r: ModuleAction)
    ensures
        r == if !is_click {
            ModuleAction::Keep
        } else if status == GuiModuleUpdate::Closed {
            ModuleAction::Remove
        } else {
            ModuleAction::BringToFront
        },
{
    if !is_click {
        ModuleAction::Keep
    } else {
        match status {
            GuiModuleUpdate::Closed => ModuleAction::Remove,
            GuiModuleUpdate::Unchanged => ModuleAction::BringToFront,
        }
    }
}

/// The kind of module that the context menu's answer asks for: the first label of a
/// selected path; nothing for any other answer.
pub fn module_to_create(update: &MenuUpdate) -> (r: Option<String>)
    ensures
        match update {
            MenuUpdate::Select(path) => if path@.len() > 0 {
                r is Some && r->Some_0@ == path@[0]@
            } else {
                r is None
            },
            _ => r is None,
        },
{
    match update {
        MenuUpdate::Select(path) => if path.len() > 0 {
            Some(path[0].clone())
        } else {
            None
        },
        _ => None,
    }
}

} // verus!
