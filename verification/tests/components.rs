use flow_synth::button::{Button, ButtonUpdate};
use flow_synth::connect::{Connection, JackAction, JackContext};
use flow_synth::debug::count_up;
use flow_synth::round::round_next;
use flow_synth::event::{ButtonState, Event, EventData, KeyCode, KeyEvent, KeyModifiers, MouseButton};
use flow_synth::module_gui::{drag_change, DragChange, GuiModuleUpdate, ModuleFrame};
use flow_synth::textbox::{TextBox, TextBoxUpdate, BACKSPACE};

fn event(data: EventData) -> Event {
    Event { focus: true, data }
}

fn mouse_move(inside: bool) -> Event {
    event(EventData::MouseMove { inside })
}

fn click(button: MouseButton, state: ButtonState) -> Event {
    event(EventData::Click { inside: true, button, state })
}

fn key(code: KeyCode) -> Event {
    event(EventData::Key(KeyEvent {
        code,
        modifiers: KeyModifiers { shift: false, ctrl: false, alt: false, logo: false },
        state: ButtonState::Pressed,
    }))
}

#[test]
fn button_hover_and_click() {
    let mut b = Button::new("X".to_string());
    assert_eq!(b.handle(&click(MouseButton::Left, ButtonState::Released)), ButtonUpdate::Unchanged);
    assert_eq!(b.handle(&mouse_move(true)), ButtonUpdate::NeedRender);
    assert!(b.hover);
    assert_eq!(b.handle(&mouse_move(true)), ButtonUpdate::Unchanged);
    assert_eq!(b.handle(&click(MouseButton::Left, ButtonState::Pressed)), ButtonUpdate::Unchanged);
    assert_eq!(b.handle(&click(MouseButton::Right, ButtonState::Released)), ButtonUpdate::Unchanged);
    assert_eq!(b.handle(&click(MouseButton::Left, ButtonState::Released)), ButtonUpdate::Clicked);
    assert_eq!(b.handle(&mouse_move(false)), ButtonUpdate::NeedRender);
    assert!(!b.hover);
    assert_eq!(b.handle(&event(EventData::Character('a'))), ButtonUpdate::Unchanged);
}

#[test]
fn module_frame_delete_button() {
    let mut f = ModuleFrame::new("X".to_string());
    f.dirty = false;
    assert_eq!(f.handle_delete_button(&mouse_move(true)), GuiModuleUpdate::Unchanged);
    assert!(f.dirty);
    f.dirty = false;
    assert_eq!(f.handle_delete_button(&click(MouseButton::Left, ButtonState::Released)), GuiModuleUpdate::Closed);
    assert!(!f.dirty);
}

#[test]
fn textbox_focus_and_editing() {
    let mut t = TextBox::new("ac".to_string());
    assert_eq!(t.handle(&event(EventData::Character('x'))), TextBoxUpdate::Unchanged);
    assert_eq!(t.content, "ac");
    assert_eq!(t.handle(&click(MouseButton::Left, ButtonState::Pressed)), TextBoxUpdate::NeedRender);
    assert!(t.focused);
    assert_eq!(t.handle(&key(KeyCode::Right)), TextBoxUpdate::NeedRender);
    assert_eq!(t.cursor, 1);
    assert_eq!(t.handle(&event(EventData::Character('b'))), TextBoxUpdate::NeedRender);
    assert_eq!(t.content, "abc");
    assert_eq!(t.cursor, 2);
    assert_eq!(t.handle(&key(KeyCode::Right)), TextBoxUpdate::NeedRender);
    assert_eq!(t.handle(&key(KeyCode::Right)), TextBoxUpdate::NeedRender);
    assert_eq!(t.cursor, 3);
    assert_eq!(t.handle(&event(EventData::Character(BACKSPACE))), TextBoxUpdate::NeedRender);
    assert_eq!(t.content, "ab");
    assert_eq!(t.cursor, 2);
    assert_eq!(t.handle(&key(KeyCode::Left)), TextBoxUpdate::NeedRender);
    assert_eq!(t.handle(&key(KeyCode::Left)), TextBoxUpdate::NeedRender);
    assert_eq!(t.handle(&key(KeyCode::Left)), TextBoxUpdate::NeedRender);
    assert_eq!(t.cursor, 0);
    assert_eq!(t.handle(&event(EventData::Character(BACKSPACE))), TextBoxUpdate::NeedRender);
    assert_eq!(t.content, "ab");
    assert_eq!(t.handle(&mouse_move(true)), TextBoxUpdate::Unchanged);
    let unfocused = Event { focus: false, data: EventData::Click { inside: false, button: MouseButton::Left, state: ButtonState::Pressed } };
    assert_eq!(t.handle(&unfocused), TextBoxUpdate::NeedRender);
    assert!(!t.focused);
    t.set_focused(true);
    t.set_content("z".to_string());
    assert_eq!(t.content, "z");
    assert!(t.focused);
}

#[test]
fn textbox_key_release_only_redraws() {
    let mut t = TextBox::new("ab".to_string());
    t.set_focused(true);
    let release = event(EventData::Key(KeyEvent {
        code: KeyCode::Right,
        modifiers: KeyModifiers { shift: false, ctrl: false, alt: false, logo: false },
        state: ButtonState::Released,
    }));
    assert_eq!(t.handle(&release), TextBoxUpdate::NeedRender);
    assert_eq!(t.cursor, 0);
}

#[test]
fn jacks_make_wires_by_two_clicks() {
    let mut c = JackContext::new();
    let a = c.new_jack();
    let b = c.new_jack();
    let d = c.new_jack();
    assert_eq!(c.click(a), JackAction { disconnect: false, connect: None });
    assert_eq!(c.connection_of(a), Connection::Floating);
    assert_eq!(c.click(a), JackAction { disconnect: false, connect: None });
    assert_eq!(c.click(b), JackAction { disconnect: false, connect: Some(a.index) });
    assert_eq!(c.connection_of(a), Connection::Head { endpoint: b.index });
    assert_eq!(c.connection_of(b), Connection::Tail { endpoint: a.index });
    assert_eq!(c.endpoint_jack(a), Some(b));
    assert_eq!(c.click(d), JackAction { disconnect: false, connect: None });
    assert_eq!(c.click(b), JackAction { disconnect: true, connect: Some(d.index) });
    assert_eq!(c.connection_of(a), Connection::Unconnected);
    assert_eq!(c.connection_of(d), Connection::Head { endpoint: b.index });
    assert_eq!(c.connection_of(b), Connection::Tail { endpoint: d.index });
}

#[test]
fn jacks_restart_wire_after_drop() {
    let mut c = JackContext::new();
    let a = c.new_jack();
    let b = c.new_jack();
    c.click(a);
    c.drop_jack(a);
    assert!(!c.alive(a));
    assert_eq!(c.click(b), JackAction { disconnect: false, connect: None });
    assert_eq!(c.connection_of(b), Connection::Floating);
}

#[test]
fn counter_counts_up() {
    let (values, last) = count_up(5, 3);
    assert_eq!(values, vec![6, 7, 8]);
    assert_eq!(last, 8);
    let (values, last) = count_up(5, 0);
    assert!(values.is_empty());
    assert_eq!(last, 5);
}

#[test]
fn drag_starts_on_title_bar_press_and_stops_on_release() {
    assert_eq!(
        drag_change(true, false, true, MouseButton::Left, ButtonState::Pressed),
        DragChange::Start
    );
    assert_eq!(
        drag_change(true, false, false, MouseButton::Left, ButtonState::Pressed),
        DragChange::Keep
    );
    assert_eq!(
        drag_change(true, false, false, MouseButton::Left, ButtonState::Released),
        DragChange::Stop
    );
}

#[test]
fn drag_ignores_unfocused_delete_button_and_other_buttons() {
    assert_eq!(
        drag_change(false, false, true, MouseButton::Left, ButtonState::Pressed),
        DragChange::Keep
    );
    assert_eq!(
        drag_change(true, true, true, MouseButton::Left, ButtonState::Pressed),
        DragChange::Keep
    );
    assert_eq!(
        drag_change(true, false, true, MouseButton::Right, ButtonState::Pressed),
        DragChange::Keep
    );
    assert_eq!(
        drag_change(true, true, false, MouseButton::Left, ButtonState::Released),
        DragChange::Keep
    );
}

#[test]
fn jacks_wire_records_an_existing_connection() {
    let mut c = JackContext::new();
    let a = c.new_jack();
    let b = c.new_jack();
    let d = c.new_jack();
    c.wire(a, b);
    assert_eq!(c.connection_of(a), Connection::Head { endpoint: b.index });
    assert_eq!(c.connection_of(b), Connection::Tail { endpoint: a.index });
    assert_eq!(c.connection_of(d), Connection::Unconnected);
    assert_eq!(c.endpoint_jack(b), Some(a));
    // a click on the tail takes it off the wire and starts a new one
    assert_eq!(c.click(b), JackAction { disconnect: true, connect: None });
    assert_eq!(c.connection_of(a), Connection::Unconnected);
    assert_eq!(c.connection_of(b), Connection::Floating);
}

#[test]
fn textbox_insert_then_backspace_restores_text() {
    let mut t = TextBox::new("ab".to_string());
    t.set_focused(true);
    assert_eq!(t.handle(&key(KeyCode::Right)), TextBoxUpdate::NeedRender);
    assert_eq!(t.cursor, 1);
    assert_eq!(t.handle(&event(EventData::Character('x'))), TextBoxUpdate::NeedRender);
    assert_eq!(t.content, "axb");
    assert_eq!(t.cursor, 2);
    assert_eq!(t.handle(&event(EventData::Character(BACKSPACE))), TextBoxUpdate::NeedRender);
    assert_eq!(t.content, "ab");
    assert_eq!(t.cursor, 1);
}

#[test]
fn jack_click_needs_focus_left_press_inside() {
    let mut c = JackContext::new();
    let a = c.new_jack();
    let none = JackAction { disconnect: false, connect: None };
    assert_eq!(c.handle_click(a, false, true, MouseButton::Left, ButtonState::Pressed), none);
    assert_eq!(c.handle_click(a, true, false, MouseButton::Left, ButtonState::Pressed), none);
    assert_eq!(c.handle_click(a, true, true, MouseButton::Right, ButtonState::Pressed), none);
    assert_eq!(c.handle_click(a, true, true, MouseButton::Left, ButtonState::Released), none);
    assert_eq!(c.connection_of(a), Connection::Unconnected);
    assert_eq!(c.handle_click(a, true, true, MouseButton::Left, ButtonState::Pressed), none);
    assert_eq!(c.connection_of(a), Connection::Floating);
}

#[test]
fn rounds_restart_or_stop_at_their_end() {
    assert_eq!(round_next(0, 3, true, true), Some(1));
    assert_eq!(round_next(1, 3, true, false), Some(2));
    assert_eq!(round_next(2, 3, true, false), Some(0));
    assert_eq!(round_next(2, 3, true, true), None);
    assert_eq!(round_next(0, 3, false, false), Some(0));
    assert_eq!(round_next(1, 3, false, true), None);
}
