use flow_synth::event::{ButtonState, KeyCode, KeyEvent, KeyModifiers, MouseButton};
use flow_synth::flow::{Graph, NodeId, Port};
use flow_synth::gui::{gui_main, Model};
use flow_synth::menu::MenuUpdate;
use flow_synth::module_gui::GuiModuleUpdate;
use flow_synth::root::{
    click_menu_action, focused_module_action, key_command, module_to_create, pointer_focus, KeyCommand,
    ModuleAction,
};
use flow_synth::save::{restore_connection, save_connections, SavedConnection};

fn mods(ctrl: bool, shift: bool) -> KeyModifiers {
    KeyModifiers { shift, ctrl, alt: false, logo: false }
}

#[test]
fn key_shortcuts() {
    let save = KeyEvent { code: KeyCode::S, modifiers: mods(true, false), state: ButtonState::Pressed };
    assert_eq!(key_command(&save), KeyCommand::Save);
    let load = KeyEvent { code: KeyCode::L, modifiers: mods(true, false), state: ButtonState::Pressed };
    assert_eq!(key_command(&load), KeyCommand::Load);
    let shifted = KeyEvent { code: KeyCode::S, modifiers: mods(true, true), state: ButtonState::Pressed };
    assert_eq!(key_command(&shifted), KeyCommand::Forward);
    let released = KeyEvent { code: KeyCode::S, modifiers: mods(true, false), state: ButtonState::Released };
    assert_eq!(key_command(&released), KeyCommand::Forward);
    let plain = KeyEvent { code: KeyCode::S, modifiers: mods(false, false), state: ButtonState::Pressed };
    assert_eq!(key_command(&plain), KeyCommand::Forward);
}

#[test]
fn pointer_focus_goes_to_menu_or_first_hit_module() {
    assert_eq!(pointer_focus(true, &[true, true]), None);
    assert_eq!(pointer_focus(false, &[false, true, true]), Some(1));
    assert_eq!(pointer_focus(false, &[false, false]), None);
}

#[test]
fn context_menu_opens_and_closes() {
    assert_eq!(click_menu_action(MouseButton::Right, ButtonState::Pressed, false, false), (true, false));
    assert_eq!(click_menu_action(MouseButton::Left, ButtonState::Pressed, true, false), (false, true));
    assert_eq!(click_menu_action(MouseButton::Left, ButtonState::Pressed, true, true), (false, false));
    assert_eq!(click_menu_action(MouseButton::Left, ButtonState::Released, true, false), (false, false));
    assert_eq!(click_menu_action(MouseButton::Left, ButtonState::Pressed, false, false), (false, false));
}

#[test]
fn gui_main_starts_empty_and_tracks_depth() {
    let mut model: Model = gui_main();
    assert!(model.node_z.is_empty());
    let a = model.graph.add_node().id;
    let b = model.graph.add_node().id;
    model.update_depth();
    assert_eq!(model.node_z, vec![a, b]);
    assert_eq!(model.press(&[true, false]), Some(a));
    assert_eq!(model.node_z, vec![b, a]);
    assert_eq!(model.press(&[true, true]), Some(a));
    assert_eq!(model.node_z, vec![b, a]);
    assert_eq!(model.press(&[false, false]), None);
    model.graph.remove_node(b).unwrap();
    let c = model.graph.add_node().id;
    model.update_depth();
    assert_eq!(model.node_z, vec![a, c]);
}

#[test]
fn press_ignores_nodes_that_left_the_graph() {
    let mut model = Model::new();
    let a = model.graph.add_node().id;
    let b = model.graph.add_node().id;
    model.update_depth();
    model.graph.remove_node(b).unwrap();
    assert_eq!(model.press(&[true, true]), Some(a));
    assert_eq!(model.node_z, vec![b, a]);
}

#[test]
fn saving_writes_each_connection_once() {
    let mut g = Graph::new();
    let a = g.add_node();
    let b = g.add_node();
    let out: Port<u8, u8> = a.add_port(&mut g, "Output".to_string());
    let spare: Port<u8, u8> = a.add_port(&mut g, "Spare".to_string());
    let inp: Port<u8, u8> = b.add_port(&mut g, "Input".to_string());
    out.connect(&mut g, &inp).unwrap();
    let saved = save_connections(&g, &[a.id, b.id]);
    assert_eq!(
        saved,
        vec![SavedConnection { src_node: a.id, src_port: out.id, dst_node: b.id, dst_port: inp.id }]
    );
    let reversed = save_connections(&g, &[b.id, a.id]);
    assert_eq!(
        reversed,
        vec![SavedConnection { src_node: b.id, src_port: inp.id, dst_node: a.id, dst_port: out.id }]
    );
    let only_a = save_connections(&g, &[a.id]);
    assert_eq!(only_a.len(), 1);
    assert!(save_connections(&g, &[]).is_empty());
    let _ = spare;
}

#[test]
fn loading_restores_connections_by_name() {
    let mut g = Graph::new();
    let a = g.add_node();
    let b = g.add_node();
    let out: Port<u8, u8> = a.add_port(&mut g, "Output".to_string());
    let inp: Port<u8, u8> = b.add_port(&mut g, "Input".to_string());
    assert!(!restore_connection(&mut g, a.id, "Nope", b.id, "Input"));
    assert_eq!(g.edge(out.id), None);
    assert!(restore_connection(&mut g, a.id, "Output", b.id, "Input"));
    assert_eq!(g.edge(out.id), Some(inp.id));
    let _ = NodeId(0);
}

#[test]
fn focused_module_after_click_is_removed_or_brought_forward() {
    assert_eq!(focused_module_action(true, GuiModuleUpdate::Closed), ModuleAction::Remove);
    assert_eq!(focused_module_action(true, GuiModuleUpdate::Unchanged), ModuleAction::BringToFront);
    assert_eq!(focused_module_action(false, GuiModuleUpdate::Closed), ModuleAction::Keep);
    assert_eq!(focused_module_action(false, GuiModuleUpdate::Unchanged), ModuleAction::Keep);
}

#[test]
fn menu_selection_names_the_module_to_create() {
    let update = MenuUpdate::Select(vec!["Counter".to_string(), "x".to_string()]);
    assert_eq!(module_to_create(&update), Some("Counter".to_string()));
    assert_eq!(module_to_create(&MenuUpdate::Select(vec![])), None);
    assert_eq!(module_to_create(&MenuUpdate::NeedRender), None);
    assert_eq!(module_to_create(&MenuUpdate::Unchanged), None);
}

#[test]
fn depth_lists_each_node_once() {
    let mut m = Model::new();
    let a = m.graph.add_node().id;
    let b = m.graph.add_node().id;
    m.update_depth();
    m.update_depth();
    assert_eq!(m.node_z, vec![a, b]);
    m.graph.remove_node(a).unwrap();
    m.update_depth();
    assert_eq!(m.node_z, vec![b]);
}

#[test]
fn saved_connections_restore_the_same_edges() {
    fn build() -> (Graph, NodeId, NodeId, Port<u8, u8>, Port<u8, u8>, Port<u8, u8>) {
        let mut g = Graph::new();
        let a = g.add_node();
        let b = g.add_node();
        let out: Port<u8, u8> = a.add_port(&mut g, "Output".to_string());
        let inp: Port<u8, u8> = b.add_port(&mut g, "Input".to_string());
        let other: Port<u8, u8> = b.add_port(&mut g, "Other".to_string());
        (g, a.id, b.id, out, inp, other)
    }
    let (mut g, a, b, out, inp, _other) = build();
    assert!(g.connect(out.id, inp.id).is_ok());
    let saved = save_connections(&g, &[a, b]);
    assert_eq!(saved.len(), 1);
    let (mut h, _, _, out2, inp2, other2) = build();
    for c in &saved {
        let src = g.port_name_str(c.src_port).to_string();
        let dst = g.port_name_str(c.dst_port).to_string();
        assert!(restore_connection(&mut h, c.src_node, &src, c.dst_node, &dst));
    }
    assert_eq!(h.edge(out2.id), Some(inp2.id));
    assert_eq!(h.edge(inp2.id), Some(out2.id));
    assert_eq!(h.edge(other2.id), None);
}
