use flow_synth::flow::{ConnectError, Error, Graph, NodeId, OpaquePort, Port};

fn two_nodes() -> (Graph, flow_synth::flow::Interface, flow_synth::flow::Interface) {
    let mut g = Graph::new();
    let a = g.add_node();
    let b = g.add_node();
    (g, a, b)
}

#[test]
fn ids_are_drawn_from_one_counter() {
    let mut g = Graph::new();
    assert_eq!(g.peek_next_id(), 0);
    let a = g.add_node();
    assert_eq!(a.id(), NodeId(0));
    let p: Port<u8, u16> = a.add_port(&mut g, "In".to_string());
    assert_eq!(p.id().0, 1);
    let b = g.add_node();
    assert_eq!(b.id(), NodeId(2));
    assert_eq!(g.peek_next_id(), 3);
}

#[test]
fn nodes_in_order_and_removal() {
    let mut g = Graph::new();
    let a = g.add_node();
    let b = g.add_node();
    let c = g.add_node();
    let ids: Vec<NodeId> = g.nodes().iter().map(|n| n.id()).collect();
    assert_eq!(ids, vec![a.id, b.id, c.id]);
    let removed = g.remove_node(b.id).unwrap();
    assert_eq!(removed.id(), b.id);
    assert!(g.node(b.id).is_none());
    assert!(g.node(a.id).is_some());
    assert_eq!(g.remove_node(b.id).err(), Some(Error::InvalidNode));
    let map: Vec<NodeId> = g.node_map().iter().map(|(id, _)| *id).collect();
    assert_eq!(map, vec![a.id, c.id]);
}

#[test]
fn find_and_remove_ports_by_name() {
    let mut g = Graph::new();
    let a = g.add_node();
    let p1: Port<u8, u8> = a.add_port(&mut g, "Input".to_string());
    let p2: Port<u8, u8> = a.add_port(&mut g, "Output".to_string());
    let node = g.node(a.id).unwrap();
    assert_eq!(node.find_port(&g, "Output").unwrap().id, p2.id);
    assert!(node.find_port(&g, "Missing").is_none());
    let listed: Vec<_> = a.ports(&g).iter().map(|p| p.id).collect();
    assert_eq!(listed, vec![p1.id, p2.id]);
    assert_eq!(a.remove_port(&mut g, p1.id).unwrap().id, p1.id);
    assert!(a.find_port(&g, "Input").is_none());
    assert_eq!(a.remove_port(&mut g, p1.id).err(), Some(Error::InvalidPort));
    assert_eq!(p1.name(&g), "Input");
}

#[test]
fn write_then_read_in_order() {
    let (mut g, a, b) = two_nodes();
    let out: Port<u8, u8> = a.add_port(&mut g, "Out".to_string());
    let inp: Port<u8, u8> = b.add_port(&mut g, "In".to_string());
    assert_eq!(out.connect(&mut g, &inp), Ok(()));
    assert_eq!(g.edge(out.id), Some(inp.id));
    assert_eq!(g.edge(inp.id), Some(out.id));
    assert!(out.write(&mut g, &[1, 2, 3]));
    assert!(out.write1(&mut g, &[4]));
    assert_eq!(inp.read_n(&mut g, 2), Ok(Some(vec![1, 2])));
    assert_eq!(inp.read1(&mut g), Ok(Some(vec![3])));
    assert_eq!(inp.read(&mut g), Ok(Some(vec![4])));
    assert_eq!(inp.read(&mut g), Ok(None));
    assert_eq!(inp.read_n(&mut g, 1), Ok(None));
}

#[test]
fn read_n_counts_items_not_bytes() {
    let (mut g, a, b) = two_nodes();
    let out: Port<u32, u32> = a.add_port(&mut g, "Out".to_string());
    let inp: Port<u32, u32> = b.add_port(&mut g, "In".to_string());
    out.connect(&mut g, &inp).unwrap();
    assert!(out.write(&mut g, &[1, 0, 0, 0, 2, 0]));
    assert_eq!(inp.read_n(&mut g, 2), Ok(None));
    assert_eq!(inp.read1(&mut g), Ok(Some(vec![1, 0, 0, 0])));
    assert_eq!(inp.read(&mut g), Ok(Some(vec![2, 0])));
}

#[test]
fn write_while_unconnected_waits() {
    let (mut g, a, _b) = two_nodes();
    let out: Port<u8, u8> = a.add_port(&mut g, "Out".to_string());
    assert!(!out.write(&mut g, &[9]));
    assert_eq!(out.read(&mut g), Ok(None));
}

#[test]
fn connect_errors() {
    let (mut g, a, b) = two_nodes();
    let x: Port<u8, u16> = a.add_port(&mut g, "X".to_string());
    let y: Port<u16, u8> = b.add_port(&mut g, "Y".to_string());
    let z: Port<u16, u8> = b.add_port(&mut g, "Z".to_string());
    let w: Port<u32, u8> = b.add_port(&mut g, "W".to_string());
    assert_eq!(g.connect(x.id, w.id), Err(ConnectError::TypeMismatch));
    assert_eq!(x.connect(&mut g, &y), Ok(()));
    assert_eq!(x.connect(&mut g, &z), Err(ConnectError::AlreadyConnected));
    assert_eq!(z.disconnect(&mut g), Err(ConnectError::NotConnected));
}

#[test]
fn disconnect_fails_one_read_on_each_end() {
    let (mut g, a, b) = two_nodes();
    let out: Port<u8, u8> = a.add_port(&mut g, "Out".to_string());
    let inp: Port<u8, u8> = b.add_port(&mut g, "In".to_string());
    out.connect(&mut g, &inp).unwrap();
    assert!(out.write(&mut g, &[7]));
    assert_eq!(inp.disconnect(&mut g), Ok(()));
    assert_eq!(g.edge(out.id), None);
    assert_eq!(g.edge(inp.id), None);
    assert_eq!(inp.read(&mut g), Err(Error::Disconnected));
    assert_eq!(inp.read(&mut g), Ok(Some(vec![7])));
    assert_eq!(out.read(&mut g), Err(Error::Disconnected));
    assert_eq!(out.read(&mut g), Ok(None));
    assert_eq!(out.connect(&mut g, &inp), Ok(()));
}

#[test]
fn opaque_ports_downcast_by_type() {
    let (mut g, a, _b) = two_nodes();
    let p: Port<u8, u16> = a.add_port(&mut g, "P".to_string());
    let opaque: OpaquePort = p.as_opaque();
    assert_eq!(opaque.id, p.id);
    assert!(opaque.as_typed::<u8, u16>(&g).is_some());
    assert!(opaque.as_typed::<u16, u8>(&g).is_none());
    let (i, o) = g.port_types(p.id);
    assert!(opaque.has_types(&g, &i, &o));
    assert!(!opaque.has_types(&g, &o, &i));
    assert_eq!(i, std::any::TypeId::of::<u8>());
    assert_eq!(o, std::any::TypeId::of::<u16>());
}

#[test]
fn removed_node_keeps_its_ports() {
    let (mut g, a, b) = two_nodes();
    let out: Port<u8, u8> = a.add_port(&mut g, "Out".to_string());
    let inp: Port<u8, u8> = b.add_port(&mut g, "In".to_string());
    out.connect(&mut g, &inp).unwrap();
    g.remove_node(a.id).unwrap();
    assert!(g.has_interface(a.id));
    assert!(g.has_port(out.id));
    assert_eq!(g.port_list(a.id), vec![out.id]);
    assert!(out.write(&mut g, &[5]));
    assert_eq!(inp.read(&mut g), Ok(Some(vec![5])));
}
