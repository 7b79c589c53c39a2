use egui_snarl::{InPinId, NodeId as SnarlNodeId, OutPinId, Snarl};
use graph_lib::bridge::{BridgeError, SemanticSnarlBridge};
use graph_lib::ids::SemanticNodeId;
use graph_lib::layout::Layout2d;
use graph_lib::semantic::{GraphError, SemanticGraph, SemanticNode};
use graph_lib::snarl::ViewNodeId;

fn at(x: f32, y: f32) -> Layout2d {
    Layout2d::from_bits(x.to_bits(), y.to_bits())
}

fn insert(b: &mut SemanticSnarlBridge, g: &mut SemanticGraph<&'static str, ()>, s: &mut Snarl<u64>, name: &'static str, l: Layout2d) -> SemanticNodeId {
    b.insert_node(g, s, SemanticNode::new(name, l))
}

#[test]
fn bridge_insert_maps_both_ways() {
    let mut g = SemanticGraph::new();
    let mut s: Snarl<u64> = Snarl::new();
    let mut b = SemanticSnarlBridge::new();
    assert!(b.is_empty());
    let a = insert(&mut b, &mut g, &mut s, "a", at(40.0, 40.0));
    let v = b.snarl_id(a).unwrap();
    assert_eq!(b.semantic_id(v), Some(a));
    assert_eq!(b.len(), 1);
    let info = s.get_node_info(SnarlNodeId(v.0)).unwrap();
    assert_eq!(info.value, a.0);
    assert!(info.open);
    assert_eq!(info.pos, egui::pos2(40.0, 40.0));
    let mut collapsed = SemanticNode::new("c", Layout2d::default());
    collapsed.collapsed = true;
    let c = b.insert_node(&mut g, &mut s, collapsed);
    let cinfo = s.get_node_info(SnarlNodeId(b.snarl_id(c).unwrap().0)).unwrap();
    assert!(!cinfo.open);
    assert_eq!(cinfo.pos, egui::pos2(0.0, 0.0));
    let neg = insert(&mut b, &mut g, &mut s, "n", at(-12.5, 1.0e9));
    let ninfo = s.get_node_info(SnarlNodeId(b.snarl_id(neg).unwrap().0)).unwrap();
    assert_eq!(ninfo.pos.x.to_bits(), (-12.5f32).to_bits());
    assert_eq!(ninfo.pos.y.to_bits(), 1.0e9f32.to_bits());
}

#[test]
fn bridge_connect_adds_edge_and_wire() {
    let mut g = SemanticGraph::new();
    let mut s: Snarl<u64> = Snarl::new();
    let mut b = SemanticSnarlBridge::default();
    let a = insert(&mut b, &mut g, &mut s, "a", at(40.0, 40.0));
    let c = insert(&mut b, &mut g, &mut s, "c", at(280.0, 40.0));
    let e = b.connect(&mut g, &mut s, a, 0, c, 0).unwrap();
    assert_eq!(g.edge_count(), 1);
    assert_eq!(s.wires().count(), 1);
    assert_eq!(b.connect(&mut g, &mut s, a, 0, a, 0), Err(BridgeError::Graph(GraphError::SelfConnection { node: a })));
    assert_eq!(
        b.connect(&mut g, &mut s, a, 0, c, 0),
        Err(BridgeError::Graph(GraphError::DuplicateEdge { from: a, out_port: 0, to: c, in_port: 0 }))
    );
    let removed = b.disconnect_edge(&mut g, &mut s, e).unwrap();
    assert_eq!(removed.from, a);
    assert_eq!(g.edge_count(), 0);
    assert_eq!(s.wires().count(), 0);
    assert!(b.disconnect_edge(&mut g, &mut s, e).is_none());
}

#[test]
fn bridge_rolls_back_rejected_wire() {
    let mut g = SemanticGraph::new();
    let mut s: Snarl<u64> = Snarl::new();
    let mut b = SemanticSnarlBridge::new();
    let a = insert(&mut b, &mut g, &mut s, "a", at(0.0, 0.0));
    let c = insert(&mut b, &mut g, &mut s, "c", at(1.0, 0.0));
    let va = b.snarl_id(a).unwrap();
    let vc = b.snarl_id(c).unwrap();
    s.connect(OutPinId { node: SnarlNodeId(va.0), output: 0 }, InPinId { node: SnarlNodeId(vc.0), input: 0 });
    assert_eq!(b.connect(&mut g, &mut s, a, 0, c, 0), Err(BridgeError::SnarlRejectedWire));
    assert_eq!(g.edge_count(), 0);
}

#[test]
fn bridge_unmapped_node_keeps_edge() {
    let mut g = SemanticGraph::new();
    let mut s: Snarl<u64> = Snarl::new();
    let mut b = SemanticSnarlBridge::new();
    let a = insert(&mut b, &mut g, &mut s, "a", at(0.0, 0.0));
    let lone = g.insert_node(SemanticNode::new("lone", Layout2d::default()));
    assert_eq!(b.connect(&mut g, &mut s, a, 0, lone, 0), Err(BridgeError::UnmappedSemantic(lone)));
    assert_eq!(g.edge_count(), 1);
    assert_eq!(b.semantic_id(ViewNodeId(999)), None);
}

#[test]
fn bridge_remove_node_everywhere() {
    let mut g = SemanticGraph::new();
    let mut s: Snarl<u64> = Snarl::new();
    let mut b = SemanticSnarlBridge::new();
    let a = insert(&mut b, &mut g, &mut s, "a", at(0.0, 0.0));
    let c = insert(&mut b, &mut g, &mut s, "c", at(1.0, 0.0));
    b.connect(&mut g, &mut s, a, 0, c, 0).unwrap();
    let n = b.remove_node(&mut g, &mut s, a).unwrap();
    assert_eq!(n.payload, "a");
    assert_eq!(g.node_count(), 1);
    assert_eq!(g.edge_count(), 0);
    assert_eq!(s.wires().count(), 0);
    assert_eq!(s.nodes().count(), 1);
    assert_eq!(b.snarl_id(a), None);
    assert!(b.remove_node(&mut g, &mut s, a).is_none());
}

#[test]
fn bridge_sync_follows_the_view() {
    let mut g = SemanticGraph::new();
    let mut s: Snarl<u64> = Snarl::new();
    let mut b = SemanticSnarlBridge::new();
    let a = insert(&mut b, &mut g, &mut s, "a", at(0.0, 0.0));
    let c = insert(&mut b, &mut g, &mut s, "c", at(1.0, 0.0));
    let d = insert(&mut b, &mut g, &mut s, "d", at(2.0, 0.0));
    let old = b.connect(&mut g, &mut s, a, 0, c, 0).unwrap();
    let va = SnarlNodeId(b.snarl_id(a).unwrap().0);
    let vc = SnarlNodeId(b.snarl_id(c).unwrap().0);
    let vd = SnarlNodeId(b.snarl_id(d).unwrap().0);
    // the user moves a, collapses c, rewires a -> d and adds c -> d
    s.get_node_info_mut(va).unwrap().pos = egui::pos2(5.0, 6.0);
    s.get_node_info_mut(vc).unwrap().open = false;
    s.disconnect(OutPinId { node: va, output: 0 }, InPinId { node: vc, input: 0 });
    s.connect(OutPinId { node: va, output: 0 }, InPinId { node: vd, input: 0 });
    s.connect(OutPinId { node: vc, output: 1 }, InPinId { node: vd, input: 2 });
    b.sync_graph_from_snarl(&mut g, &s);
    assert_eq!(g.node(a).unwrap().layout, at(5.0, 6.0));
    assert!(g.node(c).unwrap().collapsed);
    assert!(!g.node(d).unwrap().collapsed);
    assert!(g.edge(old).is_none());
    assert_eq!(g.edge_count(), 2);
    let mut keys: Vec<(u64, usize, u64, usize)> = g.edges_iter().iter().map(|(_, e)| (e.from.0, e.out_port, e.to.0, e.in_port)).collect();
    keys.sort();
    assert_eq!(keys, vec![(a.0, 0, d.0, 0), (c.0, 1, d.0, 2)]);
}

#[test]
fn bridge_sync_keeps_edge_ids_that_stay() {
    let mut g = SemanticGraph::new();
    let mut s: Snarl<u64> = Snarl::new();
    let mut b = SemanticSnarlBridge::new();
    let a = insert(&mut b, &mut g, &mut s, "a", at(0.0, 0.0));
    let c = insert(&mut b, &mut g, &mut s, "c", at(1.0, 0.0));
    let e = b.connect(&mut g, &mut s, a, 0, c, 0).unwrap();
    b.sync_edges_from_snarl(&mut g, &s);
    assert!(g.edge(e).is_some());
    assert_eq!(g.edge_count(), 1);
    b.sync_layout_from_snarl(&mut g, &s);
    assert_eq!(g.node(c).unwrap().layout, at(1.0, 0.0));
}
