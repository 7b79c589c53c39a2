use egui_snarl::{InPinId, NodeId as SnarlNodeId, OutPinId};
use graph_lib::editor::{NodesEditor, NodesEditorError};
use graph_lib::error::GraphError;
use graph_lib::layout::Layout2d;
use graph_lib::pin_type::PinType;
use graph_lib::snarl::ViewNodeId;

fn at(x: f32, y: f32) -> Layout2d {
    Layout2d::from_bits(x.to_bits(), y.to_bits())
}

#[test]
fn editor_insert_and_connect_record_changes() {
    let mut ed = NodesEditor::<&str, ()>::new();
    assert!(!ed.take_graph_changes().any());
    let l = at(40.0, 40.0);
    let a = ed.insert_node_with_pin_types("f", l, &[], &[PinType::Float]);
    let b = ed.insert_node("s", at(280.0, 40.0), 1, 0);
    let c = ed.take_graph_changes();
    assert!(c.topology_changed && c.payload_or_layout_changed);
    assert!(!ed.take_graph_changes().any());
    let va = ed.view_node_id(a).unwrap();
    assert_eq!(ed.core_node_id(va), Some(a));
    let cell = ed.node_graph.get_node_info(SnarlNodeId(va.0)).unwrap();
    assert_eq!(cell.value, a.get() as u64);
    assert!(cell.open);
    assert_eq!(cell.pos, egui::pos2(40.0, 40.0));
    let vb = ed.view_node_id(b).unwrap();
    assert_eq!(ed.node_graph.get_node_info(SnarlNodeId(vb.0)).unwrap().pos, egui::pos2(280.0, 40.0));
    let out = ed.graph.node(a).unwrap().outputs[0].id;
    let inp = ed.graph.node(b).unwrap().inputs[0].id;
    let lid = ed.connect_pins(out, inp, ()).unwrap();
    assert_eq!(lid.get(), 1);
    assert_eq!(ed.node_graph.wires().count(), 1);
    assert!(ed.take_graph_changes().topology_changed);
    assert_eq!(
        ed.connect_pins(out, inp, ()),
        Err(NodesEditorError::Graph(GraphError::DuplicateLink { from: out, to: inp }))
    );
    assert!(!ed.take_graph_changes().any());
}

#[test]
fn editor_rejected_wire_rolls_back() {
    let mut ed = NodesEditor::<(), ()>::default();
    let a = ed.insert_node((), Layout2d::default(), 0, 1);
    let b = ed.insert_node((), Layout2d::default(), 1, 0);
    let va = ed.view_node_id(a).unwrap();
    let vb = ed.view_node_id(b).unwrap();
    ed.node_graph.connect(OutPinId { node: SnarlNodeId(va.0), output: 0 }, InPinId { node: SnarlNodeId(vb.0), input: 0 });
    let _ = ed.take_graph_changes();
    let out = ed.graph.node(a).unwrap().outputs[0].id;
    let inp = ed.graph.node(b).unwrap().inputs[0].id;
    assert_eq!(ed.connect_pins(out, inp, ()), Err(NodesEditorError::ViewRejectedWire));
    assert!(ed.graph.links.is_empty());
    assert!(!ed.take_graph_changes().any());
}

#[test]
fn editor_remove_view_nodes_counts_each_cell_once() {
    let mut ed = NodesEditor::<(), ()>::new();
    let a = ed.insert_node((), Layout2d::default(), 0, 1);
    let b = ed.insert_node((), Layout2d::default(), 1, 0);
    let out = ed.graph.node(a).unwrap().outputs[0].id;
    let inp = ed.graph.node(b).unwrap().inputs[0].id;
    ed.connect_pins(out, inp, ()).unwrap();
    let _ = ed.take_graph_changes();
    let va = ed.view_node_id(a).unwrap();
    assert_eq!(ed.remove_view_nodes(&[va, va, ViewNodeId(1234)]), 1);
    assert!(ed.graph.node(a).is_none());
    assert!(ed.graph.links.is_empty());
    assert_eq!(ed.view_node_id(a), None);
    assert_eq!(ed.core_node_id(va), None);
    assert_eq!(ed.node_graph.nodes().count(), 1);
    assert!(ed.take_graph_changes().topology_changed);
    assert_eq!(ed.remove_view_nodes(&[va]), 0);
    assert!(!ed.take_graph_changes().any());
}

#[test]
fn editor_sync_takes_layout_and_wires_from_view() {
    let mut ed = NodesEditor::<(), ()>::new();
    let a = ed.insert_node((), at(0.0, 0.0), 0, 1);
    let b = ed.insert_node((), at(1.0, 0.0), 1, 0);
    let _ = ed.take_graph_changes();
    ed.sync_graph_from_node_graph();
    assert!(!ed.take_graph_changes().any());
    let va = SnarlNodeId(ed.view_node_id(a).unwrap().0);
    let vb = SnarlNodeId(ed.view_node_id(b).unwrap().0);
    ed.node_graph.get_node_info_mut(vb).unwrap().pos = egui::pos2(9.0, 8.0);
    ed.sync_graph_from_node_graph();
    assert_eq!(ed.graph.node(b).unwrap().layout, at(9.0, 8.0));
    let c = ed.take_graph_changes();
    assert!(!c.topology_changed && c.payload_or_layout_changed);
    ed.node_graph.connect(OutPinId { node: va, output: 0 }, InPinId { node: vb, input: 0 });
    ed.sync_graph_from_node_graph();
    let out = ed.graph.node(a).unwrap().outputs[0].id;
    let inp = ed.graph.node(b).unwrap().inputs[0].id;
    assert_eq!(ed.graph.link_key_set(), vec![(out, inp)]);
    let c = ed.take_graph_changes();
    assert!(c.topology_changed && c.payload_or_layout_changed);
    // a wire to a pin the node does not have stands for no link
    ed.node_graph.connect(OutPinId { node: va, output: 3 }, InPinId { node: vb, input: 0 });
    ed.sync_graph_from_node_graph();
    assert_eq!(ed.graph.links.len(), 1);
    ed.node_graph.disconnect(OutPinId { node: va, output: 0 }, InPinId { node: vb, input: 0 });
    ed.sync_graph_from_node_graph();
    assert!(ed.graph.links.is_empty());
}

#[test]
fn editor_pushes_collapse_state_to_view() {
    let mut ed = NodesEditor::<(), ()>::new();
    let a = ed.insert_node((), Layout2d::default(), 0, 0);
    ed.graph.node_mut(a).unwrap().collapsed = true;
    ed.sync_node_graph_payloads_from_graph();
    let va = SnarlNodeId(ed.view_node_id(a).unwrap().0);
    assert!(!ed.node_graph.get_node_info(va).unwrap().open);
}

#[test]
fn connect_to_an_unshown_node_leaves_no_link() {
    let mut ed = NodesEditor::<(), ()>::new();
    let shown = ed.insert_node((), Layout2d::default(), 1, 0);
    let hidden = ed.graph.add_node((), Layout2d::default(), 0, 1);
    assert_eq!(ed.view_node_id(hidden), None);
    let from = ed.graph.node(hidden).unwrap().outputs[0].id;
    let to = ed.graph.node(shown).unwrap().inputs[0].id;
    let before = ed.graph.links.len();
    let _ = ed.take_graph_changes();
    assert_eq!(ed.connect_pins(from, to, ()), Err(NodesEditorError::UnmappedNode(hidden)));
    assert_eq!(ed.graph.links.len(), before);
    assert_eq!(ed.node_graph.wires().count(), 0);
    assert!(!ed.take_graph_changes().any());
}

#[test]
fn layouts_compare_as_numbers() {
    assert_eq!(at(0.0, 1.0), at(-0.0, 1.0));
    assert_ne!(at(f32::NAN, 1.0), at(f32::NAN, 1.0));
    assert_ne!(at(1.0, 2.0), at(1.0, 2.5));
}

#[test]
fn sync_flags_layout_changes_as_numbers() {
    let mut ed = NodesEditor::<(), ()>::new();
    let a = ed.insert_node((), at(0.0, 0.0), 0, 0);
    let va = SnarlNodeId(ed.view_node_id(a).unwrap().0);
    let _ = ed.take_graph_changes();
    // -0.0 is the same position as 0.0: no change is recorded
    ed.node_graph.get_node_info_mut(va).unwrap().pos = egui::pos2(-0.0, 0.0);
    ed.sync_graph_from_node_graph();
    assert!(!ed.take_graph_changes().any());
    // a NaN coordinate equals nothing, so every sync records a change
    ed.node_graph.get_node_info_mut(va).unwrap().pos = egui::pos2(f32::NAN, 0.0);
    ed.sync_graph_from_node_graph();
    assert!(ed.take_graph_changes().payload_or_layout_changed);
    ed.sync_graph_from_node_graph();
    assert!(ed.take_graph_changes().payload_or_layout_changed);
}

#[test]
fn sync_adds_only_links_the_graph_accepts() {
    let mut ed = NodesEditor::<(), ()>::new();
    let a = ed.insert_node_with_pin_types((), at(0.0, 0.0), &[], &[PinType::Float]);
    let b = ed.insert_node_with_pin_types((), at(1.0, 0.0), &[PinType::Int], &[]);
    let va = SnarlNodeId(ed.view_node_id(a).unwrap().0);
    let vb = SnarlNodeId(ed.view_node_id(b).unwrap().0);
    // the view draws a wire between pins of incompatible types: the graph refuses the link
    ed.node_graph.connect(OutPinId { node: va, output: 0 }, InPinId { node: vb, input: 0 });
    let _ = ed.take_graph_changes();
    ed.sync_graph_from_node_graph();
    assert!(ed.graph.links.is_empty());
    assert!(!ed.take_graph_changes().topology_changed);
}

#[test]
fn wire_count_counts_the_views_wires() {
    let mut ed = NodesEditor::<(), ()>::new();
    assert_eq!(graph_lib::snarl::wire_count(&ed.node_graph), 0);
    let a = ed.insert_node((), at(0.0, 0.0), 0, 2);
    let b = ed.insert_node((), at(1.0, 0.0), 2, 0);
    let va = SnarlNodeId(ed.view_node_id(a).unwrap().0);
    let vb = SnarlNodeId(ed.view_node_id(b).unwrap().0);
    ed.node_graph.connect(OutPinId { node: va, output: 0 }, InPinId { node: vb, input: 0 });
    ed.node_graph.connect(OutPinId { node: va, output: 1 }, InPinId { node: vb, input: 1 });
    ed.node_graph.connect(OutPinId { node: va, output: 1 }, InPinId { node: vb, input: 1 });
    assert_eq!(graph_lib::snarl::wire_count(&ed.node_graph), 2);
}
