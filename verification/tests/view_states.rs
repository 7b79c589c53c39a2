use graph_lib::canvas_state;
use graph_lib::default_node::{pin_types_for_default_node, DefaultNodeKind};
use graph_lib::editor::{format_graph_changes, GraphChanges};
use graph_lib::pin_type::PinType;
use graph_lib::shell_state;
use graph_lib::shell_viewer::NodesShellViewer;
use graph_lib::style::{mix_colors, GridRenderMode, NodeLayout, NodeLayoutKind};
use graph_lib::view_state::{mode_label, InteractionMode, NodesViewState};

#[test]
fn toggle_inspect_returns_to_previous_mode() {
    let mut s = NodesViewState::default();
    assert_eq!(s.mode, InteractionMode::Select);
    s.set_mode(InteractionMode::Connect);
    assert!(!s.is_inspect());
    s.toggle_inspect();
    assert!(s.is_inspect());
    assert_eq!(s.mode, InteractionMode::Inspect);
    s.toggle_inspect();
    assert_eq!(s.mode, InteractionMode::Connect);
}

#[test]
fn leaving_inspect_without_memory_selects() {
    let mut s = NodesViewState::default();
    s.set_mode(InteractionMode::Inspect);
    s.toggle_inspect();
    assert_eq!(s.mode, InteractionMode::Select);
}

#[test]
fn shell_state_toggles_like_the_editor_state() {
    let mut s = shell_state::NodesViewState::default();
    s.set_mode(shell_state::InteractionMode::EditNode);
    s.toggle_inspect();
    assert!(s.is_inspect());
    s.toggle_inspect();
    assert_eq!(s.mode, shell_state::InteractionMode::EditNode);
    assert!(!s.is_inspect());
}

#[test]
fn mode_labels() {
    assert_eq!(mode_label(InteractionMode::Select), "Select");
    assert_eq!(mode_label(InteractionMode::PanZoom), "Pan / zoom");
    assert_eq!(mode_label(InteractionMode::Connect), "Connect");
    assert_eq!(mode_label(InteractionMode::InsertNode), "Insert node");
    assert_eq!(mode_label(InteractionMode::EditNode), "Edit node");
    assert_eq!(mode_label(InteractionMode::Inspect), "Inspect (read-only)");
    assert_eq!(InteractionMode::default(), InteractionMode::Select);
}

#[test]
fn graph_changes_text() {
    let none = GraphChanges::default();
    assert!(!none.any());
    assert_eq!(format_graph_changes(&none), "none (idle)");
    let topo = GraphChanges { topology_changed: true, payload_or_layout_changed: false };
    assert!(topo.any());
    assert_eq!(format_graph_changes(&topo), "topology");
    let pay = GraphChanges { topology_changed: false, payload_or_layout_changed: true };
    assert_eq!(format_graph_changes(&pay), "payload/layout");
    let both = GraphChanges { topology_changed: true, payload_or_layout_changed: true };
    assert_eq!(format_graph_changes(&both), "topology + payload/layout");
}

#[test]
fn style_defaults_and_canvas_state() {
    assert_eq!(GridRenderMode::default(), GridRenderMode::Lines);
    assert_eq!(NodeLayoutKind::default(), NodeLayoutKind::Coil);
    let _ = canvas_state::NodesViewState::default();
}

#[test]
fn default_node_pins_match_the_canvas() {
    let (i, o) = pin_types_for_default_node(DefaultNodeKind::Float);
    assert!(i.is_empty());
    assert_eq!(o, vec![PinType::Float]);
    let (i, o) = pin_types_for_default_node(DefaultNodeKind::Sink);
    assert_eq!(i, vec![PinType::Any]);
    assert!(o.is_empty());
    let (_, o) = pin_types_for_default_node(DefaultNodeKind::Button);
    assert_eq!(o, vec![PinType::Bang]);
    for k in [DefaultNodeKind::Button, DefaultNodeKind::Int, DefaultNodeKind::Str, DefaultNodeKind::Float, DefaultNodeKind::Sink] {
        let (i, o) = pin_types_for_default_node(k);
        assert_eq!(i.len(), k.inputs());
        assert_eq!(o.len(), k.outputs());
    }
    assert_eq!(DefaultNodeKind::Str.title(), "String");
    assert_eq!(DefaultNodeKind::Int.title(), "Int");
}

#[test]
fn node_layout_builders() {
    let c = NodeLayout::coil();
    assert_eq!(c.kind, NodeLayoutKind::Coil);
    assert_eq!(c.min_pin_row_height_bits, 0);
    assert!(!c.equal_pin_row_heights);
    assert_eq!(NodeLayout::default(), c);
    assert_eq!(NodeLayout::from(NodeLayoutKind::Sandwich), NodeLayout::sandwich());
    let f = NodeLayout::flipped_sandwich().with_equal_pin_rows().with_min_pin_row_height(12.5f32.to_bits());
    assert_eq!(f.kind, NodeLayoutKind::FlippedSandwich);
    assert!(f.equal_pin_row_heights);
    assert_eq!(f32::from_bits(f.min_pin_row_height_bits), 12.5);
    let g = f.with_min_pin_row_height(0);
    assert!(g.equal_pin_row_heights);
    assert_eq!(g.kind, NodeLayoutKind::FlippedSandwich);
}

#[test]
fn wire_color_is_the_rounded_down_midpoint() {
    assert_eq!(mix_colors([255, 0, 10, 255], [0, 0, 21, 255]), [127, 0, 15, 255]);
    assert_eq!(mix_colors([1, 2, 3, 4], [1, 2, 3, 4]), [1, 2, 3, 4]);
    assert_eq!(mix_colors([255, 255, 255, 255], [254, 255, 0, 1]), [254, 255, 127, 128]);
}

#[test]
fn shell_viewer_refuses_edits_in_inspect_mode() {
    let mut shell = NodesShellViewer::new(7u8);
    assert_eq!(shell.inner, 7);
    assert!(shell.forwards_edits());
    let canvas = egui::Id::new("canvas");
    shell.prepare(canvas, InteractionMode::Inspect);
    assert_eq!(shell.canvas_id(), canvas);
    assert!(!shell.forwards_edits());
    shell.prepare(canvas, InteractionMode::Connect);
    assert!(shell.forwards_edits());
    assert_eq!(shell.inner, 7);
}

#[test]
fn mode_getters_read_the_current_mode() {
    let mut s = NodesViewState::default();
    assert_eq!(s.mode(), InteractionMode::Select);
    s.toggle_inspect();
    assert_eq!(s.mode(), InteractionMode::Inspect);
    let mut t = shell_state::NodesViewState::default();
    t.set_mode(InteractionMode::Connect);
    assert_eq!(t.mode(), InteractionMode::Connect);
    let mut shell = NodesShellViewer::new(());
    assert_eq!(shell.mode(), InteractionMode::Select);
    shell.prepare(egui::Id::new("c"), InteractionMode::PanZoom);
    assert_eq!(shell.mode(), InteractionMode::PanZoom);
}
