use graph_lib::layout::Layout2d;
use graph_lib::workspace::NodesWorkspace;

#[test]
fn workspace_starts_with_one_active_tab() {
    let root = egui::Id::new("nodes-workspace");
    let ws = NodesWorkspace::<&str, ()>::new(root);
    assert_eq!(ws.root_id(), root);
    assert_eq!(ws.active_index(), 0);
    assert_eq!(ws.active_tab_key(), Some(0));
    assert_eq!(ws.tab_key_at(0), Some(0));
    assert_eq!(ws.tab_key_at(1), None);
    assert!(ws.tab_canvas_id_at(0).is_some());
    assert!(ws.tab_canvas_id_at(1).is_none());
    assert_eq!(ws.active_canvas_id(), ws.tab_canvas_id_at(0));
    let ed = ws.active_editor().unwrap();
    assert!(ed.graph.nodes.is_empty());
    assert!(ed.graph.links.is_empty());
}

#[test]
fn add_tab_activates_it_with_a_fresh_key_and_canvas() {
    let root = egui::Id::new("nodes-workspace");
    let mut ws = NodesWorkspace::<&str, ()>::new(root);
    let seed = ws.add_tab("Graph 2".to_owned());
    let (from, to) = seed.expect("a first tab to copy the view from");
    assert_eq!(ws.active_index(), 1);
    assert_eq!(ws.tab_key_at(1), Some(1));
    assert_eq!(ws.active_tab_key(), Some(1));
    assert_eq!(Some(from), ws.tab_canvas_id_at(0));
    assert_eq!(Some(to), ws.tab_canvas_id_at(1));
    assert_ne!(ws.tab_canvas_id_at(0), ws.tab_canvas_id_at(1));
    assert_ne!(ws.tab_canvas_id_at(1), Some(root));
    ws.add_tab("Graph 3".to_owned());
    assert_eq!(ws.tab_key_at(0), Some(0));
    assert_eq!(ws.tab_key_at(1), Some(1));
    assert_eq!(ws.tab_key_at(2), Some(2));
    assert_eq!(ws.active_index(), 2);
}

#[test]
fn active_editor_mut_edits_only_the_active_tab() {
    let mut ws = NodesWorkspace::<&str, ()>::new(egui::Id::new("ws"));
    ws.add_tab("Graph 2".to_owned());
    let ed = ws.active_editor_mut().unwrap();
    let l = Layout2d::from_bits(1.0f32.to_bits(), 2.0f32.to_bits());
    ed.insert_node("n", l, 1, 1);
    assert_eq!(ws.active_editor().unwrap().graph.nodes.len(), 1);
}
