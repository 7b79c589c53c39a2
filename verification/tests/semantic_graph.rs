use graph_lib::ids::{SemanticEdgeId, SemanticNodeId};
use graph_lib::layout::Layout2d;
use graph_lib::semantic::{GraphError, SemanticEdge, SemanticGraph, SemanticNode};

fn at(x: f32, y: f32) -> Layout2d {
    Layout2d::from_bits(x.to_bits(), y.to_bits())
}

#[test]
fn insert_connect_remove() {
    let mut g = SemanticGraph::<&str, ()>::new();
    let a = g.insert_node(SemanticNode::new("a", at(0.0, 0.0)));
    let b = g.insert_node(SemanticNode::new("b", at(100.0, 0.0)));
    let e = g.connect(a, 0, b, 0, ()).unwrap();
    assert_eq!(g.edge_count(), 1);
    assert!(g.disconnect_edge(e).is_some());
    assert_eq!(g.edge_count(), 0);
    g.remove_node(a).unwrap();
    assert_eq!(g.node_count(), 1);
}

#[test]
fn semantic_ids_start_at_one_and_grow() {
    let mut g = SemanticGraph::<u8, u8>::default();
    let a = g.insert_node(SemanticNode::new(1, Layout2d::default()));
    let b = g.insert_node(SemanticNode::new(2, Layout2d::default()));
    assert_eq!(a, SemanticNodeId(1));
    assert_eq!(b, SemanticNodeId(2));
    assert_eq!(g.node(a).unwrap().payload, 1);
    assert!(!g.node(a).unwrap().collapsed);
    let e = g.connect(a, 0, b, 1, 9).unwrap();
    assert_eq!(e, SemanticEdgeId(1));
    assert_eq!(
        g.edge(e),
        Some(&SemanticEdge { from: a, out_port: 0, to: b, in_port: 1, payload: 9 })
    );
    g.remove_node(b).unwrap();
    let c = g.insert_node(SemanticNode::new(3, Layout2d::default()));
    assert_eq!(c, SemanticNodeId(3));
}

#[test]
fn semantic_connect_errors() {
    let mut g = SemanticGraph::<(), ()>::new();
    let a = g.insert_node(SemanticNode::new((), Layout2d::default()));
    let b = g.insert_node(SemanticNode::new((), Layout2d::default()));
    let ghost = SemanticNodeId(77);
    assert_eq!(g.connect(a, 0, a, 0, ()), Err(GraphError::SelfConnection { node: a }));
    assert_eq!(g.connect(ghost, 0, b, 0, ()), Err(GraphError::UnknownNode(ghost)));
    assert_eq!(g.connect(a, 0, ghost, 0, ()), Err(GraphError::UnknownNode(ghost)));
    g.connect(a, 0, b, 0, ()).unwrap();
    assert_eq!(
        g.connect(a, 0, b, 0, ()),
        Err(GraphError::DuplicateEdge { from: a, out_port: 0, to: b, in_port: 0 })
    );
    assert!(g.connect(a, 1, b, 0, ()).is_ok());
    assert_eq!(g.edge_count(), 2);
}

#[test]
fn semantic_remove_node_drops_incident_edges() {
    let mut g = SemanticGraph::<(), ()>::new();
    let a = g.insert_node(SemanticNode::new((), Layout2d::default()));
    let b = g.insert_node(SemanticNode::new((), Layout2d::default()));
    let c = g.insert_node(SemanticNode::new((), Layout2d::default()));
    g.connect(a, 0, b, 0, ()).unwrap();
    g.connect(b, 0, c, 0, ()).unwrap();
    let keep = g.connect(a, 0, c, 0, ()).unwrap();
    assert!(g.remove_node(b).is_some());
    assert_eq!(g.edge_count(), 1);
    assert!(g.edge(keep).is_some());
    assert!(g.remove_node(b).is_none());
    assert_eq!(g.node_count(), 2);
}

#[test]
fn semantic_disconnect_pins_and_neighbors() {
    let mut g = SemanticGraph::<(), ()>::new();
    let a = g.insert_node(SemanticNode::new((), Layout2d::default()));
    let b = g.insert_node(SemanticNode::new((), Layout2d::default()));
    let c = g.insert_node(SemanticNode::new((), Layout2d::default()));
    let e1 = g.connect(a, 0, b, 0, ()).unwrap();
    g.connect(a, 1, b, 1, ()).unwrap();
    g.connect(a, 0, c, 0, ()).unwrap();
    let mut n = g.outgoing_neighbors(a);
    n.sort();
    assert_eq!(n, vec![b, c]);
    assert!(g.outgoing_neighbors(c).is_empty());
    assert_eq!(g.disconnect_pins(a, 0, b, 0), Some(e1));
    assert_eq!(g.disconnect_pins(a, 0, b, 0), None);
    assert_eq!(g.edge_count(), 2);
    g.clear_edges();
    assert_eq!(g.edge_count(), 0);
    assert_eq!(g.node_count(), 3);
}

#[test]
fn semantic_node_mut_and_iterators() {
    let mut g = SemanticGraph::<i32, ()>::new();
    let a = g.insert_node(SemanticNode::new(1, Layout2d::default()));
    g.node_mut(a).unwrap().payload = 4;
    g.node_mut(a).unwrap().collapsed = true;
    assert_eq!(g.node(a).unwrap().payload, 4);
    assert!(g.node(a).unwrap().collapsed);
    assert_eq!(g.nodes_iter().len(), 1);
    assert_eq!(g.nodes_iter()[0].0, a);
    assert_eq!(g.node_ids(), vec![a]);
    assert!(g.edges_iter().is_empty());
    assert!(g.node_mut(SemanticNodeId(99)).is_none());
}
