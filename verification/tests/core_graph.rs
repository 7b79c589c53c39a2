use graph_lib::error::GraphError;
use graph_lib::eval::{
    compute_topological_order, dependency_graph_is_acyclic, gather_inputs_for_node,
    record_outputs, EvalContext, Executor, NodeEvaluator, PinValues,
};
use graph_lib::ids::{LinkId, NodeId, PinId};
use graph_lib::layout::Layout2d;
use graph_lib::model::{Graph, Link, PinKind};
use graph_lib::pin_type::PinType;

fn at(x: f32, y: f32) -> Layout2d {
    Layout2d::from_bits(x.to_bits(), y.to_bits())
}

#[test]
fn add_connect() {
    let mut g = Graph::<&str, ()>::new();
    let a = g.add_node("a", at(0.0, 0.0), 0, 1);
    let b = g.add_node("b", at(1.0, 0.0), 1, 0);
    let out_a = g.node(a).unwrap().outputs[0].id;
    let in_b = g.node(b).unwrap().inputs[0].id;
    let _ = g.connect(out_a, in_b, ()).unwrap();
    assert_eq!(g.links.len(), 1);
}

#[test]
fn topological_order_respects_dependencies() {
    let mut g = Graph::<(), ()>::new();
    let a = g.add_node((), Layout2d::default(), 0, 1);
    let b = g.add_node((), Layout2d::default(), 1, 1);
    let c = g.add_node((), Layout2d::default(), 1, 0);
    let oa = g.node(a).unwrap().outputs[0].id;
    let ib = g.node(b).unwrap().inputs[0].id;
    let ob = g.node(b).unwrap().outputs[0].id;
    let ic = g.node(c).unwrap().inputs[0].id;
    g.connect(oa, ib, ()).unwrap();
    g.connect(ob, ic, ()).unwrap();
    let order = compute_topological_order(&g);
    let pos_a = order.iter().position(|&n| n == a).unwrap();
    let pos_b = order.iter().position(|&n| n == b).unwrap();
    let pos_c = order.iter().position(|&n| n == c).unwrap();
    assert!(pos_a < pos_b && pos_b < pos_c);
}

#[test]
fn ids_labels_and_pins_of_new_nodes() {
    let mut g = Graph::<u8, ()>::new();
    let a = g.add_node(7, at(3.0, 4.0), 2, 1);
    let b = g.add_node(8, Layout2d::default(), 0, 0);
    assert_eq!(a.get(), 1);
    assert_eq!(b.get(), 2);
    let n = g.node(a).unwrap();
    assert_eq!(n.label, "Node 1");
    assert_eq!(n.data, 7);
    assert!(!n.collapsed);
    assert_eq!(n.layout, at(3.0, 4.0));
    assert_eq!(n.inputs.len(), 2);
    assert_eq!(n.outputs.len(), 1);
    assert_eq!(n.inputs[0].label, "in0");
    assert_eq!(n.inputs[1].label, "in1");
    assert_eq!(n.outputs[0].label, "out0");
    assert_eq!(n.inputs[0].id.get(), 1);
    assert_eq!(n.inputs[1].id.get(), 2);
    assert_eq!(n.outputs[0].id.get(), 3);
    assert_eq!(n.inputs[0].kind, PinKind::Input);
    assert_eq!(n.outputs[0].kind, PinKind::Output);
    assert_eq!(n.inputs[0].ty, PinType::Any);
    assert_eq!(g.node(b).unwrap().label, "Node 2");
    assert_eq!(g.pin_port(n.outputs[0].id), Some((a, 0, true)));
    assert_eq!(g.pin_port(n.inputs[1].id), Some((a, 1, false)));
    assert_eq!(g.pin_port(PinId::from_raw(99).unwrap()), None);
    assert!(NodeId::from_raw(0).is_none());
}

#[test]
fn connect_errors_in_order() {
    let mut g = Graph::<(), ()>::new();
    let a = g.add_node_with_pin_types((), Layout2d::default(), &[PinType::Int], &[PinType::Int]);
    let b = g.add_node_with_pin_types((), Layout2d::default(), &[PinType::Bool], &[PinType::Any]);
    let ia = g.node(a).unwrap().inputs[0].id;
    let oa = g.node(a).unwrap().outputs[0].id;
    let ib = g.node(b).unwrap().inputs[0].id;
    let ob = g.node(b).unwrap().outputs[0].id;
    let unknown = PinId::from_raw(1000).unwrap();
    assert_eq!(g.connect(oa, oa, ()), Err(GraphError::SelfLoop));
    assert_eq!(g.connect(unknown, ib, ()), Err(GraphError::UnknownPin(unknown)));
    assert_eq!(g.connect(ia, ib, ()), Err(GraphError::NotOutputPin(ia)));
    assert_eq!(g.connect(oa, unknown, ()), Err(GraphError::UnknownPin(unknown)));
    assert_eq!(g.connect(oa, ob, ()), Err(GraphError::NotInputPin(ob)));
    assert_eq!(g.connect(oa, ib, ()), Err(GraphError::PinTypeMismatch { from: oa, to: ib }));
    assert!(g.links.is_empty());
    let l = g.connect(ob, ia, ()).unwrap();
    assert_eq!(l.get(), 1);
    assert_eq!(g.connect(ob, ia, ()), Err(GraphError::DuplicateLink { from: ob, to: ia }));
    assert_eq!(g.links.len(), 1);
}

#[test]
fn disconnect_link_undoes_connect() {
    let mut g = Graph::<(), u32>::new();
    let a = g.add_node((), Layout2d::default(), 1, 1);
    let b = g.add_node((), Layout2d::default(), 1, 1);
    let oa = g.node(a).unwrap().outputs[0].id;
    let ib = g.node(b).unwrap().inputs[0].id;
    let ob = g.node(b).unwrap().outputs[0].id;
    let ia = g.node(a).unwrap().inputs[0].id;
    let first = g.connect(oa, ib, 10).unwrap();
    let before: Vec<(PinId, PinId)> = g.link_key_set();
    let second = g.connect(ob, ia, 20).unwrap();
    let removed = g.disconnect_link(second).unwrap();
    assert_eq!(removed.id, second);
    assert_eq!(removed.data, 20);
    assert_eq!(g.link_key_set(), before);
    assert!(g.disconnect_link(second).is_none());
    assert_eq!(g.links[0].id, first);
    // ids are never reused
    let third = g.connect(ob, ia, 30).unwrap();
    assert_eq!(third.get(), 3);
}

#[test]
fn remove_node_drops_its_links() {
    let mut g = Graph::<(), ()>::new();
    let a = g.add_node((), Layout2d::default(), 0, 1);
    let b = g.add_node((), Layout2d::default(), 1, 1);
    let c = g.add_node((), Layout2d::default(), 1, 0);
    let oa = g.node(a).unwrap().outputs[0].id;
    let ib = g.node(b).unwrap().inputs[0].id;
    let ob = g.node(b).unwrap().outputs[0].id;
    let ic = g.node(c).unwrap().inputs[0].id;
    g.connect(oa, ib, ()).unwrap();
    g.connect(ob, ic, ()).unwrap();
    g.connect(oa, ic, ()).unwrap();
    let removed = g.remove_node(b).unwrap();
    assert_eq!(removed.id, b);
    assert!(g.node(b).is_none());
    assert_eq!(g.nodes.len(), 2);
    assert_eq!(g.link_key_set(), vec![(oa, ic)]);
    assert!(g.remove_node(b).is_none());
    assert_eq!(g.pin_port(ib), None);
    let d = g.add_node((), Layout2d::default(), 0, 0);
    assert_eq!(d.get(), 4);
}

#[test]
fn prune_stale_links_keeps_live_ones() {
    let mut g = Graph::<(), ()>::new();
    let a = g.add_node((), Layout2d::default(), 0, 1);
    let b = g.add_node((), Layout2d::default(), 1, 0);
    let oa = g.node(a).unwrap().outputs[0].id;
    let ib = g.node(b).unwrap().inputs[0].id;
    g.connect(oa, ib, ()).unwrap();
    g.links.push(Link { id: LinkId::from_raw(50).unwrap(), from: oa, to: PinId::from_raw(77).unwrap(), data: () });
    g.prune_stale_links();
    assert_eq!(g.link_key_set(), vec![(oa, ib)]);
}

#[test]
fn node_mut_and_iterators() {
    let mut g = Graph::<i32, ()>::new();
    let a = g.add_node(1, Layout2d::default(), 0, 0);
    g.node_mut(a).unwrap().data = 5;
    g.node_mut(a).unwrap().collapsed = true;
    assert_eq!(g.node(a).unwrap().data, 5);
    assert!(g.node(a).unwrap().collapsed);
    assert_eq!(g.nodes_iter().len(), 1);
    assert_eq!(g.links_iter().len(), 0);
    assert!(g.node_mut(NodeId::from_raw(9).unwrap()).is_none());
    assert!(PinType::compatible_link(PinType::Any, PinType::Int));
    assert!(PinType::compatible_link(PinType::Int, PinType::Any));
    assert!(!PinType::compatible_link(PinType::Int, PinType::Float));
    assert_eq!(PinType::default(), PinType::Any);
}

fn chain_with_cycle() -> (Graph<(), ()>, NodeId, NodeId, NodeId, NodeId) {
    // a -> b -> c -> b (cycle), d alone
    let mut g = Graph::<(), ()>::new();
    let a = g.add_node((), Layout2d::default(), 0, 1);
    let b = g.add_node((), Layout2d::default(), 2, 1);
    let c = g.add_node((), Layout2d::default(), 1, 1);
    let d = g.add_node((), Layout2d::default(), 0, 0);
    let oa = g.node(a).unwrap().outputs[0].id;
    let ib0 = g.node(b).unwrap().inputs[0].id;
    let ib1 = g.node(b).unwrap().inputs[1].id;
    let ob = g.node(b).unwrap().outputs[0].id;
    let ic = g.node(c).unwrap().inputs[0].id;
    let oc = g.node(c).unwrap().outputs[0].id;
    g.connect(oa, ib0, ()).unwrap();
    g.connect(ob, ic, ()).unwrap();
    g.connect(oc, ib1, ()).unwrap();
    (g, a, b, c, d)
}

#[test]
fn cyclic_nodes_follow_in_id_order() {
    let (g, a, b, c, d) = chain_with_cycle();
    assert!(!dependency_graph_is_acyclic(&g));
    let order = compute_topological_order(&g);
    assert_eq!(order, vec![a, d, b, c]);
}

#[test]
fn acyclic_graph_is_recognised() {
    let mut g = Graph::<(), ()>::new();
    assert!(dependency_graph_is_acyclic(&g));
    assert!(compute_topological_order(&g).is_empty());
    let a = g.add_node((), Layout2d::default(), 1, 1);
    let b = g.add_node((), Layout2d::default(), 1, 1);
    let ob = g.node(b).unwrap().outputs[0].id;
    let ia = g.node(a).unwrap().inputs[0].id;
    g.connect(ob, ia, ()).unwrap();
    assert!(dependency_graph_is_acyclic(&g));
    assert_eq!(compute_topological_order(&g), vec![b, a]);
    let oa = g.node(a).unwrap().outputs[0].id;
    let ib = g.node(b).unwrap().inputs[0].id;
    g.connect(oa, ib, ()).unwrap();
    assert!(!dependency_graph_is_acyclic(&g));
    assert_eq!(compute_topological_order(&g), vec![a, b]);
}

#[test]
fn kahn_releases_successors_in_link_order() {
    let mut g = Graph::<(), ()>::new();
    let s = g.add_node((), Layout2d::default(), 0, 1);
    let x = g.add_node((), Layout2d::default(), 1, 0);
    let y = g.add_node((), Layout2d::default(), 1, 0);
    let os = g.node(s).unwrap().outputs[0].id;
    let ix = g.node(x).unwrap().inputs[0].id;
    let iy = g.node(y).unwrap().inputs[0].id;
    g.connect(os, iy, ()).unwrap();
    g.connect(os, ix, ()).unwrap();
    assert_eq!(compute_topological_order(&g), vec![s, y, x]);
}

struct Adder;

impl EvalContext for Adder {}

struct SumEval {
    calls: usize,
}

impl NodeEvaluator<i64, (), Adder, i64> for SumEval {
    fn eval_node(&mut self, graph: &Graph<i64, ()>, node_id: NodeId, _ctx: &Adder, input_values: &[(PinId, i64)]) -> Vec<(PinId, i64)> {
        self.calls += 1;
        let node = graph.node(node_id).unwrap();
        let sum: i64 = node.data + input_values.iter().map(|(_, v)| *v).sum::<i64>();
        node.outputs.iter().map(|p| (p.id, sum)).collect()
    }
}

#[test]
fn executor_evaluates_in_dependency_order() {
    let mut g = Graph::<i64, ()>::new();
    let c = g.add_node(100, Layout2d::default(), 2, 0);
    let a = g.add_node(1, Layout2d::default(), 0, 1);
    let b = g.add_node(10, Layout2d::default(), 1, 1);
    let oa = g.node(a).unwrap().outputs[0].id;
    let ib = g.node(b).unwrap().inputs[0].id;
    let ob = g.node(b).unwrap().outputs[0].id;
    let ic0 = g.node(c).unwrap().inputs[0].id;
    let ic1 = g.node(c).unwrap().inputs[1].id;
    g.connect(oa, ib, ()).unwrap();
    g.connect(ob, ic0, ()).unwrap();
    g.connect(oa, ic1, ()).unwrap();
    let mut ex = Executor::new(g, SumEval { calls: 0 });
    let results = ex.evaluate(&Adder);
    let order: Vec<NodeId> = results.iter().map(|(n, _)| *n).collect();
    assert_eq!(order, vec![a, b, c]);
    assert_eq!(results[0].1, vec![(oa, 1)]);
    assert_eq!(results[1].1, vec![(ob, 11)]);
    assert!(results[2].1.is_empty());
    assert_eq!(ex.evaluator.calls, 3);
    ex.recompute_topology();
    assert_eq!(ex.evaluate(&Adder).len(), 3);
}

#[test]
fn gather_inputs_uses_first_link_per_input() {
    let mut g = Graph::<(), ()>::new();
    let a = g.add_node((), Layout2d::default(), 0, 1);
    let b = g.add_node((), Layout2d::default(), 0, 1);
    let c = g.add_node((), Layout2d::default(), 2, 0);
    let oa = g.node(a).unwrap().outputs[0].id;
    let ob = g.node(b).unwrap().outputs[0].id;
    let ic0 = g.node(c).unwrap().inputs[0].id;
    let ic1 = g.node(c).unwrap().inputs[1].id;
    g.connect(oa, ic0, ()).unwrap();
    g.connect(ob, ic0, ()).unwrap();
    g.connect(ob, ic1, ()).unwrap();
    let mut values: PinValues<i32> = PinValues::new();
    values.insert(ob, 2);
    // the first link into ic0 comes from oa, which has no value yet
    assert_eq!(gather_inputs_for_node(&g, c, &values), vec![(ic1, 2)]);
    record_outputs(&mut values, &[(oa, 1), (oa, 5)]);
    assert_eq!(values.get(oa), Some(&5));
    assert_eq!(gather_inputs_for_node(&g, c, &values), vec![(ic0, 5), (ic1, 2)]);
    assert!(gather_inputs_for_node(&g, NodeId::from_raw(42).unwrap(), &values).is_empty());
}

#[test]
fn graph_default_is_empty() {
    let g: Graph<(), ()> = Graph::default();
    assert!(g.nodes.is_empty() && g.links.is_empty());
}

fn out_pin(g: &Graph<(), ()>, n: NodeId, k: usize) -> PinId {
    g.node(n).unwrap().outputs[k].id
}

fn in_pin(g: &Graph<(), ()>, n: NodeId, k: usize) -> PinId {
    g.node(n).unwrap().inputs[k].id
}

#[test]
fn topological_order_follows_the_queue() {
    // a and b have no inputs; a feeds d, b feeds c: the queue hands out a, b, then d
    // (released by a) before c (released by b), although c has the smaller id.
    let mut g = Graph::<(), ()>::new();
    let a = g.add_node((), Layout2d::default(), 0, 1);
    let b = g.add_node((), Layout2d::default(), 0, 1);
    let c = g.add_node((), Layout2d::default(), 1, 0);
    let d = g.add_node((), Layout2d::default(), 1, 0);
    let (oa, ob, ic, id) = (out_pin(&g, a, 0), out_pin(&g, b, 0), in_pin(&g, c, 0), in_pin(&g, d, 0));
    g.connect(oa, id, ()).unwrap();
    g.connect(ob, ic, ()).unwrap();
    assert_eq!(compute_topological_order(&g), vec![a, b, d, c]);
}

#[test]
fn topological_order_releases_in_link_order() {
    // a feeds c first, then b: c comes before b.
    let mut g = Graph::<(), ()>::new();
    let a = g.add_node((), Layout2d::default(), 0, 2);
    let b = g.add_node((), Layout2d::default(), 1, 0);
    let c = g.add_node((), Layout2d::default(), 1, 0);
    let (o0, o1, ib, ic) = (out_pin(&g, a, 0), out_pin(&g, a, 1), in_pin(&g, b, 0), in_pin(&g, c, 0));
    g.connect(o0, ic, ()).unwrap();
    g.connect(o1, ib, ()).unwrap();
    assert_eq!(compute_topological_order(&g), vec![a, c, b]);
}

#[test]
fn topological_order_waits_for_the_last_input() {
    // c reads from a and from b; b is released by a; c comes after b, released by b.
    let mut g = Graph::<(), ()>::new();
    let a = g.add_node((), Layout2d::default(), 0, 2);
    let b = g.add_node((), Layout2d::default(), 1, 1);
    let c = g.add_node((), Layout2d::default(), 2, 0);
    let e = g.add_node((), Layout2d::default(), 1, 0);
    let (oa0, oa1, ob) = (out_pin(&g, a, 0), out_pin(&g, a, 1), out_pin(&g, b, 0));
    let (ib, ic0, ic1, ie) = (in_pin(&g, b, 0), in_pin(&g, c, 0), in_pin(&g, c, 1), in_pin(&g, e, 0));
    g.connect(oa0, ic0, ()).unwrap();
    g.connect(oa1, ib, ()).unwrap();
    g.connect(ob, ic1, ()).unwrap();
    g.connect(oa1, ie, ()).unwrap();
    assert_eq!(compute_topological_order(&g), vec![a, b, e, c]);
}

#[test]
fn removed_node_ids_are_not_reused() {
    let mut g = Graph::<(), ()>::new();
    let a = g.add_node((), Layout2d::default(), 1, 1);
    let b = g.add_node((), Layout2d::default(), 0, 0);
    assert!(g.remove_node(b).is_some());
    let c = g.add_node((), Layout2d::default(), 0, 0);
    assert_ne!(c, b);
    assert_ne!(c, a);
    assert_eq!(c.get(), 3);
    assert!(g.node(b).is_none());
}

#[test]
fn executor_follows_graph_edits_after_recompute() {
    let mut g = Graph::<i64, ()>::new();
    let a = g.add_node(1, Layout2d::default(), 1, 1);
    let b = g.add_node(2, Layout2d::default(), 1, 1);
    let mut ex = Executor::new(g, SumEval { calls: 0 });
    let ob = ex.graph.node(b).unwrap().outputs[0].id;
    let ia = ex.graph.node(a).unwrap().inputs[0].id;
    ex.graph.connect(ob, ia, ()).unwrap();
    let stale: Vec<NodeId> = ex.evaluate(&Adder).iter().map(|(n, _)| *n).collect();
    assert_eq!(stale, vec![a, b]);
    ex.recompute_topology();
    let results = ex.evaluate(&Adder);
    let order: Vec<NodeId> = results.iter().map(|(n, _)| *n).collect();
    assert_eq!(order, compute_topological_order(&ex.graph));
    assert_eq!(order, vec![b, a]);
    let oa = ex.graph.node(a).unwrap().outputs[0].id;
    assert_eq!(results[1].1, vec![(oa, 3)]);
}
