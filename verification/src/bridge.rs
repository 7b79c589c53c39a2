//! Keeps a [`SemanticGraph`] and its editor view in step: maps semantic node ids to view
//! cells and back, applies inserts, removals and wires to both stores, and brings the
//! semantic graph up to date with what the user did in the view.

use vstd::prelude::*;

use egui_snarl::Snarl;

use crate::id_map::{IdMap, distinct_keys, entries_to_map};
use crate::ids::{SemanticEdgeId, SemanticNodeId};
use crate::layout::Layout2d;
use crate::model::decimal_digits;
use crate::semantic::{GraphError, SemanticEdge, SemanticGraph, SemanticNode, edge_joins, semantic_error_text};
use crate::text::numbered;
use crate::snarl::{
    ViewNodeId, snarl_cells, snarl_connect, snarl_disconnect, snarl_insert_node,
    snarl_insert_node_collapsed, snarl_node_info, snarl_remove_node, snarl_wire_list, snarl_wires,
    wires_without_cell,
};

verus! {

broadcast use crate::id_map::IdMap::lemma_finite;

/// Failures when applying one operation to the semantic graph and the view.
#[derive(Clone, Copy, Debug, PartialEq, Eq, Structural)]
pub enum BridgeError {
    Graph(GraphError),
    UnmappedSemantic(SemanticNodeId),
    UnmappedSnarl(ViewNodeId),
    /// The view refused a wire that the semantic graph accepted (the edge was rolled back).
    SnarlRejectedWire,
}

/// The message of a bridge error.
pub open spec fn bridge_error_text(e: BridgeError) -> Seq<char> {
    match e {
        BridgeError::Graph(g) => semantic_error_text(g),
        BridgeError::UnmappedSemantic(id) => "no Snarl node for semantic id "@ + decimal_digits(id.0 as nat),
        BridgeError::UnmappedSnarl(id) => "no semantic id for Snarl node index "@ + decimal_digits(id.0 as nat),
        BridgeError::SnarlRejectedWire => "Snarl rejected wire (duplicate or invalid)"@,
    }
}

impl BridgeError {
    /// The message shown for this error (a graph error's own message for
    /// [`BridgeError::Graph`]).
    pub fn to_string(&self) -> (r: String)
        ensures
            r@ == bridge_error_text(*self),
    {
        match self {
            BridgeError::Graph(g) => g.to_string(),
            BridgeError::UnmappedSemantic(id) => numbered("no Snarl node for semantic id ", id.0),
            BridgeError::UnmappedSnarl(id) => numbered("no semantic id for Snarl node index ", id.0 as u64),
            BridgeError::SnarlRejectedWire => "Snarl rejected wire (duplicate or invalid)".to_owned(),
        }
    }
}

impl From<GraphError> for BridgeError {
    /// A graph error, as the bridge reports it.
    fn from(value: GraphError) -> (r: Self) {
        BridgeError::Graph(value)
    }
}

impl vstd::std_specs::convert::FromSpecImpl<GraphError> for BridgeError {
    open spec fn obeys_from_spec() -> bool {
        true
    }

    open spec fn from_spec(v: GraphError) -> BridgeError {
        BridgeError::Graph(v)
    }
}

/// Semantic ids and view cells of the nodes shown in a view, in both directions.
#[derive(Clone, Debug)]
pub struct SemanticSnarlBridge {
    semantic_to_snarl: IdMap<SemanticNodeId, ViewNodeId>,
    snarl_to_semantic: IdMap<ViewNodeId, SemanticNodeId>,
}

/// The ports an edge joins.
pub open spec fn edge_key<E>(e: SemanticEdge<E>) -> (SemanticNodeId, usize, SemanticNodeId, usize) {
    (e.from, e.out_port, e.to, e.in_port)
}

/// The nodes of `nodes`, those shown in a cell of `cells` taking that cell's position and
/// collapse state.
pub open spec fn laid_out<N>(
    nodes: Map<SemanticNodeId, SemanticNode<N>>,
    shown: Map<SemanticNodeId, ViewNodeId>,
    cells: Map<usize, (u64, u32, u32, bool)>,
) -> Map<SemanticNodeId, SemanticNode<N>> {
    Map::new(
        |id: SemanticNodeId| nodes.dom().contains(id),
        |id: SemanticNodeId|
            if shown.dom().contains(id) && cells.dom().contains(shown[id].0) {
                SemanticNode {
                    payload: nodes[id].payload,
                    layout: Layout2d { x_bits: cells[shown[id].0].1, y_bits: cells[shown[id].0].2 },
                    collapsed: !cells[shown[id].0].3,
                }
            } else {
                nodes[id]
            },
    )
}

/// The edge keys the wires of a view stand for: each wire between two cells with a semantic
/// id, as the ports it joins.
pub open spec fn desired_keys(
    back: Map<ViewNodeId, SemanticNodeId>,
    wires: Set<(usize, usize, usize, usize)>,
) -> Set<(SemanticNodeId, usize, SemanticNodeId, usize)> {
    Set::new(
        |k: (SemanticNodeId, usize, SemanticNodeId, usize)|
            exists|w: (usize, usize, usize, usize)|
                #[trigger] wires.contains(w) && back.dom().contains(ViewNodeId(w.0)) && back.dom().contains(
                    ViewNodeId(w.2),
                ) && k == (back[ViewNodeId(w.0)], w.1, back[ViewNodeId(w.2)], w.3),
    )
}


/// Whether `keys` lists `k`.
fn has_key(keys: &Vec<(SemanticNodeId, usize, SemanticNodeId, usize)>, k: (SemanticNodeId, usize, SemanticNodeId, usize)) -> (r: bool)
    ensures
        r == keys@.contains(k),
{
    let mut i: usize = 0;
    while i < keys.len()
        invariant
            i <= keys@.len(),
            forall|j: int| 0 <= j < i ==> keys@[j] != k,
        decreases keys@.len() - i,
    {
        let c = keys[i];
        if c.0 == k.0 && c.1 == k.1 && c.2 == k.2 && c.3 == k.3 {
            assert(keys@[i as int] == k);
            return true;
        }
        i += 1;
    }
    false
}

/// Remove the edges whose ports `keys` does not list.
fn retain_edges_with_keys<N, E>(graph: &mut SemanticGraph<N, E>, keys: &Vec<(SemanticNodeId, usize, SemanticNodeId, usize)>)
    requires
        old(graph).wf(),
    ensures
        final(graph).wf(),
        final(graph).node_map() == old(graph).node_map(),
        final(graph).next_node() == old(graph).next_node(),
        final(graph).next_edge() == old(graph).next_edge(),
        forall|id: SemanticEdgeId| #[trigger] final(graph).edge_map().dom().contains(id) <==> old(graph).edge_map().dom().contains(id)
            && keys@.contains(edge_key(old(graph).edge_map()[id])),
        forall|id: SemanticEdgeId| #[trigger] final(graph).edge_map().dom().contains(id) ==> final(graph).edge_map()[id]
            == old(graph).edge_map()[id],
{
    let mut remove_ids: Vec<SemanticEdgeId> = Vec::new();
    {
        let es = graph.edges_iter();
        let mut i: usize = 0;
        while i < es.len()
            invariant
                distinct_keys(es@),
                entries_to_map(es@) == old(graph).edge_map(),
                i <= es@.len(),
                forall|id: SemanticEdgeId| #[trigger] remove_ids@.contains(id) <==> exists|j: int|
                    0 <= j < i && es@[j].0 == id && !keys@.contains(edge_key(#[trigger] es@[j].1)),
            decreases es@.len() - i,
        {
            let e = &es[i].1;
            let k = (e.from, e.out_port, e.to, e.in_port);
            let ghost r0 = remove_ids@;
            if !has_key(keys, k) {
                remove_ids.push(es[i].0);
            }
            proof {
                assert forall|id: SemanticEdgeId| #[trigger] remove_ids@.contains(id) <==> exists|j: int|
                    0 <= j < i + 1 && es@[j].0 == id && !keys@.contains(edge_key(#[trigger] es@[j].1)) by {
                    if remove_ids@.contains(id) {
                        let u = choose|u: int| 0 <= u < remove_ids@.len() && remove_ids@[u] == id;
                        if u < r0.len() {
                            assert(r0[u] == id);
                            assert(r0.contains(id));
                        } else {
                            assert(es@[i as int].0 == id && !keys@.contains(edge_key(es@[i as int].1)));
                        }
                    }
                    if exists|j: int| 0 <= j < i + 1 && es@[j].0 == id && !keys@.contains(edge_key(#[trigger] es@[j].1)) {
                        let j = choose|j: int| 0 <= j < i + 1 && es@[j].0 == id && !keys@.contains(edge_key(#[trigger] es@[j].1));
                        if j < i {
                            assert(r0.contains(id));
                            let u = choose|u: int| 0 <= u < r0.len() && r0[u] == id;
                            assert(remove_ids@[u] == id);
                        } else {
                            assert(remove_ids@[r0.len() as int] == id);
                        }
                    }
                }
            }
            i += 1;
        }
        proof {
            assert forall|id: SemanticEdgeId| #[trigger] remove_ids@.contains(id) <==> old(graph).edge_map().dom().contains(id)
                && !keys@.contains(edge_key(old(graph).edge_map()[id])) by {
                if remove_ids@.contains(id) {
                    let j = choose|j: int| 0 <= j < es@.len() && es@[j].0 == id && !keys@.contains(edge_key(#[trigger] es@[j].1));
                    crate::id_map::lemma_entry_in_map(es@, j);
                }
                if old(graph).edge_map().dom().contains(id) && !keys@.contains(edge_key(old(graph).edge_map()[id])) {
                    let j = choose|j: int| 0 <= j < es@.len() && #[trigger] es@[j].0 == id;
                    crate::id_map::lemma_entry_in_map(es@, j);
                    assert(es@[j].1 == old(graph).edge_map()[id]);
                }
            }
        }
    }
    let mut t: usize = 0;
    while t < remove_ids.len()
        invariant
            graph.wf(),
            graph.node_map() == old(graph).node_map(),
            graph.next_node() == old(graph).next_node(),
            graph.next_edge() == old(graph).next_edge(),
            t <= remove_ids@.len(),
            forall|id: SemanticEdgeId| #[trigger] remove_ids@.contains(id) <==> old(graph).edge_map().dom().contains(id)
                && !keys@.contains(edge_key(old(graph).edge_map()[id])),
            forall|id: SemanticEdgeId| #[trigger] graph.edge_map().dom().contains(id) <==> old(graph).edge_map().dom().contains(id)
                && !(exists|j: int| 0 <= j < t && remove_ids@[j] == id),
            forall|id: SemanticEdgeId| #[trigger] graph.edge_map().dom().contains(id) ==> graph.edge_map()[id]
                == old(graph).edge_map()[id],
        decreases remove_ids@.len() - t,
    {
        let id = remove_ids[t];
        let _ = graph.disconnect_edge(id);
        proof {
            assert forall|x: SemanticEdgeId| #[trigger] graph.edge_map().dom().contains(x) <==> old(graph).edge_map().dom().contains(x)
                && !(exists|j: int| 0 <= j < t + 1 && remove_ids@[j] == x) by {
                if exists|j: int| 0 <= j < t + 1 && remove_ids@[j] == x {
                    let j = choose|j: int| 0 <= j < t + 1 && remove_ids@[j] == x;
                    if j < t {
                        assert(exists|j2: int| 0 <= j2 < t && remove_ids@[j2] == x);
                    }
                }
                if exists|j: int| 0 <= j < t && remove_ids@[j] == x {
                    let j = choose|j: int| 0 <= j < t && remove_ids@[j] == x;
                    assert(0 <= j < t + 1 && remove_ids@[j] == x);
                }
            }
        }
        t += 1;
    }
    proof {
        assert forall|id: SemanticEdgeId| #[trigger] graph.edge_map().dom().contains(id) <==> old(graph).edge_map().dom().contains(id)
            && keys@.contains(edge_key(old(graph).edge_map()[id])) by {
            if exists|j: int| 0 <= j < remove_ids@.len() && remove_ids@[j] == id {
                let j = choose|j: int| 0 <= j < remove_ids@.len() && remove_ids@[j] == id;
                assert(remove_ids@.contains(id));
            }
            if old(graph).edge_map().dom().contains(id) && !keys@.contains(edge_key(old(graph).edge_map()[id])) {
                assert(remove_ids@.contains(id));
                let j = choose|j: int| 0 <= j < remove_ids@.len() && remove_ids@[j] == id;
            }
        }
    }
}


/// The ports of every edge of the graph.
fn edge_keys_of<N, E>(graph: &SemanticGraph<N, E>) -> (r: Vec<(SemanticNodeId, usize, SemanticNodeId, usize)>)
    requires
        graph.wf(),
    ensures
        forall|k: (SemanticNodeId, usize, SemanticNodeId, usize)| #[trigger] r@.contains(k) <==> exists|id: SemanticEdgeId|
            graph.edge_map().dom().contains(id) && edge_key(#[trigger] graph.edge_map()[id]) == k,
{
    let es = graph.edges_iter();
    let mut r: Vec<(SemanticNodeId, usize, SemanticNodeId, usize)> = Vec::new();
    let mut i: usize = 0;
    while i < es.len()
        invariant
            distinct_keys(es@),
            entries_to_map(es@) == graph.edge_map(),
            i <= es@.len(),
            r@.len() == i,
            forall|j: int| 0 <= j < i ==> #[trigger] r@[j] == edge_key(es@[j].1),
        decreases es@.len() - i,
    {
        let e = &es[i].1;
        r.push((e.from, e.out_port, e.to, e.in_port));
        i += 1;
    }
    proof {
        assert forall|k: (SemanticNodeId, usize, SemanticNodeId, usize)| #[trigger] r@.contains(k) <==> exists|id: SemanticEdgeId|
            graph.edge_map().dom().contains(id) && edge_key(#[trigger] graph.edge_map()[id]) == k by {
            if r@.contains(k) {
                let j = choose|j: int| 0 <= j < r@.len() && r@[j] == k;
                crate::id_map::lemma_entry_in_map(es@, j);
                assert(edge_key(graph.edge_map()[es@[j].0]) == k);
            }
            if exists|id: SemanticEdgeId| graph.edge_map().dom().contains(id) && edge_key(#[trigger] graph.edge_map()[id]) == k {
                let id = choose|id: SemanticEdgeId| graph.edge_map().dom().contains(id) && edge_key(#[trigger] graph.edge_map()[id]) == k;
                let j = choose|j: int| 0 <= j < es@.len() && #[trigger] es@[j].0 == id;
                crate::id_map::lemma_entry_in_map(es@, j);
                assert(r@[j] == k);
            }
        }
    }
    r
}

/// Connect the ports `keys` lists that no edge joins yet, in list order; a refused connection
/// (a node joined to itself, or an unknown node) is skipped.
fn add_missing_edges<N, E: Default>(graph: &mut SemanticGraph<N, E>, keys: &Vec<(SemanticNodeId, usize, SemanticNodeId, usize)>)
    requires
        old(graph).wf(),
        old(graph).next_edge() + keys@.len() < u64::MAX,
    ensures
        final(graph).wf(),
        final(graph).node_map() == old(graph).node_map(),
        final(graph).next_node() == old(graph).next_node(),
        forall|id: SemanticEdgeId| #[trigger] old(graph).edge_map().dom().contains(id) ==> final(graph).edge_map().dom().contains(id)
            && final(graph).edge_map()[id] == old(graph).edge_map()[id],
        forall|id: SemanticEdgeId| #[trigger] final(graph).edge_map().dom().contains(id) && !old(graph).edge_map().dom().contains(id)
            ==> keys@.contains(edge_key(final(graph).edge_map()[id])) && id.0 >= old(graph).next_edge(),
        forall|k: (SemanticNodeId, usize, SemanticNodeId, usize)|
            #[trigger] keys@.contains(k) && k.0 != k.2 && old(graph).node_map().dom().contains(k.0) && old(graph).node_map().dom().contains(k.2)
                ==> exists|id: SemanticEdgeId| final(graph).edge_map().dom().contains(id) && edge_key(#[trigger] final(graph).edge_map()[id]) == k,
{
    let mut have = edge_keys_of(graph);
    let mut j: usize = 0;
    while j < keys.len()
        invariant
            graph.wf(),
            graph.node_map() == old(graph).node_map(),
            graph.next_node() == old(graph).next_node(),
            old(graph).next_edge() + keys@.len() < u64::MAX,
            j <= keys@.len(),
            graph.next_edge() <= old(graph).next_edge() + j,
            graph.next_edge() >= old(graph).next_edge(),
            forall|id: SemanticEdgeId| #[trigger] old(graph).edge_map().dom().contains(id) ==> graph.edge_map().dom().contains(id)
                && graph.edge_map()[id] == old(graph).edge_map()[id],
            forall|id: SemanticEdgeId| #[trigger] graph.edge_map().dom().contains(id) && !old(graph).edge_map().dom().contains(id)
                ==> keys@.contains(edge_key(graph.edge_map()[id])) && id.0 >= old(graph).next_edge(),
            forall|k: (SemanticNodeId, usize, SemanticNodeId, usize)| #[trigger] have@.contains(k) <==> (exists|id: SemanticEdgeId|
                graph.edge_map().dom().contains(id) && edge_key(#[trigger] graph.edge_map()[id]) == k) || (exists|jj: int|
                0 <= jj < j && keys@[jj] == k),
            forall|jj: int|
                0 <= jj < j && (#[trigger] keys@[jj]).0 != keys@[jj].2 && old(graph).node_map().dom().contains(keys@[jj].0)
                    && old(graph).node_map().dom().contains(keys@[jj].2) ==> exists|id: SemanticEdgeId|
                    graph.edge_map().dom().contains(id) && edge_key(#[trigger] graph.edge_map()[id]) == keys@[jj],
        decreases keys@.len() - j,
    {
        let k = keys[j];
        if !has_key(&have, k) {
            let ghost g0 = *graph;
            proof {
                if g0.has_edge_between(k.0, k.1, k.2, k.3) {
                    let id = choose|id: SemanticEdgeId|
                        g0.edge_map().dom().contains(id) && #[trigger] edge_joins(g0.edge_map()[id], k.0, k.1, k.2, k.3);
                    assert(edge_key(g0.edge_map()[id]) == k);
                    assert(have@.contains(k));
                }
            }
            let r = graph.connect(k.0, k.1, k.2, k.3, E::default());
            let ghost h0 = have@;
            have.push(k);
            proof {
                assert forall|x: (SemanticNodeId, usize, SemanticNodeId, usize)| #[trigger] have@.contains(x) <==> (exists|id: SemanticEdgeId|
                    graph.edge_map().dom().contains(id) && edge_key(#[trigger] graph.edge_map()[id]) == x) || (exists|jj: int|
                    0 <= jj < j + 1 && keys@[jj] == x) by {
                    if have@.contains(x) {
                        let u = choose|u: int| 0 <= u < have@.len() && have@[u] == x;
                        if u < h0.len() {
                            assert(h0.contains(x));
                            if exists|id: SemanticEdgeId| g0.edge_map().dom().contains(id) && edge_key(#[trigger] g0.edge_map()[id]) == x {
                                let id = choose|id: SemanticEdgeId| g0.edge_map().dom().contains(id) && edge_key(#[trigger] g0.edge_map()[id]) == x;
                                assert(graph.edge_map().dom().contains(id) && graph.edge_map()[id] == g0.edge_map()[id]);
                            }
                        } else {
                            assert(keys@[j as int] == x);
                        }
                    }
                    if exists|id: SemanticEdgeId| graph.edge_map().dom().contains(id) && edge_key(#[trigger] graph.edge_map()[id]) == x {
                        let id = choose|id: SemanticEdgeId| graph.edge_map().dom().contains(id) && edge_key(#[trigger] graph.edge_map()[id]) == x;
                        if g0.edge_map().dom().contains(id) && g0.edge_map()[id] == graph.edge_map()[id] {
                            assert(h0.contains(x));
                            let u = choose|u: int| 0 <= u < h0.len() && h0[u] == x;
                            assert(have@[u] == x);
                        } else {
                            assert(x == k);
                            assert(have@[h0.len() as int] == x);
                        }
                    }
                    if exists|jj: int| 0 <= jj < j + 1 && keys@[jj] == x {
                        let jj = choose|jj: int| 0 <= jj < j + 1 && keys@[jj] == x;
                        if jj < j {
                            assert(h0.contains(x));
                            let u = choose|u: int| 0 <= u < h0.len() && h0[u] == x;
                            assert(have@[u] == x);
                        } else {
                            assert(have@[h0.len() as int] == x);
                        }
                    }
                }
                assert forall|jj: int|
                    0 <= jj < j + 1 && (#[trigger] keys@[jj]).0 != keys@[jj].2 && old(graph).node_map().dom().contains(keys@[jj].0)
                        && old(graph).node_map().dom().contains(keys@[jj].2) implies exists|id: SemanticEdgeId|
                        graph.edge_map().dom().contains(id) && edge_key(#[trigger] graph.edge_map()[id]) == keys@[jj] by {
                    if jj < j {
                        let id = choose|id: SemanticEdgeId| g0.edge_map().dom().contains(id) && edge_key(#[trigger] g0.edge_map()[id]) == keys@[jj];
                        assert(graph.edge_map().dom().contains(id) && graph.edge_map()[id] == g0.edge_map()[id]);
                    } else {
                        let id = SemanticEdgeId(g0.next_edge());
                        assert(graph.edge_map().dom().contains(id));
                        assert(edge_key(graph.edge_map()[id]) == k);
                    }
                }
            }
        } else {
            proof {
                assert forall|jj: int|
                    0 <= jj < j + 1 && (#[trigger] keys@[jj]).0 != keys@[jj].2 && old(graph).node_map().dom().contains(keys@[jj].0)
                        && old(graph).node_map().dom().contains(keys@[jj].2) implies exists|id: SemanticEdgeId|
                        graph.edge_map().dom().contains(id) && edge_key(#[trigger] graph.edge_map()[id]) == keys@[jj] by {
                    if jj == j {
                        if exists|j2: int| 0 <= j2 < j && keys@[j2] == k {
                            let j2 = choose|j2: int| 0 <= j2 < j && keys@[j2] == k;
                            assert(keys@[j2] == keys@[jj]);
                        }
                    }
                }
                assert forall|x: (SemanticNodeId, usize, SemanticNodeId, usize)| #[trigger] have@.contains(x) <==> (exists|id: SemanticEdgeId|
                    graph.edge_map().dom().contains(id) && edge_key(#[trigger] graph.edge_map()[id]) == x) || (exists|jj: int|
                    0 <= jj < j + 1 && keys@[jj] == x) by {
                    if exists|jj: int| 0 <= jj < j + 1 && keys@[jj] == x {
                        let jj = choose|jj: int| 0 <= jj < j + 1 && keys@[jj] == x;
                        if jj < j {
                            assert(exists|j2: int| 0 <= j2 < j && keys@[j2] == x);
                        }
                    }
                }
            }
        }
        j += 1;
    }
    proof {
        assert forall|k: (SemanticNodeId, usize, SemanticNodeId, usize)|
            #[trigger] keys@.contains(k) && k.0 != k.2 && old(graph).node_map().dom().contains(k.0) && old(graph).node_map().dom().contains(k.2)
                implies exists|id: SemanticEdgeId| graph.edge_map().dom().contains(id) && edge_key(#[trigger] graph.edge_map()[id]) == k by {
            let jj = choose|jj: int| 0 <= jj < keys@.len() && keys@[jj] == k;
        }
    }
}

impl SemanticSnarlBridge {
    /// Semantic id to view cell.
    pub closed spec fn to_snarl(self) -> Map<SemanticNodeId, ViewNodeId> {
        self.semantic_to_snarl@
    }

    /// View cell to semantic id.
    pub closed spec fn to_semantic(self) -> Map<ViewNodeId, SemanticNodeId> {
        self.snarl_to_semantic@
    }

    /// The two maps keep one entry per key.
    pub open spec fn wf(self) -> bool {
        &&& self.maps_wf()
        &&& self.to_snarl().dom().finite()
        &&& self.to_semantic().dom().finite()
    }

    /// Both maps are well formed.
    pub closed spec fn maps_wf(self) -> bool {
        self.semantic_to_snarl.wf() && self.snarl_to_semantic.wf()
    }

    /// The bridge, the graph and the view agree: the mapped semantic ids are exactly the
    /// graph's nodes, the two maps are inverse to each other, and every mapped cell exists.
    pub open spec fn in_sync<N, E>(self, graph: SemanticGraph<N, E>, snarl: Snarl<u64>) -> bool {
        &&& forall|s: SemanticNodeId| #[trigger] self.to_snarl().dom().contains(s) <==> graph.node_map().dom().contains(s)
        &&& forall|s: SemanticNodeId|
            #[trigger] self.to_snarl().dom().contains(s) ==> self.to_semantic().dom().contains(self.to_snarl()[s])
                && self.to_semantic()[self.to_snarl()[s]] == s && snarl_cells(snarl).dom().contains(self.to_snarl()[s].0)
        &&& forall|v: ViewNodeId|
            #[trigger] self.to_semantic().dom().contains(v) ==> self.to_snarl().dom().contains(self.to_semantic()[v])
                && self.to_snarl()[self.to_semantic()[v]] == v
    }

    /// A bridge that maps nothing.
    pub fn new() -> (r: Self)
        ensures
            r.wf(),
            r.to_snarl() == Map::<SemanticNodeId, ViewNodeId>::empty(),
            r.to_semantic() == Map::<ViewNodeId, SemanticNodeId>::empty(),
    {
        SemanticSnarlBridge { semantic_to_snarl: IdMap::new(), snarl_to_semantic: IdMap::new() }
    }

    /// Whether no semantic id is mapped.
    pub fn is_empty(&self) -> (r: bool)
        requires
            self.wf(),
        ensures
            r == (self.to_snarl().dom().len() == 0),
    {
        self.semantic_to_snarl.len() == 0
    }

    /// Number of mapped semantic ids.
    pub fn len(&self) -> (r: usize)
        requires
            self.wf(),
        ensures
            r == self.to_snarl().dom().len(),
    {
        self.semantic_to_snarl.len()
    }

    /// The semantic id shown in view cell `snarl`, if any.
    pub fn semantic_id(&self, snarl: ViewNodeId) -> (r: Option<SemanticNodeId>)
        requires
            self.wf(),
        ensures
            r is Some <==> self.to_semantic().dom().contains(snarl),
            r matches Some(id) ==> id == self.to_semantic()[snarl],
    {
        match self.snarl_to_semantic.get(snarl) {
            Some(id) => Some(*id),
            None => None,
        }
    }

    /// The view cell showing semantic id `semantic`, if any.
    pub fn snarl_id(&self, semantic: SemanticNodeId) -> (r: Option<ViewNodeId>)
        requires
            self.wf(),
        ensures
            r is Some <==> self.to_snarl().dom().contains(semantic),
            r matches Some(v) ==> v == self.to_snarl()[semantic],
    {
        match self.semantic_to_snarl.get(semantic) {
            Some(v) => Some(*v),
            None => None,
        }
    }

    fn register(&mut self, semantic: SemanticNodeId, snarl: ViewNodeId)
        requires
            old(self).wf(),
        ensures
            final(self).wf(),
            final(self).to_snarl() == old(self).to_snarl().insert(semantic, snarl),
            final(self).to_semantic() == old(self).to_semantic().insert(snarl, semantic),
    {
        self.semantic_to_snarl.insert(semantic, snarl);
        self.snarl_to_semantic.insert(snarl, semantic);
    }

    fn unregister_pair(&mut self, semantic: SemanticNodeId, snarl: ViewNodeId)
        requires
            old(self).wf(),
        ensures
            final(self).wf(),
            final(self).to_snarl() == old(self).to_snarl().remove(semantic),
            final(self).to_semantic() == old(self).to_semantic().remove(snarl),
    {
        self.semantic_to_snarl.remove(semantic);
        self.snarl_to_semantic.remove(snarl);
    }

    /// Insert one logical node into the graph and, at its layout position, into the view
    /// (collapsed when the node is), and record the mapping.
    pub fn insert_node<N, E>(
        &mut self,
        graph: &mut SemanticGraph<N, E>,
        snarl: &mut Snarl<u64>,
        node: SemanticNode<N>,
    ) -> (r: SemanticNodeId)
        requires
            old(self).wf(),
            old(graph).wf(),
        ensures
            final(self).wf(),
            final(graph).wf(),
            r.0 == old(graph).next_node(),
            final(graph).node_map() == old(graph).node_map().insert(r, node),
            final(graph).edge_map() == old(graph).edge_map(),
            final(graph).next_node() == crate::semantic::saturating_inc(old(graph).next_node()),
            final(graph).next_edge() == old(graph).next_edge(),
            final(self).to_snarl() == old(self).to_snarl().insert(r, final(self).to_snarl()[r]),
            final(self).to_semantic() == old(self).to_semantic().insert(final(self).to_snarl()[r], r),
            !snarl_cells(*old(snarl)).dom().contains(final(self).to_snarl()[r].0),
            snarl_cells(*final(snarl)).dom() == snarl_cells(*old(snarl)).dom().insert(final(self).to_snarl()[r].0),
            snarl_cells(*final(snarl))[final(self).to_snarl()[r].0] == (
                r.0,
                node.layout.x_bits,
                node.layout.y_bits,
                !node.collapsed,
            ),
            forall|i: usize| #[trigger] snarl_cells(*old(snarl)).dom().contains(i) ==> snarl_cells(*final(snarl))[i]
                == snarl_cells(*old(snarl))[i],
            snarl_wires(*final(snarl)) == snarl_wires(*old(snarl)),
            old(self).in_sync(*old(graph), *old(snarl)) && old(graph).next_node() < u64::MAX ==> final(self).in_sync(
                *final(graph),
                *final(snarl),
            ),
    {
        let collapsed = node.collapsed;
        let at = node.layout;
        let sid = graph.insert_node(node);
        let nid = if collapsed {
            snarl_insert_node_collapsed(snarl, at, sid.0)
        } else {
            snarl_insert_node(snarl, at, sid.0)
        };
        self.register(sid, ViewNodeId(nid));
        proof {
            if old(self).in_sync(*old(graph), *old(snarl)) && old(graph).next_node() < u64::MAX {
                let c = ViewNodeId(nid);
                assert(!old(self).to_semantic().dom().contains(c)) by {
                    if old(self).to_semantic().dom().contains(c) {
                        let s0 = old(self).to_semantic()[c];
                        assert(old(self).to_snarl()[s0] == c);
                    }
                }
                assert forall|s0: SemanticNodeId| #[trigger] self.to_snarl().dom().contains(s0) implies self.to_semantic().dom().contains(self.to_snarl()[s0])
                    && self.to_semantic()[self.to_snarl()[s0]] == s0 && snarl_cells(*snarl).dom().contains(self.to_snarl()[s0].0) by {
                    if s0 != sid {
                        assert(old(self).to_snarl().dom().contains(s0));
                        assert(old(self).to_snarl()[s0] != c);
                    }
                }
                assert forall|v: ViewNodeId| #[trigger] self.to_semantic().dom().contains(v) implies self.to_snarl().dom().contains(self.to_semantic()[v])
                    && self.to_snarl()[self.to_semantic()[v]] == v by {
                    if v != c {
                        assert(old(self).to_semantic().dom().contains(v));
                        assert(old(self).to_semantic()[v] != sid);
                    }
                }
            }
        }
        sid
    }

    /// Remove a semantic node everywhere: its mapping, its view cell with the cell's wires, and
    /// the node with its edges. `None`, with nothing changed, for an unmapped id; otherwise
    /// what the graph removed.
    pub fn remove_node<N, E>(
        &mut self,
        graph: &mut SemanticGraph<N, E>,
        snarl: &mut Snarl<u64>,
        semantic: SemanticNodeId,
    ) -> (r: Option<SemanticNode<N>>)
        requires
            old(self).wf(),
            old(graph).wf(),
            old(self).to_snarl().dom().contains(semantic) ==> snarl_cells(*old(snarl)).dom().contains(
                old(self).to_snarl()[semantic].0,
            ),
        ensures
            final(self).wf(),
            final(graph).wf(),
            !old(self).to_snarl().dom().contains(semantic) ==> r is None && *final(self) == *old(self)
                && *final(graph) == *old(graph) && *final(snarl) == *old(snarl),
            old(self).to_snarl().dom().contains(semantic) ==> {
                let cell = old(self).to_snarl()[semantic];
                &&& final(self).to_snarl() == old(self).to_snarl().remove(semantic)
                &&& final(self).to_semantic() == old(self).to_semantic().remove(cell)
                &&& snarl_cells(*final(snarl)) == snarl_cells(*old(snarl)).remove(cell.0)
                &&& snarl_wires(*final(snarl)) == wires_without_cell(snarl_wires(*old(snarl)), cell.0)
                &&& (r is Some <==> old(graph).node_map().dom().contains(semantic))
                &&& (r matches Some(n) ==> n == old(graph).node_map()[semantic])
                &&& final(graph).node_map() == old(graph).node_map().remove(semantic)
                &&& (r is Some ==> final(graph).edge_map() == crate::semantic::edges_avoiding(
                    old(graph).edge_map(),
                    semantic,
                ))
                &&& (r is None ==> final(graph).edge_map() == old(graph).edge_map())
                &&& final(graph).next_node() == old(graph).next_node()
                &&& final(graph).next_edge() == old(graph).next_edge()
            },
            old(self).in_sync(*old(graph), *old(snarl)) ==> final(self).in_sync(*final(graph), *final(snarl)),
    {
        let snarl_id = match self.snarl_id(semantic) {
            Some(v) => v,
            None => {
                return None;
            },
        };
        self.unregister_pair(semantic, snarl_id);
        let _ = snarl_remove_node(snarl, snarl_id.0);
        let r = graph.remove_node(semantic);
        proof {
            if old(self).in_sync(*old(graph), *old(snarl)) {
                assert forall|s0: SemanticNodeId| #[trigger] self.to_snarl().dom().contains(s0) implies self.to_semantic().dom().contains(self.to_snarl()[s0])
                    && self.to_semantic()[self.to_snarl()[s0]] == s0 && snarl_cells(*snarl).dom().contains(self.to_snarl()[s0].0) by {
                    assert(old(self).to_snarl().dom().contains(s0));
                    assert(old(self).to_snarl()[s0] != snarl_id);
                }
                assert forall|v: ViewNodeId| #[trigger] self.to_semantic().dom().contains(v) implies self.to_snarl().dom().contains(self.to_semantic()[v])
                    && self.to_snarl()[self.to_semantic()[v]] == v by {
                    assert(old(self).to_semantic().dom().contains(v));
                    assert(old(self).to_semantic()[v] != semantic);
                }
            }
        }
        r
    }

    /// Add matching edges to the graph and wires to the view.
    ///
    /// The graph decides first (its errors come back as [`BridgeError::Graph`]); an end that no
    /// cell shows is [`BridgeError::UnmappedSemantic`], checked `from` first, and leaves the
    /// new edge in the graph; a wire the view already has is [`BridgeError::SnarlRejectedWire`],
    /// and the new edge is removed again.
    pub fn connect<N, E: Default>(
        &mut self,
        graph: &mut SemanticGraph<N, E>,
        snarl: &mut Snarl<u64>,
        from: SemanticNodeId,
        out_port: usize,
        to: SemanticNodeId,
        in_port: usize,
    ) -> (r: Result<SemanticEdgeId, BridgeError>)
        requires
            old(self).wf(),
            old(graph).wf(),
            old(self).to_snarl().dom().contains(from) ==> snarl_cells(*old(snarl)).dom().contains(
                old(self).to_snarl()[from].0,
            ),
            old(self).to_snarl().dom().contains(to) ==> snarl_cells(*old(snarl)).dom().contains(
                old(self).to_snarl()[to].0,
            ),
        ensures
            *final(self) == *old(self),
            final(graph).wf(),
            final(graph).node_map() == old(graph).node_map(),
            final(graph).next_node() == old(graph).next_node(),
            snarl_cells(*final(snarl)) == snarl_cells(*old(snarl)),
            old(self).in_sync(*old(graph), *old(snarl)) ==> final(self).in_sync(*final(graph), *final(snarl)),
            match old(graph).connect_check(from, out_port, to, in_port) {
                Err(e) => r == Err::<SemanticEdgeId, BridgeError>(BridgeError::Graph(e)) && final(graph).edge_map()
                    == old(graph).edge_map() && final(graph).next_edge() == old(graph).next_edge() && *final(snarl) == *old(snarl),
                Ok(()) => {
                    let id = SemanticEdgeId(old(graph).next_edge());
                    let added = old(graph).edge_map().insert(
                        id,
                        SemanticEdge { from, out_port, to, in_port, payload: final(graph).edge_map()[id].payload },
                    );
                    let w = (old(self).to_snarl()[from].0, out_port, old(self).to_snarl()[to].0, in_port);
                    &&& final(graph).next_edge() == crate::semantic::saturating_inc(old(graph).next_edge())
                    &&& if !old(self).to_snarl().dom().contains(from) {
                        &&& r == Err::<SemanticEdgeId, BridgeError>(BridgeError::UnmappedSemantic(from))
                        &&& final(graph).edge_map() == added
                        &&& *final(snarl) == *old(snarl)
                    } else if !old(self).to_snarl().dom().contains(to) {
                        &&& r == Err::<SemanticEdgeId, BridgeError>(BridgeError::UnmappedSemantic(to))
                        &&& final(graph).edge_map() == added
                        &&& *final(snarl) == *old(snarl)
                    } else if snarl_wires(*old(snarl)).contains(w) {
                        &&& r == Err::<SemanticEdgeId, BridgeError>(BridgeError::SnarlRejectedWire)
                        &&& final(graph).edge_map() == old(graph).edge_map().insert(id, final(graph).edge_map()[id]).remove(id)
                        &&& snarl_wires(*final(snarl)) == snarl_wires(*old(snarl))
                    } else {
                        &&& r == Ok::<SemanticEdgeId, BridgeError>(id)
                        &&& final(graph).edge_map() == added
                        &&& snarl_wires(*final(snarl)) == snarl_wires(*old(snarl)).insert(w)
                    }
                },
            },
    {
        let eid = match graph.connect(from, out_port, to, in_port, E::default()) {
            Ok(e) => e,
            Err(e) => {
                return Err(BridgeError::Graph(e));
            },
        };
        let a = match self.snarl_id(from) {
            Some(a) => a,
            None => {
                return Err(BridgeError::UnmappedSemantic(from));
            },
        };
        let b = match self.snarl_id(to) {
            Some(b) => b,
            None => {
                return Err(BridgeError::UnmappedSemantic(to));
            },
        };
        let ok = snarl_connect(snarl, a.0, out_port, b.0, in_port);
        if !ok {
            let ghost g1 = *graph;
            let _ = graph.disconnect_edge(eid);
            proof {
                assert(g1.edge_map().insert(eid, g1.edge_map()[eid]) == g1.edge_map());
            }
            return Err(BridgeError::SnarlRejectedWire);
        }
        Ok(eid)
    }

    /// Remove one semantic edge from the graph and its wire from the view. `None`, with
    /// nothing changed, for an unknown edge or one with an end no cell shows.
    pub fn disconnect_edge<N, E>(
        &mut self,
        graph: &mut SemanticGraph<N, E>,
        snarl: &mut Snarl<u64>,
        edge: SemanticEdgeId,
    ) -> (r: Option<SemanticEdge<E>>)
        requires
            old(self).wf(),
            old(graph).wf(),
            old(graph).edge_map().dom().contains(edge) && old(self).to_snarl().dom().contains(
                old(graph).edge_map()[edge].from,
            ) && old(self).to_snarl().dom().contains(old(graph).edge_map()[edge].to) ==> snarl_cells(
                *old(snarl),
            ).dom().contains(old(self).to_snarl()[old(graph).edge_map()[edge].from].0) && snarl_cells(
                *old(snarl),
            ).dom().contains(old(self).to_snarl()[old(graph).edge_map()[edge].to].0),
        ensures
            *final(self) == *old(self),
            final(graph).wf(),
            old(self).in_sync(*old(graph), *old(snarl)) ==> final(self).in_sync(*final(graph), *final(snarl)),
            ({
                let e = old(graph).edge_map()[edge];
                if old(graph).edge_map().dom().contains(edge) && old(self).to_snarl().dom().contains(e.from)
                    && old(self).to_snarl().dom().contains(e.to) {
                    &&& r == Some(e)
                    &&& final(graph).edge_map() == old(graph).edge_map().remove(edge)
                    &&& final(graph).node_map() == old(graph).node_map()
                    &&& final(graph).next_node() == old(graph).next_node()
                    &&& final(graph).next_edge() == old(graph).next_edge()
                    &&& snarl_cells(*final(snarl)) == snarl_cells(*old(snarl))
                    &&& snarl_wires(*final(snarl)) == snarl_wires(*old(snarl)).remove(
                        (old(self).to_snarl()[e.from].0, e.out_port, old(self).to_snarl()[e.to].0, e.in_port),
                    )
                } else {
                    r is None && *final(graph) == *old(graph) && *final(snarl) == *old(snarl)
                }
            }),
    {
        let (from, out_port, to, in_port) = match graph.edge(edge) {
            Some(e) => (e.from, e.out_port, e.to, e.in_port),
            None => {
                return None;
            },
        };
        let a = match self.snarl_id(from) {
            Some(a) => a,
            None => {
                return None;
            },
        };
        let b = match self.snarl_id(to) {
            Some(b) => b,
            None => {
                return None;
            },
        };
        let _ = snarl_disconnect(snarl, a.0, out_port, b.0, in_port);
        graph.disconnect_edge(edge)
    }

    /// Copy position and collapse state from each mapped cell of the view into its semantic
    /// node.
    pub fn sync_layout_from_snarl<N, E>(&self, graph: &mut SemanticGraph<N, E>, snarl: &Snarl<u64>)
        requires
            self.wf(),
            old(graph).wf(),
        ensures
            final(graph).wf(),
            self.in_sync(*old(graph), *snarl) ==> self.in_sync(*final(graph), *snarl),
            final(graph).node_map() == laid_out(old(graph).node_map(), self.to_snarl(), snarl_cells(*snarl)),
            final(graph).node_map().dom() == old(graph).node_map().dom(),
            forall|id: SemanticNodeId|
                #[trigger] old(graph).node_map().dom().contains(id) && self.to_snarl().dom().contains(id)
                    && snarl_cells(*snarl).dom().contains(self.to_snarl()[id].0) ==> final(graph).node_map()[id].collapsed
                    == !snarl_cells(*snarl)[self.to_snarl()[id].0].3 && final(graph).node_map()[id].layout == (Layout2d {
                    x_bits: snarl_cells(*snarl)[self.to_snarl()[id].0].1,
                    y_bits: snarl_cells(*snarl)[self.to_snarl()[id].0].2,
                }) && final(graph).node_map()[id].payload == old(graph).node_map()[id].payload,
            forall|id: SemanticNodeId|
                #[trigger] old(graph).node_map().dom().contains(id) && !(self.to_snarl().dom().contains(id)
                    && snarl_cells(*snarl).dom().contains(self.to_snarl()[id].0)) ==> final(graph).node_map()[id]
                    == old(graph).node_map()[id],
            final(graph).edge_map() == old(graph).edge_map(),
            final(graph).next_node() == old(graph).next_node(),
            final(graph).next_edge() == old(graph).next_edge(),
    {
        let entries = self.semantic_to_snarl.as_slice();
        let ghost cells = snarl_cells(*snarl);
        let ghost n0 = graph.node_map();
        let mut i: usize = 0;
        proof {
            assert(laid_out(n0, entries_to_map(entries@.take(0)), cells) =~= n0);
        }
        while i < entries.len()
            invariant
                graph.wf(),
                graph.edge_map() == old(graph).edge_map(),
                graph.next_node() == old(graph).next_node(),
                graph.next_edge() == old(graph).next_edge(),
                n0 == old(graph).node_map(),
                cells == snarl_cells(*snarl),
                distinct_keys(entries@),
                entries_to_map(entries@) == self.to_snarl(),
                i <= entries@.len(),
                graph.node_map() == laid_out(n0, entries_to_map(entries@.take(i as int)), cells),
            decreases entries@.len() - i,
        {
            let sem = entries[i].0;
            let snid = entries[i].1;
            let ghost shown0 = entries_to_map(entries@.take(i as int));
            proof {
                assert(entries@.take(i + 1) =~= entries@.take(i as int).push(entries@[i as int]));
                assert(distinct_keys(entries@.take(i as int))) by {
                    assert forall|a: int, b: int| 0 <= a < i && 0 <= b < i && #[trigger] entries@.take(i as int)[a].0 == #[trigger] entries@.take(i as int)[b].0 implies a == b by {
                        assert(entries@[a].0 == entries@[b].0);
                    }
                }
                if shown0.dom().contains(sem) {
                    let c = choose|c: int| 0 <= c < i && #[trigger] entries@.take(i as int)[c].0 == sem;
                    assert(entries@[c].0 == entries@[i as int].0);
                }
                crate::id_map::lemma_map_push(entries@.take(i as int), sem, snid);
            }
            let ghost g_before = graph.node_map();
            match snarl_node_info(snarl, snid.0) {
                Some(info) => {
                    let (_, layout, open) = info;
                    match graph.node_mut(sem) {
                        Some(n) => {
                            n.layout = layout;
                            n.collapsed = !open;
                        },
                        None => {},
                    }
                },
                None => {},
            }
            proof {
                assert(graph.node_map() =~= laid_out(n0, entries_to_map(entries@.take(i + 1)), cells));
            }
            i += 1;
        }
        proof {
            assert(entries@.take(entries@.len() as int) =~= entries@);
        }
    }

    /// The edge keys the view's wires stand for, each at least once.
    fn desired_edge_keys(&self, snarl: &Snarl<u64>) -> (v: Vec<(SemanticNodeId, usize, SemanticNodeId, usize)>)
        requires
            self.wf(),
        ensures
            forall|k: (SemanticNodeId, usize, SemanticNodeId, usize)| #[trigger] v@.contains(k) <==> desired_keys(
                self.to_semantic(),
                snarl_wires(*snarl),
            ).contains(k),
            snarl_wires(*snarl).finite(),
            v@.len() <= snarl_wires(*snarl).len(),
    {
        let ws = snarl_wire_list(snarl);
        let ghost back = self.to_semantic();
        let mut v: Vec<(SemanticNodeId, usize, SemanticNodeId, usize)> = Vec::new();
        let mut i: usize = 0;
        while i < ws.len()
            invariant
                self.wf(),
                back == self.to_semantic(),
                i <= ws@.len(),
                v@.len() <= i,
                forall|k: (SemanticNodeId, usize, SemanticNodeId, usize)| #[trigger] v@.contains(k) <==> exists|j: int|
                    0 <= j < i && back.dom().contains(ViewNodeId(ws@[j].0)) && back.dom().contains(ViewNodeId(ws@[j].2))
                        && k == (back[ViewNodeId(ws@[j].0)], ws@[j].1, back[ViewNodeId(ws@[j].2)], ws@[j].3),
            decreases ws@.len() - i,
        {
            let w = ws[i];
            let ghost v0 = v@;
            match (self.semantic_id(ViewNodeId(w.0)), self.semantic_id(ViewNodeId(w.2))) {
                (Some(f), Some(t)) => {
                    v.push((f, w.1, t, w.3));
                },
                _ => {},
            }
            proof {
                assert forall|k: (SemanticNodeId, usize, SemanticNodeId, usize)| #[trigger] v@.contains(k) <==> exists|j: int|
                    0 <= j < i + 1 && back.dom().contains(ViewNodeId(ws@[j].0)) && back.dom().contains(ViewNodeId(ws@[j].2))
                        && k == (back[ViewNodeId(ws@[j].0)], ws@[j].1, back[ViewNodeId(ws@[j].2)], ws@[j].3) by {
                    if v@.contains(k) {
                        let u = choose|u: int| 0 <= u < v@.len() && v@[u] == k;
                        if u < v0.len() {
                            assert(v0.contains(k));
                        } else {
                            assert(ws@[i as int] == w);
                        }
                    }
                    if exists|j: int| 0 <= j < i + 1 && back.dom().contains(ViewNodeId(ws@[j].0)) && back.dom().contains(ViewNodeId(ws@[j].2))
                        && k == (back[ViewNodeId(ws@[j].0)], ws@[j].1, back[ViewNodeId(ws@[j].2)], ws@[j].3) {
                        let j = choose|j: int| 0 <= j < i + 1 && back.dom().contains(ViewNodeId(ws@[j].0)) && back.dom().contains(ViewNodeId(ws@[j].2))
                            && k == (back[ViewNodeId(ws@[j].0)], ws@[j].1, back[ViewNodeId(ws@[j].2)], ws@[j].3);
                        if j < i {
                            assert(v0.contains(k));
                            let u = choose|u: int| 0 <= u < v0.len() && v0[u] == k;
                            assert(v@[u] == k);
                        } else {
                            assert(ws@[i as int] == w);
                            assert(v@[v0.len() as int] == k);
                        }
                    }
                }
            }
            i += 1;
        }
        proof {
            ws@.unique_seq_to_set();
            assert forall|k: (SemanticNodeId, usize, SemanticNodeId, usize)| #[trigger] v@.contains(k) <==> desired_keys(
                back,
                snarl_wires(*snarl),
            ).contains(k) by {
                if v@.contains(k) {
                    let j = choose|j: int| 0 <= j < ws@.len() && back.dom().contains(ViewNodeId(ws@[j].0)) && back.dom().contains(ViewNodeId(ws@[j].2))
                        && k == (back[ViewNodeId(ws@[j].0)], ws@[j].1, back[ViewNodeId(ws@[j].2)], ws@[j].3);
                    assert(ws@.to_set().contains(ws@[j]));
                    assert(snarl_wires(*snarl).contains(ws@[j]));
                }
                if desired_keys(back, snarl_wires(*snarl)).contains(k) {
                    let w = choose|w: (usize, usize, usize, usize)|
                        #[trigger] snarl_wires(*snarl).contains(w) && back.dom().contains(ViewNodeId(w.0)) && back.dom().contains(
                            ViewNodeId(w.2),
                        ) && k == (back[ViewNodeId(w.0)], w.1, back[ViewNodeId(w.2)], w.3);
                    assert(ws@.to_set().contains(w));
                    assert(ws@.contains(w));
                    let j = choose|j: int| 0 <= j < ws@.len() && ws@[j] == w;
                }
            }
        }
        v
    }

    /// Bring the graph's edges in line with the view's wires (the view is authoritative):
    /// edges whose ports no wire joins are removed, and the ports of each wire between two
    /// mapped cells that no edge joins yet are connected (unless the graph refuses them),
    /// without renumbering the edges that stay.
    pub fn sync_edges_from_snarl<N, E: Default>(&self, graph: &mut SemanticGraph<N, E>, snarl: &Snarl<u64>)
        requires
            self.wf(),
            old(graph).wf(),
            old(graph).next_edge() + snarl_wires(*snarl).len() < u64::MAX,
        ensures
            final(graph).wf(),
            self.in_sync(*old(graph), *snarl) ==> self.in_sync(*final(graph), *snarl),
            final(graph).node_map() == old(graph).node_map(),
            final(graph).next_node() == old(graph).next_node(),
            forall|id: SemanticEdgeId| #[trigger] old(graph).edge_map().dom().contains(id) ==> (final(graph).edge_map().dom().contains(id)
                <==> desired_keys(self.to_semantic(), snarl_wires(*snarl)).contains(edge_key(old(graph).edge_map()[id]))),
            forall|id: SemanticEdgeId|
                #[trigger] final(graph).edge_map().dom().contains(id) && old(graph).edge_map().dom().contains(id)
                    ==> final(graph).edge_map()[id] == old(graph).edge_map()[id],
            forall|id: SemanticEdgeId| #[trigger] final(graph).edge_map().dom().contains(id) ==> desired_keys(
                self.to_semantic(),
                snarl_wires(*snarl),
            ).contains(edge_key(final(graph).edge_map()[id])),
            forall|k: (SemanticNodeId, usize, SemanticNodeId, usize)|
                #[trigger] desired_keys(self.to_semantic(), snarl_wires(*snarl)).contains(k) && k.0 != k.2
                    && old(graph).node_map().dom().contains(k.0) && old(graph).node_map().dom().contains(k.2)
                    ==> exists|id: SemanticEdgeId| final(graph).edge_map().dom().contains(id) && edge_key(
                    #[trigger] final(graph).edge_map()[id],
                ) == k,
    {
        let desired = self.desired_edge_keys(snarl);
        let ghost dk = desired_keys(self.to_semantic(), snarl_wires(*snarl));
        retain_edges_with_keys(graph, &desired);
        let ghost g1 = *graph;
        add_missing_edges(graph, &desired);
        proof {
            assert forall|id: SemanticEdgeId| #[trigger] graph.edge_map().dom().contains(id) implies dk.contains(
                edge_key(graph.edge_map()[id])) by {
                if g1.edge_map().dom().contains(id) {
                    assert(desired@.contains(edge_key(g1.edge_map()[id])));
                } else {
                    assert(desired@.contains(edge_key(graph.edge_map()[id])));
                }
            }
            assert forall|id: SemanticEdgeId| #[trigger] old(graph).edge_map().dom().contains(id) implies (graph.edge_map().dom().contains(id)
                <==> dk.contains(edge_key(old(graph).edge_map()[id]))) by {
                if graph.edge_map().dom().contains(id) {
                    if !g1.edge_map().dom().contains(id) {
                        // a new edge id is at least the counter, which every old id is below
                        assert(g1.next_edge() == old(graph).next_edge());
                        assert(id.0 >= g1.next_edge());
                        assert(false);
                    }
                    assert(desired@.contains(edge_key(old(graph).edge_map()[id])));
                }
                if dk.contains(edge_key(old(graph).edge_map()[id])) {
                    assert(desired@.contains(edge_key(old(graph).edge_map()[id])));
                    assert(g1.edge_map().dom().contains(id));
                }
            }
            assert forall|k: (SemanticNodeId, usize, SemanticNodeId, usize)|
                #[trigger] dk.contains(k) && k.0 != k.2 && old(graph).node_map().dom().contains(k.0)
                    && old(graph).node_map().dom().contains(k.2) implies exists|id: SemanticEdgeId|
                    graph.edge_map().dom().contains(id) && edge_key(#[trigger] graph.edge_map()[id]) == k by {
                assert(desired@.contains(k));
            }
        }
    }

    /// End-of-frame sync, the view being authoritative: first node positions and collapse
    /// state, then edges.
    pub fn sync_graph_from_snarl<N, E: Default>(&self, graph: &mut SemanticGraph<N, E>, snarl: &Snarl<u64>)
        requires
            self.wf(),
            old(graph).wf(),
            old(graph).next_edge() + snarl_wires(*snarl).len() < u64::MAX,
        ensures
            final(graph).wf(),
            self.in_sync(*old(graph), *snarl) ==> self.in_sync(*final(graph), *snarl),
            final(graph).node_map() == laid_out(old(graph).node_map(), self.to_snarl(), snarl_cells(*snarl)),
            final(graph).node_map().dom() == old(graph).node_map().dom(),
            forall|id: SemanticNodeId|
                #[trigger] old(graph).node_map().dom().contains(id) && self.to_snarl().dom().contains(id)
                    && snarl_cells(*snarl).dom().contains(self.to_snarl()[id].0) ==> final(graph).node_map()[id].collapsed
                    == !snarl_cells(*snarl)[self.to_snarl()[id].0].3 && final(graph).node_map()[id].layout == (Layout2d {
                    x_bits: snarl_cells(*snarl)[self.to_snarl()[id].0].1,
                    y_bits: snarl_cells(*snarl)[self.to_snarl()[id].0].2,
                }) && final(graph).node_map()[id].payload == old(graph).node_map()[id].payload,
            forall|id: SemanticNodeId|
                #[trigger] old(graph).node_map().dom().contains(id) && !(self.to_snarl().dom().contains(id)
                    && snarl_cells(*snarl).dom().contains(self.to_snarl()[id].0)) ==> final(graph).node_map()[id]
                    == old(graph).node_map()[id],
            final(graph).next_node() == old(graph).next_node(),
            forall|id: SemanticEdgeId| #[trigger] old(graph).edge_map().dom().contains(id) ==> (final(graph).edge_map().dom().contains(id)
                <==> desired_keys(self.to_semantic(), snarl_wires(*snarl)).contains(edge_key(old(graph).edge_map()[id]))),
            forall|id: SemanticEdgeId|
                #[trigger] final(graph).edge_map().dom().contains(id) && old(graph).edge_map().dom().contains(id)
                    ==> final(graph).edge_map()[id] == old(graph).edge_map()[id],
            forall|id: SemanticEdgeId| #[trigger] final(graph).edge_map().dom().contains(id) ==> desired_keys(
                self.to_semantic(),
                snarl_wires(*snarl),
            ).contains(edge_key(final(graph).edge_map()[id])),
            forall|k: (SemanticNodeId, usize, SemanticNodeId, usize)|
                #[trigger] desired_keys(self.to_semantic(), snarl_wires(*snarl)).contains(k) && k.0 != k.2
                    && old(graph).node_map().dom().contains(k.0) && old(graph).node_map().dom().contains(k.2)
                    ==> exists|id: SemanticEdgeId| final(graph).edge_map().dom().contains(id) && edge_key(
                    #[trigger] final(graph).edge_map()[id],
                ) == k,
    {
        self.sync_layout_from_snarl(graph, snarl);
        proof {
            assert(graph.node_map().dom() =~= old(graph).node_map().dom());
        }
        self.sync_edges_from_snarl(graph, snarl);
    }
}

impl Default for SemanticSnarlBridge {
    /// A bridge that maps nothing.
    fn default() -> (r: Self)
        ensures
            r.wf(),
            r.to_snarl() == Map::<SemanticNodeId, ViewNodeId>::empty(),
            r.to_semantic() == Map::<ViewNodeId, SemanticNodeId>::empty(),
    {
        Self::new()
    }
}

} // verus!
