//! The editor session: a pin-level [`Graph`] and its editor view kept in step, with the view
//! cell of every node and the edits made since the last time someone asked.

use vstd::prelude::*;

use egui_snarl::Snarl;

use crate::error::{GraphError, graph_error_text};
use crate::id_map::IdMap;
use crate::ids::{LinkId, NodeId, PinId};
use crate::layout::Layout2d;
use crate::model::{Graph, Link, decimal_digits, has_pin_pair};
use crate::pin_type::PinType;
use crate::text::numbered_with;
use crate::snarl::{
    ViewNodeId, snarl_cells, snarl_connect, snarl_insert_node, snarl_insert_node_collapsed,
    snarl_new, snarl_wires,
};

verus! {

/// Edits accumulated since the last [`NodesEditor::take_graph_changes`], so that evaluation
/// runs only when something changed.
#[derive(Debug, Clone, Default, PartialEq, Eq)]
pub struct GraphChanges {
    /// Connectivity changed (a wire or node was added or removed).
    pub topology_changed: bool,
    /// A node payload, layout or collapse state changed.
    pub payload_or_layout_changed: bool,
}

impl GraphChanges {
    /// Whether anything changed.
    pub fn any(&self) -> (r: bool)
        ensures
            r == (self.topology_changed || self.payload_or_layout_changed),
    {
        self.topology_changed || self.payload_or_layout_changed
    }
}

/// How [`format_graph_changes`] describes a set of changes.
pub open spec fn graph_changes_text(topology: bool, payload: bool) -> Seq<char> {
    if !topology && !payload {
        "none (idle)"@
    } else if topology && payload {
        "topology + payload/layout"@
    } else if topology {
        "topology"@
    } else {
        "payload/layout"@
    }
}

/// A short description of the changes, for a status line.
pub fn format_graph_changes(c: &GraphChanges) -> (r: String)
    ensures
        r@ == graph_changes_text(c.topology_changed, c.payload_or_layout_changed),
{
    if !c.any() {
        return "none (idle)".to_owned();
    }
    if c.topology_changed && c.payload_or_layout_changed {
        "topology + payload/layout".to_owned()
    } else if c.topology_changed {
        "topology".to_owned()
    } else {
        "payload/layout".to_owned()
    }
}

/// A node's user payload together with the id of the graph node it belongs to.
#[derive(Clone, Debug)]
pub struct NodeData<N> {
    pub node_id: NodeId,
    pub user: N,
}

/// Failures of the editor's paired operations.
#[derive(Clone, Copy, Debug, PartialEq, Eq, Structural)]
pub enum NodesEditorError {
    Graph(GraphError),
    UnmappedNode(NodeId),
    UnmappedViewNode(ViewNodeId),
    ViewRejectedWire,
}

/// The message of an editor error.
pub open spec fn editor_error_text(e: NodesEditorError) -> Seq<char> {
    match e {
        NodesEditorError::Graph(g) => graph_error_text(g),
        NodesEditorError::UnmappedNode(id) => "node "@ + decimal_digits(id.spec_get() as nat) + " not mapped to NodeGraph"@,
        NodesEditorError::UnmappedViewNode(id) => "view node "@ + decimal_digits(id.0 as nat) + " not mapped"@,
        NodesEditorError::ViewRejectedWire => "node graph rejected wire"@,
    }
}

impl NodesEditorError {
    /// The message shown for this error (a graph error's own message for
    /// [`NodesEditorError::Graph`]).
    pub fn to_string(&self) -> (r: String)
        ensures
            r@ == editor_error_text(*self),
    {
        match self {
            NodesEditorError::Graph(g) => g.to_string(),
            NodesEditorError::UnmappedNode(id) => numbered_with("node ", id.get() as u64, " not mapped to NodeGraph"),
            NodesEditorError::UnmappedViewNode(id) => numbered_with("view node ", id.0 as u64, " not mapped"),
            NodesEditorError::ViewRejectedWire => "node graph rejected wire".to_owned(),
        }
    }
}

/// Older name of [`NodesEditorError`].
pub type AdapterError = NodesEditorError;

impl From<GraphError> for NodesEditorError {
    /// A graph error, as the editor reports it.
    fn from(value: GraphError) -> (r: Self) {
        NodesEditorError::Graph(value)
    }
}

impl vstd::std_specs::convert::FromSpecImpl<GraphError> for NodesEditorError {
    open spec fn obeys_from_spec() -> bool {
        true
    }

    open spec fn from_spec(v: GraphError) -> NodesEditorError {
        NodesEditorError::Graph(v)
    }
}

/// Position of the node with id `id` in `g`.
pub open spec fn node_index<N, E>(g: Graph<N, E>, id: NodeId) -> int {
    choose|i: int| 0 <= i < g.nodes@.len() && #[trigger] g.nodes@[i].id == id
}

/// Node `n` with the position and collapse state of the cell of `cells` that `shown` maps
/// it to, if there is one.
pub open spec fn laid_out_in<N>(
    n: crate::model::Node<N>,
    shown: Map<NodeId, ViewNodeId>,
    cells: Map<usize, (u64, u32, u32, bool)>,
) -> crate::model::Node<N> {
    if shown.dom().contains(n.id) && cells.dom().contains(shown[n.id].0) {
        let c = cells[shown[n.id].0];
        crate::model::Node {
            id: n.id,
            label: n.label,
            data: n.data,
            layout: Layout2d { x_bits: c.1, y_bits: c.2 },
            collapsed: !c.3,
            inputs: n.inputs,
            outputs: n.outputs,
        }
    } else {
        n
    }
}

/// Whether `a` and `b` hold the same pairs.
fn same_pair_set(a: &Vec<(PinId, PinId)>, b: &Vec<(PinId, PinId)>) -> (r: bool)
    ensures
        r == (a@.to_set() == b@.to_set()),
{
    let mut i: usize = 0;
    while i < a.len()
        invariant
            i <= a@.len(),
            forall|j: int| 0 <= j < i ==> b@.contains(#[trigger] a@[j]),
        decreases a@.len() - i,
    {
        if !has_pin_pair(b, a[i]) {
            proof {
                assert(a@.to_set().contains(a@[i as int]));
                assert(!b@.to_set().contains(a@[i as int]));
            }
            return false;
        }
        i += 1;
    }
    let mut j: usize = 0;
    while j < b.len()
        invariant
            j <= b@.len(),
            forall|x: int| 0 <= x < a@.len() ==> b@.contains(#[trigger] a@[x]),
            forall|x: int| 0 <= x < j ==> a@.contains(#[trigger] b@[x]),
        decreases b@.len() - j,
    {
        if !has_pin_pair(a, b[j]) {
            proof {
                assert(b@.to_set().contains(b@[j as int]));
                assert(!a@.to_set().contains(b@[j as int]));
            }
            return false;
        }
        j += 1;
    }
    proof {
        assert forall|k: (PinId, PinId)| a@.to_set().contains(k) <==> b@.to_set().contains(k) by {
            if a@.contains(k) {
                let x = choose|x: int| 0 <= x < a@.len() && a@[x] == k;
                assert(b@.contains(a@[x]));
            }
            if b@.contains(k) {
                let x = choose|x: int| 0 <= x < b@.len() && b@[x] == k;
                assert(a@.contains(b@[x]));
            }
        }
        assert(a@.to_set() =~= b@.to_set());
    }
    true
}

/// The links of `links` that touch no node of `nodes` with an id in `gone`.
pub open spec fn links_avoiding<N, E>(links: Seq<Link<E>>, nodes: Seq<crate::model::Node<N>>, gone: Set<NodeId>) -> Seq<Link<E>> {
    links.filter(avoids_gone(nodes, gone))
}

/// Link `l` touches no node of `nodes` with an id in `gone`.
pub open spec fn avoids_gone<N, E>(nodes: Seq<crate::model::Node<N>>, gone: Set<NodeId>) -> spec_fn(Link<E>) -> bool {
    |l: Link<E>|
        forall|i: int| 0 <= i < nodes.len() && gone.contains(#[trigger] nodes[i].id) ==> crate::model::link_avoids_node(nodes[i], l)
}

/// An element of `s.push(x)` is one of `s` or `x`.
proof fn lemma_push_contains<A>(s: Seq<A>, x: A, v: A)
    ensures
        s.push(x).contains(v) <==> s.contains(v) || v == x,
{
    if s.push(x).contains(v) {
        let i = choose|i: int| 0 <= i < s.push(x).len() && s.push(x)[i] == v;
        if i < s.len() {
            assert(s[i] == v);
        }
    }
    if s.contains(v) {
        let i = choose|i: int| 0 <= i < s.len() && s[i] == v;
        assert(s.push(x)[i] == v);
    }
    if v == x {
        assert(s.push(x)[s.len() as int] == v);
    }
}

/// The slab indices of the cells `views`.
pub open spec fn cells_of(views: Set<ViewNodeId>) -> Set<usize> {
    views.map(|v: ViewNodeId| v.0)
}

/// Node `n` has no id in `gone`.
pub open spec fn not_gone<N>(gone: Set<NodeId>) -> spec_fn(crate::model::Node<N>) -> bool {
    |n: crate::model::Node<N>| !gone.contains(n.id)
}

/// One removal of [`NodesEditor::remove_view_nodes`] on the graph: removing node `core` from a
/// graph holding the nodes and links of `n0`/`l0` not removed with `gone` leaves those not
/// removed with `gone` and `core`.
proof fn lemma_remove_step_graph<N, E>(
    n0: Seq<crate::model::Node<N>>,
    l0: Seq<Link<E>>,
    gone: Set<NodeId>,
    core: NodeId,
    g0: Graph<N, E>,
    g1: Graph<N, E>,
    r: Option<crate::model::Node<N>>,
)
    requires
        forall|a: int, b: int| 0 <= a < n0.len() && 0 <= b < n0.len() && (#[trigger] n0[a]).id == (#[trigger] n0[b]).id ==> a == b,
        g0.nodes@ == n0.filter(not_gone(gone)),
        g0.links@ == links_avoiding(l0, n0, gone),
        r is None <==> !g0.has_node(core),
        r is None ==> g1.nodes@ == g0.nodes@ && g1.links@ == g0.links@,
        r matches Some(n) ==> exists|i: int|
            0 <= i < g0.nodes@.len() && g0.nodes@[i] == n && n.id == core && g1.nodes@ == g0.nodes@.remove(i),
        r matches Some(n) ==> g1.links@ == g0.links@.filter(|l: Link<E>| crate::model::link_avoids_node(n, l)),
    ensures
        g1.nodes@ == n0.filter(not_gone(gone.insert(core))),
        g1.links@ == links_avoiding(l0, n0, gone.insert(core)),
{
    let p = not_gone::<N>(gone);
    let p1 = not_gone::<N>(gone.insert(core));
    let q = avoids_gone::<N, E>(n0, gone);
    let q1 = avoids_gone::<N, E>(n0, gone.insert(core));
    broadcast use vstd::seq_lib::group_filter_ensures;

    match r {
        Some(n) => {
            let i = choose|i: int| 0 <= i < g0.nodes@.len() && g0.nodes@[i] == n && n.id == core && g1.nodes@ == g0.nodes@.remove(i);
            crate::model::lemma_filter_remove_node(n0, p, i, core);
            crate::model::lemma_filter_agree(n0, |x: crate::model::Node<N>| p(x) && x.id != core, p1);
            assert(n0.filter(p).contains(n));
            n0.lemma_filter_contains_rev(p, n);
            let j0 = choose|j0: int| 0 <= j0 < n0.len() && n0[j0] == n;
            let av = |l: Link<E>| crate::model::link_avoids_node(n, l);
            assert(g1.links@ == g0.links@.filter(av));
            crate::model::lemma_filter_filter(l0, q, av);
            assert(g1.links@ == l0.filter(|l: Link<E>| q(l) && av(l)));
            assert forall|x: int| 0 <= x < l0.len() implies (q(#[trigger] l0[x]) && crate::model::link_avoids_node(n, l0[x])) == q1(l0[x]) by {
                if q(l0[x]) && crate::model::link_avoids_node(n, l0[x]) {
                    assert forall|i2: int| 0 <= i2 < n0.len() && gone.insert(core).contains(#[trigger] n0[i2].id) implies crate::model::link_avoids_node(n0[i2], l0[x]) by {
                        if n0[i2].id == core {
                            assert(n0[i2].id == n0[j0].id);
                        }
                    }
                }
                if q1(l0[x]) {
                    assert(gone.insert(core).contains(n0[j0].id));
                }
            }
            crate::model::lemma_filter_agree(l0, |l: Link<E>| q(l) && av(l), q1);
        },
        None => {
            assert forall|x: int| 0 <= x < n0.len() implies p(#[trigger] n0[x]) == p1(n0[x]) by {
                if p(n0[x]) && n0[x].id == core {
                    assert(n0.filter(p).contains(n0[x]));
                    let i = choose|i: int| 0 <= i < g0.nodes@.len() && g0.nodes@[i] == n0[x];
                    assert(g0.nodes@[i].id == core);
                }
            }
            crate::model::lemma_filter_agree(n0, p, p1);
            assert forall|x: int| 0 <= x < l0.len() implies q(#[trigger] l0[x]) == q1(l0[x]) by {
                if q(l0[x]) {
                    assert forall|i2: int| 0 <= i2 < n0.len() && gone.insert(core).contains(#[trigger] n0[i2].id) implies crate::model::link_avoids_node(n0[i2], l0[x]) by {
                        if !gone.contains(n0[i2].id) {
                            assert(n0[i2].id == core);
                            assert(p(n0[i2]));
                            assert(n0.filter(p).contains(n0[i2]));
                            let i = choose|i: int| 0 <= i < g0.nodes@.len() && g0.nodes@[i] == n0[i2];
                            assert(g0.nodes@[i].id == core);
                        }
                    }
                }
            }
            crate::model::lemma_filter_agree(l0, q, q1);
        },
    }
}

/// `from → to` is refused for no other reason than an existing link.
pub open spec fn link_allowed<N, E>(g: Graph<N, E>, from: PinId, to: PinId) -> bool {
    g.connect_check(from, to) is Ok || g.connect_check(from, to) == Err::<(), GraphError>(
        GraphError::DuplicateLink { from, to },
    )
}

/// Owns the headless [`Graph`] and its editor view; maps each node to its view cell and back.
pub struct NodesEditor<N, E> {
    pub graph: Graph<N, E>,
    pub node_graph: Snarl<u64>,
    core_to_view: IdMap<NodeId, ViewNodeId>,
    view_to_core: IdMap<ViewNodeId, NodeId>,
    pending_changes: GraphChanges,
}

/// The number a view cell holds for node `id`.
pub open spec fn cell_value(id: NodeId) -> u64 {
    id.spec_get() as u64
}

/// Connect, in list order, the pairs `keys` lists that no link joined before the call; a pair
/// the graph refuses is skipped.
/// A link that a graph accepts is accepted by a graph with the same nodes and fewer links.
proof fn lemma_check_ok_with_fewer_links<N, E>(small: Graph<N, E>, big: Graph<N, E>, from: PinId, to: PinId)
    requires
        small.wf(),
        big.wf(),
        small.nodes@ == big.nodes@,
        forall|a: int| 0 <= a < small.links@.len() ==> big.links@.contains(#[trigger] small.links@[a]),
        big.connect_check(from, to) is Ok,
    ensures
        small.connect_check(from, to) is Ok,
{
    Graph::<N, E>::lemma_same_nodes_same_pins(small, big, from);
    Graph::<N, E>::lemma_same_nodes_same_pins(small, big, to);
    if small.has_link_between(from, to) {
        let a = choose|a: int| 0 <= a < small.links@.len() && (#[trigger] small.links@[a]).from == from && small.links@[a].to == to;
        assert(big.links@.contains(small.links@[a]));
        let b = choose|b: int| 0 <= b < big.links@.len() && big.links@[b] == small.links@[a];
        assert(big.links@[b].from == from && big.links@[b].to == to);
    }
}

fn add_missing_links<N, E: Default>(graph: &mut Graph<N, E>, keys: &Vec<(PinId, PinId)>)
    requires
        old(graph).wf(),
        old(graph).next_link_raw() + keys@.len() < u32::MAX,
    ensures
        final(graph).wf(),
        final(graph).nodes@ == old(graph).nodes@,
        final(graph).next_node_raw() == old(graph).next_node_raw(),
        final(graph).next_pin_raw() == old(graph).next_pin_raw(),
        final(graph).next_link_raw() <= old(graph).next_link_raw() + keys@.len(),
        final(graph).links@.len() >= old(graph).links@.len(),
        final(graph).links@.take(old(graph).links@.len() as int) == old(graph).links@,
        forall|j: int|
            old(graph).links@.len() <= j < final(graph).links@.len() ==> keys@.contains(
                ((#[trigger] final(graph).links@[j]).from, final(graph).links@[j].to),
            ),
        forall|k: (PinId, PinId)|
            #[trigger] keys@.contains(k) && link_allowed(*old(graph), k.0, k.1) ==> final(graph).has_link_between(k.0, k.1),
        forall|j: int|
            old(graph).links@.len() <= j < final(graph).links@.len() ==> old(graph).connect_check(
                (#[trigger] final(graph).links@[j]).from,
                final(graph).links@[j].to,
            ) is Ok,
        forall|j1: int, j2: int|
            old(graph).links@.len() <= j1 < j2 < final(graph).links@.len() ==> ((#[trigger] final(graph).links@[j1]).from,
                final(graph).links@[j1].to) != ((#[trigger] final(graph).links@[j2]).from, final(graph).links@[j2].to),
{
    let have = graph.link_key_set();
    let ghost g0 = *graph;
    let mut j: usize = 0;
    while j < keys.len()
        invariant
            g0 == *old(graph),
            g0.wf(),
            graph.wf(),
            graph.nodes@ == g0.nodes@,
            graph.next_node_raw() == g0.next_node_raw(),
            graph.next_pin_raw() == g0.next_pin_raw(),
            g0.next_link_raw() + keys@.len() < u32::MAX,
            j <= keys@.len(),
            graph.next_link_raw() <= g0.next_link_raw() + j,
            graph.links@.len() >= g0.links@.len(),
            graph.links@.take(g0.links@.len() as int) == g0.links@,
            have@ == g0.links@.map_values(|l: Link<E>| (l.from, l.to)),
            forall|x: int|
                g0.links@.len() <= x < graph.links@.len() ==> keys@.contains(
                    ((#[trigger] graph.links@[x]).from, graph.links@[x].to),
                ),
            forall|jj: int|
                0 <= jj < j && link_allowed(g0, (#[trigger] keys@[jj]).0, keys@[jj].1) ==> graph.has_link_between(
                    keys@[jj].0,
                    keys@[jj].1,
                ),
            forall|x: int|
                g0.links@.len() <= x < graph.links@.len() ==> g0.connect_check(
                    (#[trigger] graph.links@[x]).from,
                    graph.links@[x].to,
                ) is Ok,
            forall|x1: int, x2: int|
                g0.links@.len() <= x1 < x2 < graph.links@.len() ==> ((#[trigger] graph.links@[x1]).from,
                    graph.links@[x1].to) != ((#[trigger] graph.links@[x2]).from, graph.links@[x2].to),
        decreases keys@.len() - j,
    {
        let k = keys[j];
        let ghost g1 = *graph;
        proof {
            Graph::<N, E>::lemma_same_nodes_same_pins(g1, g0, k.0);
            Graph::<N, E>::lemma_same_nodes_same_pins(g1, g0, k.1);
            assert forall|jj: int| 0 <= jj < j && g1.has_link_between(keys@[jj].0, keys@[jj].1) implies #[trigger] keys@[jj] == keys@[jj] by {}
        }
        if !has_pin_pair(&have, k) {
            let _ = graph.connect(k.0, k.1, E::default());
            proof {
                if g1.connect_check(k.0, k.1) is Ok {
                    assert forall|a: int| 0 <= a < g0.links@.len() implies g1.links@.contains(#[trigger] g0.links@[a]) by {
                        assert(g1.links@.take(g0.links@.len() as int)[a] == g0.links@[a]);
                        assert(g1.links@[a] == g0.links@[a]);
                    }
                    lemma_check_ok_with_fewer_links(g0, g1, k.0, k.1);
                    let last = graph.links@.len() - 1;
                    assert(graph.links@[last].from == k.0 && graph.links@[last].to == k.1);
                    assert forall|x1: int, x2: int|
                        g0.links@.len() <= x1 < x2 < graph.links@.len() implies ((#[trigger] graph.links@[x1]).from,
                            graph.links@[x1].to) != ((#[trigger] graph.links@[x2]).from, graph.links@[x2].to) by {
                        assert(graph.links@[x1] == g1.links@[x1]);
                        if x2 == last {
                            if (g1.links@[x1].from, g1.links@[x1].to) == (k.0, k.1) {
                                assert(g1.has_link_between(k.0, k.1));
                            }
                        } else {
                            assert(graph.links@[x2] == g1.links@[x2]);
                        }
                    }
                    assert forall|x: int|
                        g0.links@.len() <= x < graph.links@.len() implies g0.connect_check(
                            (#[trigger] graph.links@[x]).from,
                            graph.links@[x].to,
                        ) is Ok by {
                        if x < last {
                            assert(graph.links@[x] == g1.links@[x]);
                        }
                    }
                }

                assert(graph.links@.take(g1.links@.len() as int) =~= g1.links@);
                assert(graph.links@.take(g0.links@.len() as int) =~= g1.links@.take(g0.links@.len() as int));
                assert forall|jj: int|
                    0 <= jj < j + 1 && link_allowed(g0, (#[trigger] keys@[jj]).0, keys@[jj].1) implies graph.has_link_between(
                        keys@[jj].0,
                        keys@[jj].1,
                    ) by {
                    if jj < j {
                        let a = choose|a: int|
                            0 <= a < g1.links@.len() && (#[trigger] g1.links@[a]).from == keys@[jj].0 && g1.links@[a].to == keys@[jj].1;
                        assert(graph.links@[a] == g1.links@[a]);
                    } else if g1.has_link_between(k.0, k.1) {
                        let a = choose|a: int|
                            0 <= a < g1.links@.len() && (#[trigger] g1.links@[a]).from == k.0 && g1.links@[a].to == k.1;
                        assert(graph.links@[a] == g1.links@[a]);
                    } else {
                        assert(g1.connect_check(k.0, k.1) is Ok);
                        assert(graph.links@[graph.links@.len() - 1].from == k.0);
                    }
                }
                assert forall|x: int|
                    g0.links@.len() <= x < graph.links@.len() implies keys@.contains(
                        ((#[trigger] graph.links@[x]).from, graph.links@[x].to),
                    ) by {
                    if x < g1.links@.len() {
                        assert(graph.links@[x] == g1.links@[x]);
                    } else {
                        assert(keys@[j as int] == k);
                    }
                }
            }
        } else {
            proof {
                let c = choose|c: int| 0 <= c < have@.len() && have@[c] == k;
                assert(g0.links@[c].from == k.0 && g0.links@[c].to == k.1);
                assert(g1.links@.take(g0.links@.len() as int)[c] == g0.links@[c]);
                assert(g1.links@[c] == g0.links@[c]);
            }
        }
        j += 1;
    }
    proof {
        assert forall|k: (PinId, PinId)| #[trigger] keys@.contains(k) && link_allowed(g0, k.0, k.1) implies graph.has_link_between(k.0, k.1) by {
            let jj = choose|jj: int| 0 <= jj < keys@.len() && keys@[jj] == k;
        }
    }
}

impl<N, E> NodesEditor<N, E> {
    /// The headless graph.
    pub closed spec fn headless(self) -> Graph<N, E> {
        self.graph
    }

    /// The editor view (the node graph that the canvas draws).
    pub closed spec fn snarl_view(self) -> Snarl<u64> {
        self.node_graph
    }

    /// Node id to view cell.
    pub closed spec fn to_view(self) -> Map<NodeId, ViewNodeId> {
        self.core_to_view@
    }

    /// View cell to node id.
    pub closed spec fn to_core(self) -> Map<ViewNodeId, NodeId> {
        self.view_to_core@
    }

    /// Edits since the last [`NodesEditor::take_graph_changes`]: (topology, payload/layout).
    pub closed spec fn pending(self) -> (bool, bool) {
        (self.pending_changes.topology_changed, self.pending_changes.payload_or_layout_changed)
    }

    /// The graph is well-formed and each map keeps one entry per key.
    pub closed spec fn wf(self) -> bool {
        self.graph.wf() && self.core_to_view.wf() && self.view_to_core.wf()
    }

    /// What [`NodesEditor::map_view_pin_out`] (`out`) or `map_view_pin_in` gives for `pin`.
    pub open spec fn view_pin(self, pin: PinId, out: bool) -> Result<(ViewNodeId, int), NodesEditorError> {
        match self.headless().spec_pin_port(pin) {
            None => Err(NodesEditorError::Graph(GraphError::UnknownPin(pin))),
            Some((n, port, is_out)) => if is_out != out {
                Err(
                    NodesEditorError::Graph(
                        if out {
                            GraphError::NotOutputPin(pin)
                        } else {
                            GraphError::NotInputPin(pin)
                        },
                    ),
                )
            } else if !self.to_view().dom().contains(n) {
                Err(NodesEditorError::UnmappedNode(n))
            } else {
                Ok((self.to_view()[n], port))
            },
        }
    }

    /// The pin that view pin (`v`, `idx`) stands for: pin `idx` among the outputs (`out`) or
    /// inputs of the node cell `v` shows.
    pub open spec fn view_pin_to_graph(self, v: ViewNodeId, idx: int, out: bool) -> Option<PinId> {
        if self.to_core().dom().contains(v) && self.headless().has_node(self.to_core()[v]) {
            let i = node_index(self.headless(), self.to_core()[v]);
            let pins = crate::model::side(self.headless().nodes@[i], out);
            if 0 <= idx < pins.len() {
                Some(pins[idx].id)
            } else {
                None
            }
        } else {
            None
        }
    }

    /// The links the view's wires stand for: `(output pin, input pin)` of each wire whose two
    /// ends stand for pins of the graph.
    pub open spec fn desired_links(self, wires: Set<(usize, usize, usize, usize)>) -> Set<(PinId, PinId)> {
        Set::new(
            |k: (PinId, PinId)|
                exists|w: (usize, usize, usize, usize)|
                    #[trigger] wires.contains(w) && self.view_pin_to_graph(ViewNodeId(w.0), w.1 as int, true) == Some(k.0)
                        && self.view_pin_to_graph(ViewNodeId(w.2), w.3 as int, false) == Some(k.1),
        )
    }

    /// Node `n` as the view shows it: a node shown in a cell takes the cell's position and
    /// collapse state (collapsed exactly when the cell is not open).
    pub open spec fn laid_out_node(self, n: crate::model::Node<N>) -> crate::model::Node<N> {
        laid_out_in(n, self.to_view(), snarl_cells(self.snarl_view()))
    }

    /// Node `n` is shown in a cell whose position differs from its layout (as numbers, see
    /// [`Layout2d::same_position`]) or whose open flag differs from its collapse state.
    pub open spec fn shown_node_changed(self, n: crate::model::Node<N>) -> bool {
        &&& self.to_view().dom().contains(n.id)
        &&& snarl_cells(self.snarl_view()).dom().contains(self.to_view()[n.id].0)
        &&& ({
            let c = snarl_cells(self.snarl_view())[self.to_view()[n.id].0];
            !n.layout.same_position(Layout2d { x_bits: c.1, y_bits: c.2 }) || n.collapsed != !c.3
        })
    }

    /// Some node shown in a cell differs from it in position or collapse state.
    pub open spec fn layout_differs(self) -> bool {
        exists|i: int| 0 <= i < self.headless().nodes@.len() && #[trigger] self.shown_node_changed(self.headless().nodes@[i])
    }

    /// The cells that [`NodesEditor::remove_view_nodes`] removes for `view_nodes`: those listed
    /// that show a node and exist in the view.
    pub open spec fn removable_views(self, view_nodes: Seq<ViewNodeId>) -> Set<ViewNodeId> {
        Set::new(
            |v: ViewNodeId|
                view_nodes.contains(v) && self.to_core().dom().contains(v) && snarl_cells(self.snarl_view()).dom().contains(v.0),
        )
    }

    /// The nodes shown in the cells `views`.
    pub open spec fn cores_of(self, views: Set<ViewNodeId>) -> Set<NodeId> {
        Set::new(|c: NodeId| exists|v: ViewNodeId| views.contains(v) && #[trigger] self.to_core()[v] == c)
    }

    /// The maps, the graph and the view agree: the mapped nodes are exactly the graph's nodes,
    /// the two maps are inverse to each other, and every mapped cell exists.
    pub open spec fn in_sync(self) -> bool {
        &&& forall|n: NodeId| #[trigger] self.to_view().dom().contains(n) <==> self.headless().has_node(n)
        &&& forall|n: NodeId|
            #[trigger] self.to_view().dom().contains(n) ==> self.to_core().dom().contains(self.to_view()[n])
                && self.to_core()[self.to_view()[n]] == n && snarl_cells(self.snarl_view()).dom().contains(self.to_view()[n].0)
        &&& forall|v: ViewNodeId|
            #[trigger] self.to_core().dom().contains(v) ==> self.to_view().dom().contains(self.to_core()[v])
                && self.to_view()[self.to_core()[v]] == v
    }

    /// An empty editor: empty graph and view, nothing mapped, no changes.
    pub fn new() -> (r: Self)
        ensures
            r.wf(),
            r.headless().nodes@.len() == 0,
            r.headless().links@.len() == 0,
            r.headless().next_node_raw() == 1,
            r.headless().next_pin_raw() == 1,
            r.headless().next_link_raw() == 1,
            snarl_cells(r.snarl_view()) == crate::snarl::no_cells(),
            snarl_wires(r.snarl_view()) == crate::snarl::no_wires(),
            r.to_view() == Map::<NodeId, ViewNodeId>::empty(),
            r.to_core() == Map::<ViewNodeId, NodeId>::empty(),
            r.pending() == (false, false),
            r.in_sync(),
    {
        NodesEditor {
            graph: Graph::new(),
            node_graph: snarl_new(),
            core_to_view: IdMap::new(),
            view_to_core: IdMap::new(),
            pending_changes: GraphChanges { topology_changed: false, payload_or_layout_changed: false },
        }
    }

    /// Hand out the accumulated edits and start over: until new edits occur, the next call
    /// returns no changes.
    pub fn take_graph_changes(&mut self) -> (r: GraphChanges)
        ensures
            (r.topology_changed, r.payload_or_layout_changed) == old(self).pending(),
            final(self).pending() == (false, false),
            final(self).headless() == old(self).headless(),
            final(self).snarl_view() == old(self).snarl_view(),
            final(self).to_view() == old(self).to_view(),
            final(self).to_core() == old(self).to_core(),
            final(self).wf() == old(self).wf(),
            final(self).in_sync() == old(self).in_sync(),
    {
        let r = GraphChanges {
            topology_changed: self.pending_changes.topology_changed,
            payload_or_layout_changed: self.pending_changes.payload_or_layout_changed,
        };
        self.pending_changes = GraphChanges { topology_changed: false, payload_or_layout_changed: false };
        r
    }

    /// The view cell of node `core`, if any.
    pub fn view_node_id(&self, core: NodeId) -> (r: Option<ViewNodeId>)
        requires
            self.wf(),
        ensures
            r is Some <==> self.to_view().dom().contains(core),
            r matches Some(v) ==> v == self.to_view()[core],
    {
        match self.core_to_view.get(core) {
            Some(v) => Some(*v),
            None => None,
        }
    }

    /// The node shown in view cell `view`, if any.
    pub fn core_node_id(&self, view: ViewNodeId) -> (r: Option<NodeId>)
        requires
            self.wf(),
        ensures
            r is Some <==> self.to_core().dom().contains(view),
            r matches Some(n) ==> n == self.to_core()[view],
    {
        match self.view_to_core.get(view) {
            Some(n) => Some(*n),
            None => None,
        }
    }

    /// Add a node with explicit pin types to the graph (pin counts follow the slice lengths)
    /// and an open view cell for it at its layout position; both kinds of change are recorded.
    pub fn insert_node_with_pin_types(
        &mut self,
        data: N,
        layout: Layout2d,
        input_types: &[PinType],
        output_types: &[PinType],
    ) -> (id: NodeId)
        requires
            old(self).wf(),
            old(self).headless().can_add_node(input_types@.len() + output_types@.len()),
        ensures
            final(self).wf(),
            !old(self).headless().has_node(id),
            id.spec_get() == old(self).headless().next_node_raw(),
            final(self).headless().nodes@ == old(self).headless().nodes@.push(final(self).headless().nodes@.last()),
            final(self).headless().links@ == old(self).headless().links@,
            Graph::<N, E>::is_new_node(
                final(self).headless().nodes@.last(),
                id,
                data,
                layout,
                input_types@,
                output_types@,
                old(self).headless().next_pin_raw() as int,
            ),
            final(self).headless().next_node_raw() == old(self).headless().next_node_raw() + 1,
            final(self).headless().next_pin_raw() == old(self).headless().next_pin_raw() + input_types@.len()
                + output_types@.len(),
            final(self).headless().next_link_raw() == old(self).headless().next_link_raw(),
            final(self).to_view() == old(self).to_view().insert(id, final(self).to_view()[id]),
            final(self).to_core() == old(self).to_core().insert(final(self).to_view()[id], id),
            !snarl_cells(old(self).snarl_view()).dom().contains(final(self).to_view()[id].0),
            snarl_cells(final(self).snarl_view()).dom() == snarl_cells(old(self).snarl_view()).dom().insert(final(self).to_view()[id].0),
            snarl_cells(final(self).snarl_view())[final(self).to_view()[id].0] == (
                cell_value(id),
                layout.x_bits,
                layout.y_bits,
                true,
            ),
            forall|i: usize| #[trigger] snarl_cells(old(self).snarl_view()).dom().contains(i) ==> snarl_cells(final(self).snarl_view())[i]
                == snarl_cells(old(self).snarl_view())[i],
            snarl_wires(final(self).snarl_view()) == snarl_wires(old(self).snarl_view()),
            final(self).pending() == (true, true),
            old(self).in_sync() ==> final(self).in_sync(),
    {
        let id = self.graph.add_node_with_pin_types(data, layout, input_types, output_types);
        let collapsed = match self.graph.node(id) {
            Some(n) => n.collapsed,
            None => false,
        };
        proof {
            if collapsed {
                let i = choose|i: int| 0 <= i < self.graph.nodes@.len() && self.graph.nodes@[i].id == id && self.graph.nodes@[i].collapsed;
                assert(self.graph.nodes@[i] == self.graph.nodes@[self.graph.nodes@.len() - 1]);
            }
        }
        let sn = if collapsed {
            snarl_insert_node_collapsed(&mut self.node_graph, layout, id.get() as u64)
        } else {
            snarl_insert_node(&mut self.node_graph, layout, id.get() as u64)
        };
        self.core_to_view.insert(id, ViewNodeId(sn));
        self.view_to_core.insert(ViewNodeId(sn), id);
        self.pending_changes.topology_changed = true;
        self.pending_changes.payload_or_layout_changed = true;
        proof {
            if old(self).in_sync() {
                let c = ViewNodeId(sn);
                let g0 = old(self).graph;
                assert(!old(self).to_core().dom().contains(c)) by {
                    if old(self).to_core().dom().contains(c) {
                        let n0 = old(self).to_core()[c];
                        assert(old(self).to_view()[n0] == c);
                    }
                }
                assert forall|n: NodeId| #[trigger] self.to_view().dom().contains(n) <==> self.headless().has_node(n) by {
                    assert(old(self).to_view().dom().contains(n) <==> old(self).headless().has_node(n));
                    if self.headless().has_node(n) && n != id {
                        let i = choose|i: int| 0 <= i < self.graph.nodes@.len() && #[trigger] self.graph.nodes@[i].id == n;
                        assert(i < g0.nodes@.len());
                        assert(g0.nodes@[i].id == n);
                    }
                    if old(self).headless().has_node(n) {
                        let i = choose|i: int| 0 <= i < g0.nodes@.len() && #[trigger] g0.nodes@[i].id == n;
                        assert(self.graph.nodes@[i].id == n);
                    }
                    if n == id {
                        assert(self.graph.nodes@[self.graph.nodes@.len() - 1].id == n);
                    }
                }
                assert forall|n: NodeId| #[trigger] self.to_view().dom().contains(n) implies self.to_core().dom().contains(self.to_view()[n])
                    && self.to_core()[self.to_view()[n]] == n && snarl_cells(self.snarl_view()).dom().contains(self.to_view()[n].0) by {
                    if n != id {
                        assert(old(self).to_view().dom().contains(n));
                        assert(old(self).to_view()[n] != c);
                    }
                }
                assert forall|v: ViewNodeId| #[trigger] self.to_core().dom().contains(v) implies self.to_view().dom().contains(self.to_core()[v])
                    && self.to_view()[self.to_core()[v]] == v by {
                    if v != c {
                        assert(old(self).to_core().dom().contains(v));
                        assert(old(self).to_core()[v] != id);
                    }
                }
            }
        }
        id
    }

    /// Add a node with `inputs` and `outputs` pins of type [`PinType::Any`]; see
    /// [`NodesEditor::insert_node_with_pin_types`].
    pub fn insert_node(&mut self, data: N, layout: Layout2d, inputs: usize, outputs: usize) -> (id: NodeId)
        requires
            old(self).wf(),
            old(self).headless().can_add_node((inputs + outputs) as nat),
        ensures
            final(self).wf(),
            !old(self).headless().has_node(id),
            id.spec_get() == old(self).headless().next_node_raw(),
            final(self).headless().nodes@ == old(self).headless().nodes@.push(final(self).headless().nodes@.last()),
            final(self).headless().links@ == old(self).headless().links@,
            Graph::<N, E>::is_new_node(
                final(self).headless().nodes@.last(),
                id,
                data,
                layout,
                Seq::new(inputs as nat, |k: int| PinType::Any),
                Seq::new(outputs as nat, |k: int| PinType::Any),
                old(self).headless().next_pin_raw() as int,
            ),
            final(self).headless().next_node_raw() == old(self).headless().next_node_raw() + 1,
            final(self).headless().next_pin_raw() == old(self).headless().next_pin_raw() + inputs + outputs,
            final(self).headless().next_link_raw() == old(self).headless().next_link_raw(),
            final(self).to_view() == old(self).to_view().insert(id, final(self).to_view()[id]),
            final(self).to_core() == old(self).to_core().insert(final(self).to_view()[id], id),
            !snarl_cells(old(self).snarl_view()).dom().contains(final(self).to_view()[id].0),
            snarl_cells(final(self).snarl_view()).dom() == snarl_cells(old(self).snarl_view()).dom().insert(final(self).to_view()[id].0),
            snarl_cells(final(self).snarl_view())[final(self).to_view()[id].0] == (
                cell_value(id),
                layout.x_bits,
                layout.y_bits,
                true,
            ),
            forall|i: usize| #[trigger] snarl_cells(old(self).snarl_view()).dom().contains(i) ==> snarl_cells(final(self).snarl_view())[i]
                == snarl_cells(old(self).snarl_view())[i],
            snarl_wires(final(self).snarl_view()) == snarl_wires(old(self).snarl_view()),
            final(self).pending() == (true, true),
            old(self).in_sync() ==> final(self).in_sync(),
    {
        let in_t = crate::model::any_types(inputs);
        let out_t = crate::model::any_types(outputs);
        self.insert_node_with_pin_types(data, layout, in_t.as_slice(), out_t.as_slice())
    }

    /// Connect output pin `from` to input pin `to` in the graph and in the view.
    ///
    /// The graph decides first (its errors come back as [`NodesEditorError::Graph`]); a pin
    /// whose node has no view cell is [`NodesEditorError::UnmappedNode`], and a wire the view
    /// already has is [`NodesEditorError::ViewRejectedWire`]; on either, the new link is removed
    /// again, so the link ends up in both stores or in neither. Only a success is recorded as a
    /// change.
    pub fn connect_pins(&mut self, from: PinId, to: PinId, data: E) -> (r: Result<LinkId, NodesEditorError>)
        requires
            old(self).wf(),
            old(self).headless().can_add_link(),
            old(self).view_pin(from, true) matches Ok((v, _)) ==> snarl_cells(old(self).snarl_view()).dom().contains(v.0),
            old(self).view_pin(to, false) matches Ok((v, _)) ==> snarl_cells(old(self).snarl_view()).dom().contains(v.0),
        ensures
            final(self).wf(),
            final(self).to_view() == old(self).to_view(),
            final(self).to_core() == old(self).to_core(),
            final(self).headless().nodes@ == old(self).headless().nodes@,
            final(self).headless().next_node_raw() == old(self).headless().next_node_raw(),
            final(self).headless().next_pin_raw() == old(self).headless().next_pin_raw(),
            snarl_cells(final(self).snarl_view()) == snarl_cells(old(self).snarl_view()),
            old(self).in_sync() ==> final(self).in_sync(),
            match old(self).headless().connect_check(from, to) {
                Err(e) => r == Err::<LinkId, NodesEditorError>(NodesEditorError::Graph(e)) && final(self).headless().links@
                    == old(self).headless().links@ && final(self).headless().next_link_raw() == old(self).headless().next_link_raw()
                    && final(self).snarl_view() == old(self).snarl_view() && final(self).pending() == old(self).pending(),
                Ok(()) => {
                    let lid = final(self).headless().links@.last().id;
                    let added = old(self).headless().links@.push(Link { id: lid, from, to, data });
                    &&& final(self).headless().links@ != old(self).headless().links@ ==> lid.spec_get()
                        == old(self).headless().next_link_raw()
                    &&& final(self).headless().next_link_raw() == old(self).headless().next_link_raw() + 1
                    &&& match (old(self).view_pin(from, true), old(self).view_pin(to, false)) {
                        (Err(e), _) => r == Err::<LinkId, NodesEditorError>(e) && final(self).headless().links@
                            == old(self).headless().links@ && final(self).snarl_view() == old(self).snarl_view() && final(self).pending()
                            == old(self).pending(),
                        (Ok(_), Err(e)) => r == Err::<LinkId, NodesEditorError>(e) && final(self).headless().links@
                            == old(self).headless().links@ && final(self).snarl_view() == old(self).snarl_view() && final(self).pending()
                            == old(self).pending(),
                        (Ok((a, oi)), Ok((b, ii))) => if snarl_wires(old(self).snarl_view()).contains((a.0, oi as usize, b.0, ii as usize)) {
                            &&& r == Err::<LinkId, NodesEditorError>(NodesEditorError::ViewRejectedWire)
                            &&& final(self).headless().links@ == old(self).headless().links@
                            &&& snarl_wires(final(self).snarl_view()) == snarl_wires(old(self).snarl_view())
                            &&& final(self).pending() == old(self).pending()
                        } else {
                            &&& r == Ok::<LinkId, NodesEditorError>(lid)
                            &&& final(self).headless().links@ == added
                            &&& snarl_wires(final(self).snarl_view()) == snarl_wires(old(self).snarl_view()).insert(
                                (a.0, oi as usize, b.0, ii as usize),
                            )
                            &&& final(self).pending() == (true, true)
                        },
                    }
                },
            },
    {
        let lid = match self.graph.connect(from, to, data) {
            Ok(l) => l,
            Err(e) => {
                return Err(NodesEditorError::Graph(e));
            },
        };
        proof {
            assert(self.headless().links@.last().id == lid);
            Graph::<N, E>::lemma_same_nodes_same_pins(self.graph, old(self).graph, from);
            Graph::<N, E>::lemma_same_nodes_same_pins(self.graph, old(self).graph, to);
            assert(self.view_pin(from, true) == old(self).view_pin(from, true));
            assert(self.view_pin(to, false) == old(self).view_pin(to, false));
        }
        let (a, oi) = match self.map_view_pin_out(from) {
            Ok(x) => x,
            Err(e) => {
            let ghost g1 = self.graph;
            let _ = self.graph.disconnect_link(lid);
            proof {
                broadcast use LinkId::lemma_id;
                old(self).graph.lemma_link_ids_below();
                let a2 = choose|a2: int| 0 <= a2 < g1.links@.len() && g1.links@[a2].id == lid && self.graph.links@ == g1.links@.remove(a2);
                if a2 < g1.links@.len() - 1 {
                    assert(g1.links@[a2] == old(self).graph.links@[a2]);
                    assert(old(self).graph.links@[a2].id.spec_get() < old(self).graph.next_link_raw());
                }
                assert(self.graph.links@ =~= old(self).graph.links@);
            }
                return Err(e);
            },
        };
        let (b, ii) = match self.map_view_pin_in(to) {
            Ok(x) => x,
            Err(e) => {
            let ghost g1 = self.graph;
            let _ = self.graph.disconnect_link(lid);
            proof {
                broadcast use LinkId::lemma_id;
                old(self).graph.lemma_link_ids_below();
                let a2 = choose|a2: int| 0 <= a2 < g1.links@.len() && g1.links@[a2].id == lid && self.graph.links@ == g1.links@.remove(a2);
                if a2 < g1.links@.len() - 1 {
                    assert(g1.links@[a2] == old(self).graph.links@[a2]);
                    assert(old(self).graph.links@[a2].id.spec_get() < old(self).graph.next_link_raw());
                }
                assert(self.graph.links@ =~= old(self).graph.links@);
            }
                return Err(e);
            },
        };
        let ok = snarl_connect(&mut self.node_graph, a.0, oi, b.0, ii);
        if !ok {
            let ghost g1 = self.graph;
            let _ = self.graph.disconnect_link(lid);
            proof {
                broadcast use LinkId::lemma_id;
                old(self).graph.lemma_link_ids_below();
                let a2 = choose|a2: int| 0 <= a2 < g1.links@.len() && g1.links@[a2].id == lid && self.graph.links@ == g1.links@.remove(a2);
                if a2 < g1.links@.len() - 1 {
                    assert(g1.links@[a2] == old(self).graph.links@[a2]);
                    assert(old(self).graph.links@[a2].id.spec_get() < old(self).graph.next_link_raw());
                }
                assert(self.graph.links@ =~= old(self).graph.links@);
            }
            return Err(NodesEditorError::ViewRejectedWire);
        }
        self.pending_changes.topology_changed = true;
        self.pending_changes.payload_or_layout_changed = true;
        Ok(lid)
    }

    /// The graph pin that view pin (`v`, output `idx`) stands for.
    fn graph_pin_from_view_out(&self, v: ViewNodeId, idx: usize) -> (r: Result<PinId, ()>)
        requires
            self.wf(),
        ensures
            match self.view_pin_to_graph(v, idx as int, true) {
                Some(p) => r == Ok::<PinId, ()>(p),
                None => r is Err,
            },
    {
        let nid = match self.view_to_core.get(v) {
            Some(n) => *n,
            None => {
                return Err(());
            },
        };
        let node = match self.graph.node(nid) {
            Some(n) => n,
            None => {
                return Err(());
            },
        };
        proof {
            let i = choose|i: int| 0 <= i < self.graph.nodes@.len() && self.graph.nodes@[i] == *node && node.id == nid;
            let j = node_index(self.headless(), nid);
            assert(self.graph.nodes@[j].id == self.graph.nodes@[i].id);
        }
        if idx < node.outputs.len() {
            Ok(node.outputs[idx].id)
        } else {
            Err(())
        }
    }

    /// The graph pin that view pin (`v`, input `idx`) stands for.
    fn graph_pin_from_view_in(&self, v: ViewNodeId, idx: usize) -> (r: Result<PinId, ()>)
        requires
            self.wf(),
        ensures
            match self.view_pin_to_graph(v, idx as int, false) {
                Some(p) => r == Ok::<PinId, ()>(p),
                None => r is Err,
            },
    {
        let nid = match self.view_to_core.get(v) {
            Some(n) => *n,
            None => {
                return Err(());
            },
        };
        let node = match self.graph.node(nid) {
            Some(n) => n,
            None => {
                return Err(());
            },
        };
        proof {
            let i = choose|i: int| 0 <= i < self.graph.nodes@.len() && self.graph.nodes@[i] == *node && node.id == nid;
            let j = node_index(self.headless(), nid);
            assert(self.graph.nodes@[j].id == self.graph.nodes@[i].id);
        }
        if idx < node.inputs.len() {
            Ok(node.inputs[idx].id)
        } else {
            Err(())
        }
    }

    /// The links the view's wires stand for, each at least once.
    fn view_desired_links(&self) -> (v: Vec<(PinId, PinId)>)
        requires
            self.wf(),
        ensures
            forall|k: (PinId, PinId)| #[trigger] v@.contains(k) <==> self.desired_links(snarl_wires(self.snarl_view())).contains(k),
            snarl_wires(self.snarl_view()).finite(),
            v@.len() <= snarl_wires(self.snarl_view()).len(),
    {
        let ws = crate::snarl::snarl_wire_list(&self.node_graph);
        let mut v: Vec<(PinId, PinId)> = Vec::new();
        let mut i: usize = 0;
        while i < ws.len()
            invariant
                self.wf(),
                i <= ws@.len(),
                v@.len() <= i,
                forall|k: (PinId, PinId)| #[trigger] v@.contains(k) <==> exists|j: int|
                    0 <= j < i && self.view_pin_to_graph(ViewNodeId(ws@[j].0), ws@[j].1 as int, true) == Some(k.0)
                        && self.view_pin_to_graph(ViewNodeId(ws@[j].2), ws@[j].3 as int, false) == Some(k.1),
            decreases ws@.len() - i,
        {
            let w = ws[i];
            let ghost v0 = v@;
            match (self.graph_pin_from_view_out(ViewNodeId(w.0), w.1), self.graph_pin_from_view_in(ViewNodeId(w.2), w.3)) {
                (Ok(og), Ok(ig)) => {
                    v.push((og, ig));
                },
                _ => {},
            }
            proof {
                assert forall|k: (PinId, PinId)| #[trigger] v@.contains(k) <==> exists|j: int|
                    0 <= j < i + 1 && self.view_pin_to_graph(ViewNodeId(ws@[j].0), ws@[j].1 as int, true) == Some(k.0)
                        && self.view_pin_to_graph(ViewNodeId(ws@[j].2), ws@[j].3 as int, false) == Some(k.1) by {
                    if v@.contains(k) {
                        let u = choose|u: int| 0 <= u < v@.len() && v@[u] == k;
                        if u < v0.len() {
                            assert(v0.contains(k));
                        } else {
                            assert(ws@[i as int] == w);
                        }
                    }
                    if exists|j: int|
                        0 <= j < i + 1 && self.view_pin_to_graph(ViewNodeId(ws@[j].0), ws@[j].1 as int, true) == Some(k.0)
                            && self.view_pin_to_graph(ViewNodeId(ws@[j].2), ws@[j].3 as int, false) == Some(k.1) {
                        let j = choose|j: int|
                            0 <= j < i + 1 && self.view_pin_to_graph(ViewNodeId(ws@[j].0), ws@[j].1 as int, true) == Some(k.0)
                                && self.view_pin_to_graph(ViewNodeId(ws@[j].2), ws@[j].3 as int, false) == Some(k.1);
                        if j < i {
                            assert(v0.contains(k));
                            let u = choose|u: int| 0 <= u < v0.len() && v0[u] == k;
                            assert(v@[u] == k);
                        } else {
                            assert(ws@[i as int] == w);
                            assert(v@[v0.len() as int] == k);
                        }
                    }
                }
            }
            i += 1;
        }
        proof {
            ws@.unique_seq_to_set();
            assert forall|k: (PinId, PinId)| #[trigger] v@.contains(k) <==> self.desired_links(snarl_wires(self.snarl_view())).contains(k) by {
                if v@.contains(k) {
                    let j = choose|j: int|
                        0 <= j < ws@.len() && self.view_pin_to_graph(ViewNodeId(ws@[j].0), ws@[j].1 as int, true) == Some(k.0)
                            && self.view_pin_to_graph(ViewNodeId(ws@[j].2), ws@[j].3 as int, false) == Some(k.1);
                    assert(ws@.to_set().contains(ws@[j]));
                    assert(snarl_wires(self.snarl_view()).contains(ws@[j]));
                }
                if self.desired_links(snarl_wires(self.snarl_view())).contains(k) {
                    let w = choose|w: (usize, usize, usize, usize)|
                        #[trigger] snarl_wires(self.snarl_view()).contains(w) && self.view_pin_to_graph(ViewNodeId(w.0), w.1 as int, true) == Some(k.0)
                            && self.view_pin_to_graph(ViewNodeId(w.2), w.3 as int, false) == Some(k.1);
                    assert(ws@.to_set().contains(w));
                    assert(ws@.contains(w));
                    let j = choose|j: int| 0 <= j < ws@.len() && ws@[j] == w;
                }
            }
        }
        v
    }

    /// Bring the graph's links in line with the view's wires (the view is authoritative): links
    /// whose pins no wire joins are removed, the others keep their order, and then each pair
    /// of pins a wire joins that no link joined before is connected (unless the graph refuses
    /// it).
    fn sync_links_from_node_graph(&mut self)
        where E: Default,
        requires
            old(self).wf(),
            old(self).headless().next_link_raw() + snarl_wires(old(self).snarl_view()).len() < u32::MAX,
        ensures
            final(self).wf(),
            final(self).headless().nodes@ == old(self).headless().nodes@,
            final(self).headless().next_node_raw() == old(self).headless().next_node_raw(),
            final(self).headless().next_pin_raw() == old(self).headless().next_pin_raw(),
            final(self).snarl_view() == old(self).snarl_view(),
            final(self).to_view() == old(self).to_view(),
            final(self).to_core() == old(self).to_core(),
            final(self).pending() == old(self).pending(),
            ({
                let d = old(self).desired_links(snarl_wires(old(self).snarl_view()));
                let kept = old(self).headless().links@.filter(|l: Link<E>| d.contains((l.from, l.to)));
                &&& final(self).headless().links@.len() >= kept.len()
                &&& final(self).headless().links@.take(kept.len() as int) == kept
                &&& forall|j: int|
                    kept.len() <= j < final(self).headless().links@.len() ==> d.contains(
                        ((#[trigger] final(self).headless().links@[j]).from, final(self).headless().links@[j].to),
                    )
                &&& forall|k: (PinId, PinId)|
                    #[trigger] d.contains(k) && link_allowed(old(self).headless(), k.0, k.1)
                        ==> final(self).headless().has_link_between(k.0, k.1)
                &&& forall|j: int|
                    kept.len() <= j < final(self).headless().links@.len() ==> old(self).headless().connect_check(
                        (#[trigger] final(self).headless().links@[j]).from,
                        final(self).headless().links@[j].to,
                    ) is Ok
                &&& forall|j1: int, j2: int|
                    kept.len() <= j1 < j2 < final(self).headless().links@.len() ==> (
                        (#[trigger] final(self).headless().links@[j1]).from,
                        final(self).headless().links@[j1].to,
                    ) != ((#[trigger] final(self).headless().links@[j2]).from, final(self).headless().links@[j2].to)
            }),
    {
        let desired = self.view_desired_links();
        let ghost d = old(self).desired_links(snarl_wires(old(self).snarl_view()));
        proof {
            assert((|l: Link<E>| desired@.contains((l.from, l.to))) =~= (|l: Link<E>| d.contains((l.from, l.to))));
        }
        self.graph.retain_links_keyed(&desired);
        let ghost g1 = self.graph;
        add_missing_links(&mut self.graph, &desired);
        proof {
            assert forall|k: (PinId, PinId)| #[trigger] d.contains(k) && link_allowed(old(self).headless(), k.0, k.1) implies self.headless().has_link_between(k.0, k.1) by {
                assert(desired@.contains(k));
                Graph::<N, E>::lemma_same_nodes_same_pins(g1, old(self).graph, k.0);
                Graph::<N, E>::lemma_same_nodes_same_pins(g1, old(self).graph, k.1);
                if g1.connect_check(k.0, k.1) is Err {
                    if g1.has_link_between(k.0, k.1) {
                        let a = choose|a: int|
                            0 <= a < g1.links@.len() && (#[trigger] g1.links@[a]).from == k.0 && g1.links@[a].to == k.1;
                        assert(self.graph.links@.take(g1.links@.len() as int)[a] == g1.links@[a]);
                    }
                }
                assert(link_allowed(g1, k.0, k.1));
            }
            let g0 = old(self).graph;
            let kept = g0.links@.filter(|l: Link<E>| d.contains((l.from, l.to)));
            assert(g1.links@ == kept);
            assert forall|j: int|
                kept.len() <= j < self.graph.links@.len() implies g0.connect_check(
                    (#[trigger] self.graph.links@[j]).from,
                    self.graph.links@[j].to,
                ) is Ok by {
                let k = (self.graph.links@[j].from, self.graph.links@[j].to);
                assert(g1.connect_check(k.0, k.1) is Ok);
                assert(d.contains(k));
                Graph::<N, E>::lemma_same_nodes_same_pins(g1, g0, k.0);
                Graph::<N, E>::lemma_same_nodes_same_pins(g1, g0, k.1);
                if g0.has_link_between(k.0, k.1) {
                    broadcast use vstd::seq_lib::group_filter_ensures;
                    let a = choose|a: int| 0 <= a < g0.links@.len() && (#[trigger] g0.links@[a]).from == k.0 && g0.links@[a].to == k.1;
                    assert(kept.contains(g0.links@[a]));
                    let b = choose|b: int| 0 <= b < kept.len() && kept[b] == g0.links@[a];
                    assert(g1.links@[b].from == k.0 && g1.links@[b].to == k.1);
                    assert(g1.has_link_between(k.0, k.1));
                }
            }
        }
    }

    /// Whether some node shown in a cell differs from it in position or collapse state.
    fn layout_changed(&self) -> (r: bool)
        requires
            self.wf(),
        ensures
            r == self.layout_differs(),
    {
        let mut i: usize = 0;
        while i < self.graph.nodes.len()
            invariant
                self.wf(),
                i <= self.headless().nodes@.len(),
                forall|j: int| 0 <= j < i ==> !#[trigger] self.shown_node_changed(self.headless().nodes@[j]),
            decreases self.headless().nodes@.len() - i,
        {
            let n = &self.graph.nodes[i];
            match self.core_to_view.get(n.id) {
                Some(v) => {
                    match crate::snarl::snarl_node_info(&self.node_graph, v.0) {
                        Some(info) => {
                            if !(n.layout == info.1) || n.collapsed != !info.2 {
                                proof {
                                    assert(self.shown_node_changed(self.headless().nodes@[i as int]));
                                }
                                return true;
                            }
                        },
                        None => {},
                    }
                },
                None => {},
            }
            i += 1;
        }
        false
    }

    /// Copy position and collapse state from each mapped cell into its node.
    fn apply_layout_from_view(&mut self)
        requires
            old(self).wf(),
        ensures
            final(self).wf(),
            final(self).headless().nodes@ == Seq::new(
                old(self).headless().nodes@.len(),
                |i: int| old(self).laid_out_node(old(self).headless().nodes@[i]),
            ),
            final(self).headless().nodes@.len() == old(self).headless().nodes@.len(),
            forall|i: int|
                0 <= i < old(self).headless().nodes@.len() ==> (#[trigger] final(self).headless().nodes@[i]).id
                    == old(self).headless().nodes@[i].id && final(self).headless().nodes@[i].label
                    == old(self).headless().nodes@[i].label && final(self).headless().nodes@[i].data
                    == old(self).headless().nodes@[i].data && final(self).headless().nodes@[i].inputs
                    == old(self).headless().nodes@[i].inputs && final(self).headless().nodes@[i].outputs
                    == old(self).headless().nodes@[i].outputs,
            forall|i: int|
                0 <= i < old(self).headless().nodes@.len() && old(self).to_view().dom().contains(
                    old(self).headless().nodes@[i].id,
                ) && snarl_cells(old(self).snarl_view()).dom().contains(
                    old(self).to_view()[old(self).headless().nodes@[i].id].0,
                ) ==> (#[trigger] final(self).headless().nodes@[i]).collapsed == !snarl_cells(
                    old(self).snarl_view(),
                )[old(self).to_view()[old(self).headless().nodes@[i].id].0].3 && final(self).headless().nodes@[i].layout
                    == (Layout2d {
                    x_bits: snarl_cells(old(self).snarl_view())[old(self).to_view()[old(self).headless().nodes@[i].id].0].1,
                    y_bits: snarl_cells(old(self).snarl_view())[old(self).to_view()[old(self).headless().nodes@[i].id].0].2,
                }),
            forall|i: int|
                0 <= i < old(self).headless().nodes@.len() && !(old(self).to_view().dom().contains(
                    old(self).headless().nodes@[i].id,
                ) && snarl_cells(old(self).snarl_view()).dom().contains(
                    old(self).to_view()[old(self).headless().nodes@[i].id].0,
                )) ==> (#[trigger] final(self).headless().nodes@[i]) == old(self).headless().nodes@[i],
            final(self).headless().links@ == old(self).headless().links@,
            final(self).headless().next_node_raw() == old(self).headless().next_node_raw(),
            final(self).headless().next_pin_raw() == old(self).headless().next_pin_raw(),
            final(self).headless().next_link_raw() == old(self).headless().next_link_raw(),
            final(self).snarl_view() == old(self).snarl_view(),
            final(self).to_view() == old(self).to_view(),
            final(self).to_core() == old(self).to_core(),
            final(self).pending() == old(self).pending(),
    {
        let ghost n0 = self.graph.nodes@;
        let ghost cells = snarl_cells(self.node_graph);
        let entries = self.core_to_view.as_slice();
        let mut t: usize = 0;
        proof {
            assert(Seq::new(n0.len(), |i: int| laid_out_in(n0[i], crate::id_map::entries_to_map(entries@.take(0)), cells)) =~= n0);
        }
        while t < entries.len()
            invariant
                self.graph.wf(),
                self.core_to_view == old(self).core_to_view,
                self.view_to_core == old(self).view_to_core,
                self.node_graph == old(self).node_graph,
                self.pending_changes == old(self).pending_changes,
                self.graph.links@ == old(self).graph.links@,
                self.graph.next_node_raw() == old(self).graph.next_node_raw(),
                self.graph.next_pin_raw() == old(self).graph.next_pin_raw(),
                self.graph.next_link_raw() == old(self).graph.next_link_raw(),
                n0 == old(self).graph.nodes@,
                old(self).graph.wf(),
                cells == snarl_cells(self.node_graph),
                crate::id_map::distinct_keys(entries@),
                crate::id_map::entries_to_map(entries@) == old(self).to_view(),
                t <= entries@.len(),
                self.graph.nodes@ == Seq::new(
                    n0.len(),
                    |i: int| laid_out_in(n0[i], crate::id_map::entries_to_map(entries@.take(t as int)), cells),
                ),
            decreases entries@.len() - t,
        {
            let nid = entries[t].0;
            let snid = entries[t].1;
            let ghost shown0 = crate::id_map::entries_to_map(entries@.take(t as int));
            proof {
                assert(entries@.take(t + 1) =~= entries@.take(t as int).push(entries@[t as int]));
                assert(crate::id_map::distinct_keys(entries@.take(t as int))) by {
                    assert forall|a: int, b: int| 0 <= a < t && 0 <= b < t && #[trigger] entries@.take(t as int)[a].0 == #[trigger] entries@.take(t as int)[b].0 implies a == b by {
                        assert(entries@[a].0 == entries@[b].0);
                    }
                }
                if shown0.dom().contains(nid) {
                    let c = choose|c: int| 0 <= c < t && #[trigger] entries@.take(t as int)[c].0 == nid;
                    assert(entries@[c].0 == entries@[t as int].0);
                }
                crate::id_map::lemma_map_push(entries@.take(t as int), nid, snid);
            }
            let ghost before = self.graph.nodes@;
            match crate::snarl::snarl_node_info(&self.node_graph, snid.0) {
                Some(info) => {
                    match self.graph.node_mut(nid) {
                        Some(n) => {
                            n.layout = info.1;
                            n.collapsed = !info.2;
                        },
                        None => {},
                    }
                },
                None => {},
            }
            proof {
                let shown1 = crate::id_map::entries_to_map(entries@.take(t + 1));
                assert forall|i: int| 0 <= i < n0.len() implies #[trigger] self.graph.nodes@[i] == laid_out_in(n0[i], shown1, cells) by {
                    assert(before[i] == laid_out_in(n0[i], shown0, cells));
                    if n0[i].id == nid {
                        assert(!shown0.dom().contains(nid));
                        if self.graph.nodes@ != before {
                            let i2 = choose|i2: int| 0 <= i2 < before.len() && before[i2].id == nid && self.graph.nodes@ == before.update(i2, self.graph.nodes@[i2]);
                            assert(before[i2] == laid_out_in(n0[i2], shown0, cells));
                            assert(before[i2].id == n0[i2].id);
                            assert(n0[i2].id == n0[i].id);
                            assert(i2 == i);
                        }
                    } else if self.graph.nodes@ != before {
                        let i2 = choose|i2: int| 0 <= i2 < before.len() && before[i2].id == nid && self.graph.nodes@ == before.update(i2, self.graph.nodes@[i2]);
                        assert(before[i2] == laid_out_in(n0[i2], shown0, cells));
                        assert(before[i2].id == n0[i2].id);
                        assert(i2 != i);
                    }
                }
                assert(self.graph.nodes@ =~= Seq::new(n0.len(), |i: int| laid_out_in(n0[i], shown1, cells)));
                Graph::<N, E>::lemma_wf_same_shape(old(self).graph, self.graph);
            }
            t += 1;
        }
        proof {
            assert(entries@.take(entries@.len() as int) =~= entries@);
        }
    }

    /// End-of-frame sync, the view being authoritative: nodes take the position and collapse
    /// state of their cells, links follow the wires (see the link rules below), and the
    /// changes are recorded: topology when the set of linked pin pairs changed, payload/layout
    /// when that or a node's position or collapse state changed.
    ///
    /// Links: those whose pins no wire joins are removed, the others keep their order, and then
    /// each pair of pins a wire joins that no link joined before is connected (unless the
    /// graph refuses it).
    pub fn sync_graph_from_node_graph(&mut self)
        where E: Default,
        requires
            old(self).wf(),
            old(self).headless().next_link_raw() + snarl_wires(old(self).snarl_view()).len() < u32::MAX,
        ensures
            final(self).wf(),
            final(self).headless().nodes@ == Seq::new(
                old(self).headless().nodes@.len(),
                |i: int| old(self).laid_out_node(old(self).headless().nodes@[i]),
            ),
            final(self).headless().nodes@.len() == old(self).headless().nodes@.len(),
            forall|i: int|
                0 <= i < old(self).headless().nodes@.len() ==> (#[trigger] final(self).headless().nodes@[i]).id
                    == old(self).headless().nodes@[i].id && final(self).headless().nodes@[i].label
                    == old(self).headless().nodes@[i].label && final(self).headless().nodes@[i].data
                    == old(self).headless().nodes@[i].data && final(self).headless().nodes@[i].inputs
                    == old(self).headless().nodes@[i].inputs && final(self).headless().nodes@[i].outputs
                    == old(self).headless().nodes@[i].outputs,
            forall|i: int|
                0 <= i < old(self).headless().nodes@.len() && old(self).to_view().dom().contains(
                    old(self).headless().nodes@[i].id,
                ) && snarl_cells(old(self).snarl_view()).dom().contains(
                    old(self).to_view()[old(self).headless().nodes@[i].id].0,
                ) ==> (#[trigger] final(self).headless().nodes@[i]).collapsed == !snarl_cells(
                    old(self).snarl_view(),
                )[old(self).to_view()[old(self).headless().nodes@[i].id].0].3 && final(self).headless().nodes@[i].layout
                    == (Layout2d {
                    x_bits: snarl_cells(old(self).snarl_view())[old(self).to_view()[old(self).headless().nodes@[i].id].0].1,
                    y_bits: snarl_cells(old(self).snarl_view())[old(self).to_view()[old(self).headless().nodes@[i].id].0].2,
                }),
            forall|i: int|
                0 <= i < old(self).headless().nodes@.len() && !(old(self).to_view().dom().contains(
                    old(self).headless().nodes@[i].id,
                ) && snarl_cells(old(self).snarl_view()).dom().contains(
                    old(self).to_view()[old(self).headless().nodes@[i].id].0,
                )) ==> (#[trigger] final(self).headless().nodes@[i]) == old(self).headless().nodes@[i],
            final(self).headless().next_node_raw() == old(self).headless().next_node_raw(),
            final(self).headless().next_pin_raw() == old(self).headless().next_pin_raw(),
            final(self).snarl_view() == old(self).snarl_view(),
            final(self).to_view() == old(self).to_view(),
            final(self).to_core() == old(self).to_core(),
            old(self).in_sync() ==> final(self).in_sync(),
            ({
                let d = old(self).desired_links(snarl_wires(old(self).snarl_view()));
                let kept = old(self).headless().links@.filter(|l: Link<E>| d.contains((l.from, l.to)));
                &&& final(self).headless().links@.len() >= kept.len()
                &&& final(self).headless().links@.take(kept.len() as int) == kept
                &&& forall|j: int|
                    kept.len() <= j < final(self).headless().links@.len() ==> d.contains(
                        ((#[trigger] final(self).headless().links@[j]).from, final(self).headless().links@[j].to),
                    )
                &&& forall|k: (PinId, PinId)|
                    #[trigger] d.contains(k) && link_allowed(old(self).headless(), k.0, k.1)
                        ==> final(self).headless().has_link_between(k.0, k.1)
                &&& forall|j: int|
                    kept.len() <= j < final(self).headless().links@.len() ==> old(self).headless().connect_check(
                        (#[trigger] final(self).headless().links@[j]).from,
                        final(self).headless().links@[j].to,
                    ) is Ok
                &&& forall|j1: int, j2: int|
                    kept.len() <= j1 < j2 < final(self).headless().links@.len() ==> (
                        (#[trigger] final(self).headless().links@[j1]).from,
                        final(self).headless().links@[j1].to,
                    ) != ((#[trigger] final(self).headless().links@[j2]).from, final(self).headless().links@[j2].to)
            }),
            ({
                let topo = old(self).headless().links@.map_values(|l: Link<E>| (l.from, l.to)).to_set()
                    != final(self).headless().links@.map_values(|l: Link<E>| (l.from, l.to)).to_set();
                final(self).pending() == (old(self).pending().0 || topo, old(self).pending().1 || topo || old(self).layout_differs())
            }),
    {
        let keys_before = self.graph.link_key_set();
        let payload_changed = self.layout_changed();
        self.sync_links_from_node_graph();
        self.apply_layout_from_view();
        let keys_after = self.graph.link_key_set();
        let topology = !same_pair_set(&keys_before, &keys_after);
        if topology {
            self.pending_changes.topology_changed = true;
        }
        if topology || payload_changed {
            self.pending_changes.payload_or_layout_changed = true;
        }
        proof {
            assert forall|n: NodeId| self.headless().has_node(n) <==> old(self).headless().has_node(n) by {
                let n0 = old(self).headless().nodes@;
                if self.headless().has_node(n) {
                    let i = choose|i: int| 0 <= i < self.graph.nodes@.len() && #[trigger] self.graph.nodes@[i].id == n;
                    assert(self.graph.nodes@[i] == old(self).laid_out_node(n0[i]));
                    assert(n0[i].id == n);
                }
                if old(self).headless().has_node(n) {
                    let i = choose|i: int| 0 <= i < n0.len() && #[trigger] n0[i].id == n;
                    assert(self.graph.nodes@[i] == old(self).laid_out_node(n0[i]));
                    assert(self.graph.nodes@[i].id == n);
                }
            }
        }
    }

    /// Copy each shown node's collapse state into its cell (open exactly when not collapsed).
    /// Each cell shown for some node of the graph ends up open exactly when one of the nodes
    /// mapped to it is not collapsed (the node, when only one is); other cells keep their flag.
    pub fn sync_node_graph_payloads_from_graph(&mut self)
        requires
            old(self).wf(),
        ensures
            final(self).wf(),
            final(self).headless() == old(self).headless(),
            final(self).to_view() == old(self).to_view(),
            final(self).to_core() == old(self).to_core(),
            final(self).pending() == old(self).pending(),
            snarl_wires(final(self).snarl_view()) == snarl_wires(old(self).snarl_view()),
            old(self).in_sync() ==> final(self).in_sync(),
            snarl_cells(final(self).snarl_view()).dom() == snarl_cells(old(self).snarl_view()).dom(),
            forall|c: usize| #[trigger] snarl_cells(final(self).snarl_view()).dom().contains(c) ==> {
                let c0 = snarl_cells(old(self).snarl_view())[c];
                let c1 = snarl_cells(final(self).snarl_view())[c];
                &&& c1.0 == c0.0 && c1.1 == c0.1 && c1.2 == c0.2
                &&& if exists|i: int| 0 <= i < old(self).headless().nodes@.len() && old(self).to_view().dom().contains(
                    #[trigger] old(self).headless().nodes@[i].id,
                ) && old(self).to_view()[old(self).headless().nodes@[i].id].0 == c {
                    exists|i: int| 0 <= i < old(self).headless().nodes@.len() && old(self).to_view().dom().contains(
                        #[trigger] old(self).headless().nodes@[i].id,
                    ) && old(self).to_view()[old(self).headless().nodes@[i].id].0 == c
                        && c1.3 == !old(self).headless().nodes@[i].collapsed
                } else {
                    c1.3 == c0.3
                }
            },
    {
        let ghost cells0 = snarl_cells(self.node_graph);
        let entries = self.core_to_view.as_slice();
        let mut t: usize = 0;
        while t < entries.len()
            invariant
                old(self).wf(),
                self.graph == old(self).graph,
                self.core_to_view == old(self).core_to_view,
                self.view_to_core == old(self).view_to_core,
                self.pending_changes == old(self).pending_changes,
                crate::id_map::distinct_keys(entries@),
                crate::id_map::entries_to_map(entries@) == old(self).to_view(),
                cells0 == snarl_cells(old(self).node_graph),
                snarl_wires(self.node_graph) == snarl_wires(old(self).node_graph),
                snarl_cells(self.node_graph).dom() == cells0.dom(),
                t <= entries@.len(),
                forall|c: usize| #[trigger] snarl_cells(self.node_graph).dom().contains(c) ==> {
                    let c1 = snarl_cells(self.node_graph)[c];
                    &&& c1.0 == cells0[c].0 && c1.1 == cells0[c].1 && c1.2 == cells0[c].2
                    &&& if exists|j: int| 0 <= j < t && entries@[j].1.0 == c && old(self).graph.has_node(#[trigger] entries@[j].0) {
                        exists|j: int| 0 <= j < t && entries@[j].1.0 == c && old(self).graph.has_node(#[trigger] entries@[j].0)
                            && c1.3 == !old(self).graph.nodes@[node_index(old(self).graph, entries@[j].0)].collapsed
                    } else {
                        c1.3 == cells0[c].3
                    }
                },
            decreases entries@.len() - t,
        {
            let nid = entries[t].0;
            let snid = entries[t].1;
            let ghost before = snarl_cells(self.node_graph);
            match self.graph.node(nid) {
                Some(gn) => {
                    let _ = crate::snarl::snarl_set_open(&mut self.node_graph, snid.0, !gn.collapsed);
                    proof {
                        let i = choose|i: int| 0 <= i < self.graph.nodes@.len() && self.graph.nodes@[i] == *gn && gn.id == nid;
                        let j = node_index(self.graph, nid);
                        assert(self.graph.nodes@[j].id == self.graph.nodes@[i].id);
                    }
                },
                None => {},
            }
            proof {
                assert forall|c: usize| #[trigger] snarl_cells(self.node_graph).dom().contains(c) implies {
                    let c1 = snarl_cells(self.node_graph)[c];
                    &&& c1.0 == cells0[c].0 && c1.1 == cells0[c].1 && c1.2 == cells0[c].2
                    &&& if exists|j: int| 0 <= j < t + 1 && entries@[j].1.0 == c && old(self).graph.has_node(#[trigger] entries@[j].0) {
                        exists|j: int| 0 <= j < t + 1 && entries@[j].1.0 == c && old(self).graph.has_node(#[trigger] entries@[j].0)
                            && c1.3 == !old(self).graph.nodes@[node_index(old(self).graph, entries@[j].0)].collapsed
                    } else {
                        c1.3 == cells0[c].3
                    }
                } by {
                    assert(before.dom().contains(c));
                    if c == snid.0 && old(self).graph.has_node(nid) {
                        assert(entries@[t as int].0 == nid);
                    } else {
                        if exists|j: int| 0 <= j < t + 1 && entries@[j].1.0 == c && old(self).graph.has_node(#[trigger] entries@[j].0) {
                            let j = choose|j: int| 0 <= j < t + 1 && entries@[j].1.0 == c && old(self).graph.has_node(#[trigger] entries@[j].0);
                            assert(j < t);
                        }
                    }
                }
            }
            t += 1;
        }
        proof {
            assert forall|c: usize| #[trigger] snarl_cells(self.node_graph).dom().contains(c) implies {
                let c0 = snarl_cells(old(self).snarl_view())[c];
                let c1 = snarl_cells(self.snarl_view())[c];
                &&& c1.0 == c0.0 && c1.1 == c0.1 && c1.2 == c0.2
                &&& if exists|i: int| 0 <= i < old(self).headless().nodes@.len() && old(self).to_view().dom().contains(
                    #[trigger] old(self).headless().nodes@[i].id,
                ) && old(self).to_view()[old(self).headless().nodes@[i].id].0 == c {
                    exists|i: int| 0 <= i < old(self).headless().nodes@.len() && old(self).to_view().dom().contains(
                        #[trigger] old(self).headless().nodes@[i].id,
                    ) && old(self).to_view()[old(self).headless().nodes@[i].id].0 == c
                        && c1.3 == !old(self).headless().nodes@[i].collapsed
                } else {
                    c1.3 == c0.3
                }
            } by {
                let g = old(self).graph;
                let tv = old(self).to_view();
                if exists|i: int| 0 <= i < g.nodes@.len() && tv.dom().contains(#[trigger] g.nodes@[i].id) && tv[g.nodes@[i].id].0 == c {
                    let i = choose|i: int| 0 <= i < g.nodes@.len() && tv.dom().contains(#[trigger] g.nodes@[i].id) && tv[g.nodes@[i].id].0 == c;
                    let e = crate::id_map::key_index(entries@, g.nodes@[i].id);
                    crate::id_map::lemma_entry_in_map(entries@, e);
                    assert(entries@[e].0 == g.nodes@[i].id);
                    assert(g.has_node(entries@[e].0));
                    let j = choose|j: int| 0 <= j < entries@.len() && entries@[j].1.0 == c && g.has_node(#[trigger] entries@[j].0)
                        && snarl_cells(self.node_graph)[c].3 == !g.nodes@[node_index(g, entries@[j].0)].collapsed;
                    let i2 = node_index(g, entries@[j].0);
                    crate::id_map::lemma_entry_in_map(entries@, j);
                    assert(tv.dom().contains(g.nodes@[i2].id) && tv[g.nodes@[i2].id].0 == c);
                } else {
                    if exists|j: int| 0 <= j < entries@.len() && entries@[j].1.0 == c && g.has_node(#[trigger] entries@[j].0) {
                        let j = choose|j: int| 0 <= j < entries@.len() && entries@[j].1.0 == c && g.has_node(#[trigger] entries@[j].0);
                        let i2 = node_index(g, entries@[j].0);
                        crate::id_map::lemma_entry_in_map(entries@, j);
                        assert(tv.dom().contains(g.nodes@[i2].id) && tv[g.nodes@[i2].id].0 == c);
                    }
                }
            }
        }
    }

    /// Remove the nodes shown in the cells `view_nodes` (each listed cell once; the listing
    /// order does not matter) from the graph, with their links, and from the view, with their
    /// wires; a cell that shows no node or is missing from the view is skipped. Returns how
    /// many cells were removed; removing any records both kinds of change.
    pub fn remove_view_nodes(&mut self, view_nodes: &[ViewNodeId]) -> (r: usize)
        requires
            old(self).wf(),
        ensures
            final(self).wf(),
            ({
                let rv = old(self).removable_views(view_nodes@);
                let gone = old(self).cores_of(rv);
                &&& rv.finite()
                &&& r == rv.len()
                &&& final(self).to_core() == old(self).to_core().remove_keys(rv)
                &&& final(self).to_view() == old(self).to_view().remove_keys(gone)
                &&& snarl_cells(final(self).snarl_view()) == snarl_cells(old(self).snarl_view()).remove_keys(cells_of(rv))
                &&& snarl_wires(final(self).snarl_view()) == snarl_wires(old(self).snarl_view()).filter(
                    |w: (usize, usize, usize, usize)| !rv.contains(ViewNodeId(w.0)) && !rv.contains(ViewNodeId(w.2)),
                )
                &&& final(self).headless().nodes@ == old(self).headless().nodes@.filter(not_gone(gone))
                &&& final(self).headless().links@ == links_avoiding(old(self).headless().links@, old(self).headless().nodes@, gone)
            }),
            final(self).headless().next_node_raw() == old(self).headless().next_node_raw(),
            final(self).headless().next_pin_raw() == old(self).headless().next_pin_raw(),
            final(self).headless().next_link_raw() == old(self).headless().next_link_raw(),
            final(self).pending() == if r > 0 {
                (true, true)
            } else {
                old(self).pending()
            },
            old(self).in_sync() ==> final(self).in_sync(),
    {
        let ghost n0 = self.graph.nodes@;
        let ghost l0 = self.graph.links@;
        let ghost tc0 = self.to_core();
        let ghost tv0 = self.to_view();
        let ghost cells0 = snarl_cells(self.node_graph);
        let ghost wires0 = snarl_wires(self.node_graph);
        let ghost mut rv: Set<ViewNodeId> = Set::empty();
        let ghost mut gone: Set<NodeId> = Set::empty();
        let mut seen: Vec<ViewNodeId> = Vec::new();
        let mut removed: usize = 0;
        let mut k: usize = 0;
        proof {
            crate::model::lemma_filter_agree(n0, not_gone::<N>(gone), |n: crate::model::Node<N>| true);
            crate::model::lemma_filter_all(n0);
            crate::model::lemma_filter_agree(l0, avoids_gone::<N, E>(n0, gone), |l: Link<E>| true);
            crate::model::lemma_filter_all(l0);
            assert(rv =~= Set::new(|v: ViewNodeId| view_nodes@.take(0).contains(v) && tc0.dom().contains(v) && cells0.dom().contains(v.0)));
            assert(gone =~= Set::new(|c: NodeId| exists|v: ViewNodeId| rv.contains(v) && #[trigger] tc0[v] == c));
            assert(self.to_core() =~= tc0.remove_keys(rv));
            assert(self.to_view() =~= tv0.remove_keys(gone));
            assert(cells_of(rv) =~= Set::empty());
            assert(snarl_cells(self.node_graph) =~= cells0.remove_keys(cells_of(rv)));
            assert(snarl_wires(self.node_graph) =~= wires0.filter(
                |w: (usize, usize, usize, usize)| !rv.contains(ViewNodeId(w.0)) && !rv.contains(ViewNodeId(w.2)),
            ));
        }
        while k < view_nodes.len()
            invariant
                self.wf(),
                old(self).wf(),
                k <= view_nodes@.len(),
                n0 == old(self).graph.nodes@,
                l0 == old(self).graph.links@,
                tc0 == old(self).to_core(),
                tv0 == old(self).to_view(),
                cells0 == snarl_cells(old(self).node_graph),
                wires0 == snarl_wires(old(self).node_graph),
                forall|v: ViewNodeId| #[trigger] seen@.contains(v) <==> view_nodes@.take(k as int).contains(v),
                rv == Set::new(|v: ViewNodeId| view_nodes@.take(k as int).contains(v) && tc0.dom().contains(v) && cells0.dom().contains(v.0)),
                gone == Set::new(|c: NodeId| exists|v: ViewNodeId| rv.contains(v) && #[trigger] tc0[v] == c),
                rv.finite(),
                removed == rv.len(),
                removed <= k,
                self.to_core() == tc0.remove_keys(rv),
                self.to_view() == tv0.remove_keys(gone),
                snarl_cells(self.node_graph) == cells0.remove_keys(cells_of(rv)),
                snarl_wires(self.node_graph) == wires0.filter(
                    |w: (usize, usize, usize, usize)| !rv.contains(ViewNodeId(w.0)) && !rv.contains(ViewNodeId(w.2)),
                ),
                self.graph.nodes@ == n0.filter(not_gone(gone)),
                self.graph.links@ == links_avoiding(l0, n0, gone),
                self.graph.next_node_raw() == old(self).graph.next_node_raw(),
                self.graph.next_pin_raw() == old(self).graph.next_pin_raw(),
                self.graph.next_link_raw() == old(self).graph.next_link_raw(),
                self.pending_changes == old(self).pending_changes,
            decreases view_nodes@.len() - k,
        {
            let view_id = view_nodes[k];
            let mut dup = false;
            let mut u: usize = 0;
            while u < seen.len()
                invariant
                    u <= seen@.len(),
                    dup <==> exists|x: int| 0 <= x < u && seen@[x] == view_id,
                decreases seen@.len() - u,
            {
                if seen[u] == view_id {
                    dup = true;
                }
                u += 1;
            }
            proof {
                assert(view_nodes@.take(k + 1) =~= view_nodes@.take(k as int).push(view_id));
                assert(dup == seen@.contains(view_id));
            }
            let ghost seen_before = seen@;
            if !dup {
                seen.push(view_id);
                let core = match self.view_to_core.get(view_id) {
                    Some(c) => Some(*c),
                    None => None,
                };
                match core {
                    Some(core_id) => {
                        if crate::snarl::snarl_node_info(&self.node_graph, view_id.0).is_some() {
                            let ghost g_before = self.graph;
                            proof {
                                assert(!rv.contains(view_id));
                                assert(tc0.dom().contains(view_id));
                                assert(tc0[view_id] == core_id);
                                assert(cells0.dom().contains(view_id.0)) by {
                                    if !cells0.dom().contains(view_id.0) {
                                        assert(!snarl_cells(self.node_graph).dom().contains(view_id.0));
                                    }
                                }
                            }
                            let _ = crate::snarl::snarl_remove_node(&mut self.node_graph, view_id.0);
                            let gone_node = self.graph.remove_node(core_id);
                            self.view_to_core.remove(view_id);
                            self.core_to_view.remove(core_id);
                            proof {
                                let rv1 = rv.insert(view_id);
                                let gone1 = gone.insert(core_id);
                                assert forall|v: ViewNodeId| #[trigger] view_nodes@.take(k + 1).contains(v) <==> view_nodes@.take(k as int).contains(v) || v == view_id by {
                                    lemma_push_contains(view_nodes@.take(k as int), view_id, v);
                                }
                                assert(rv1 =~= Set::new(|v: ViewNodeId| view_nodes@.take(k + 1).contains(v) && tc0.dom().contains(v) && cells0.dom().contains(v.0)));
                                assert(gone1 =~= Set::new(|c: NodeId| exists|v: ViewNodeId| rv1.contains(v) && #[trigger] tc0[v] == c)) by {
                                    assert forall|c: NodeId| gone1.contains(c) <==> exists|v: ViewNodeId| rv1.contains(v) && #[trigger] tc0[v] == c by {
                                        if c == core_id {
                                            assert(rv1.contains(view_id) && tc0[view_id] == c);
                                        }
                                        if exists|v: ViewNodeId| rv1.contains(v) && #[trigger] tc0[v] == c {
                                            let v = choose|v: ViewNodeId| rv1.contains(v) && #[trigger] tc0[v] == c;
                                            if v != view_id {
                                                assert(gone.contains(c));
                                            }
                                        }
                                    }
                                }
                                assert(self.to_core() =~= tc0.remove_keys(rv1));
                                assert(self.to_view() =~= tv0.remove_keys(gone1));
                                assert forall|y: usize| #[trigger] cells_of(rv1).contains(y) <==> cells_of(rv).insert(view_id.0).contains(y) by {
                                    if cells_of(rv1).contains(y) {
                                        let x = choose|x: ViewNodeId| rv1.contains(x) && x.0 == y;
                                        if x != view_id {
                                            assert(rv.contains(x));
                                        }
                                    }
                                    if cells_of(rv).contains(y) {
                                        let x = choose|x: ViewNodeId| rv.contains(x) && x.0 == y;
                                        assert(rv1.contains(x));
                                    }
                                    if y == view_id.0 {
                                        assert(rv1.contains(view_id));
                                    }
                                }
                                assert(cells_of(rv1) =~= cells_of(rv).insert(view_id.0));
                                assert(snarl_cells(self.node_graph) =~= cells0.remove_keys(cells_of(rv1)));
                                assert(snarl_wires(self.node_graph) =~= wires0.filter(
                                    |w: (usize, usize, usize, usize)| !rv1.contains(ViewNodeId(w.0)) && !rv1.contains(ViewNodeId(w.2)),
                                ));
                                lemma_remove_step_graph(n0, l0, gone, core_id, g_before, self.graph, gone_node);
                                rv = rv1;
                                gone = gone1;
                            }
                            removed += 1;
                        }
                    },
                    None => {},
                }
            }
            proof {
                assert forall|v: ViewNodeId| #[trigger] seen@.contains(v) <==> view_nodes@.take(k + 1).contains(v) by {
                    lemma_push_contains(view_nodes@.take(k as int), view_id, v);
                    if !dup {
                        lemma_push_contains(seen_before, view_id, v);
                    }
                }
            }
            k += 1;
        }
        if removed > 0 {
            self.pending_changes.topology_changed = true;
            self.pending_changes.payload_or_layout_changed = true;
        }
        proof {
            assert(view_nodes@.take(k as int) =~= view_nodes@);
            if old(self).in_sync() {
                let g0 = old(self).graph;
                broadcast use vstd::seq_lib::group_filter_ensures;

                assert forall|n: NodeId| #[trigger] self.to_view().dom().contains(n) <==> self.headless().has_node(n) by {
                    assert(tv0.dom().contains(n) <==> g0.has_node(n));
                    if self.headless().has_node(n) {
                        let i = choose|i: int| 0 <= i < self.graph.nodes@.len() && #[trigger] self.graph.nodes@[i].id == n;
                        assert(n0.filter(not_gone::<N>(gone)).contains(self.graph.nodes@[i]));
                        n0.lemma_filter_contains_rev(not_gone::<N>(gone), self.graph.nodes@[i]);
                        let j = choose|j: int| 0 <= j < n0.len() && n0[j] == self.graph.nodes@[i];
                        assert(g0.nodes@[j].id == n);
                        assert(not_gone::<N>(gone)(self.graph.nodes@[i]));
                    }
                    if tv0.dom().contains(n) && !gone.contains(n) {
                        let j = choose|j: int| 0 <= j < n0.len() && #[trigger] n0[j].id == n;
                        assert(not_gone::<N>(gone)(n0[j]));
                        assert(n0.filter(not_gone::<N>(gone)).contains(n0[j]));
                        let i = choose|i: int| 0 <= i < self.graph.nodes@.len() && self.graph.nodes@[i] == n0[j];
                        assert(self.graph.nodes@[i].id == n);
                    }
                }
                assert forall|n: NodeId| #[trigger] self.to_view().dom().contains(n) implies self.to_core().dom().contains(self.to_view()[n])
                    && self.to_core()[self.to_view()[n]] == n && snarl_cells(self.snarl_view()).dom().contains(self.to_view()[n].0) by {
                    let v = tv0[n];
                    assert(tc0.dom().contains(v) && tc0[v] == n && cells0.dom().contains(v.0));
                    if rv.contains(v) {
                        assert(gone.contains(n));
                    }
                    if cells_of(rv).contains(v.0) {
                        let x = choose|x: ViewNodeId| rv.contains(x) && x.0 == v.0;
                        assert(x == v);
                    }
                }
                assert forall|v: ViewNodeId| #[trigger] self.to_core().dom().contains(v) implies self.to_view().dom().contains(self.to_core()[v])
                    && self.to_view()[self.to_core()[v]] == v by {
                    let n = tc0[v];
                    assert(tv0.dom().contains(n) && tv0[n] == v);
                    if gone.contains(n) {
                        let v2 = choose|v2: ViewNodeId| rv.contains(v2) && #[trigger] tc0[v2] == n;
                        assert(tv0[tc0[v2]] == v2);
                    }
                }
            }
        }
        removed
    }

    /// The view cell and output index of output pin `pin`.
    fn map_view_pin_out(&self, pin: PinId) -> (r: Result<(ViewNodeId, usize), NodesEditorError>)
        requires
            self.wf(),
        ensures
            match self.view_pin(pin, true) {
                Ok((v, port)) => r == Ok::<(ViewNodeId, usize), NodesEditorError>((v, port as usize)),
                Err(e) => r == Err::<(ViewNodeId, usize), NodesEditorError>(e),
            },
    {
        let (nid, port, is_out) = match self.graph.pin_port(pin) {
            Some(p) => p,
            None => {
                return Err(NodesEditorError::Graph(GraphError::UnknownPin(pin)));
            },
        };
        if !is_out {
            return Err(NodesEditorError::Graph(GraphError::NotOutputPin(pin)));
        }
        match self.core_to_view.get(nid) {
            Some(sn) => Ok((*sn, port)),
            None => Err(NodesEditorError::UnmappedNode(nid)),
        }
    }

    /// The view cell and input index of input pin `pin`.
    fn map_view_pin_in(&self, pin: PinId) -> (r: Result<(ViewNodeId, usize), NodesEditorError>)
        requires
            self.wf(),
        ensures
            match self.view_pin(pin, false) {
                Ok((v, port)) => r == Ok::<(ViewNodeId, usize), NodesEditorError>((v, port as usize)),
                Err(e) => r == Err::<(ViewNodeId, usize), NodesEditorError>(e),
            },
    {
        let (nid, port, is_out) = match self.graph.pin_port(pin) {
            Some(p) => p,
            None => {
                return Err(NodesEditorError::Graph(GraphError::UnknownPin(pin)));
            },
        };
        if is_out {
            return Err(NodesEditorError::Graph(GraphError::NotInputPin(pin)));
        }
        match self.core_to_view.get(nid) {
            Some(sn) => Ok((*sn, port)),
            None => Err(NodesEditorError::UnmappedNode(nid)),
        }
    }
}


impl<N, E> Default for NodesEditor<N, E> {
    /// An empty editor.
    fn default() -> (r: Self)
        ensures
            r.wf(),
            r.in_sync(),
            r.headless().nodes@.len() == 0,
            r.headless().links@.len() == 0,
            r.to_view() == Map::<NodeId, ViewNodeId>::empty(),
            r.to_core() == Map::<ViewNodeId, NodeId>::empty(),
            r.pending() == (false, false),
    {
        Self::new()
    }
}

impl<N, E> NodesEditor<N, E> {
    /// While the editor is in step with its view, the two id maps are inverse to each other
    /// over the live nodes: a node is shown in cell `v` exactly when cell `v` shows that node,
    /// and then the node is in the graph and the cell in the view.
    pub proof fn lemma_maps_inverse(self, n: NodeId, v: ViewNodeId)
        requires
            self.in_sync(),
        ensures
            (self.to_view().dom().contains(n) && self.to_view()[n] == v) <==> (self.to_core().dom().contains(v)
                && self.to_core()[v] == n),
            self.to_view().dom().contains(n) && self.to_view()[n] == v ==> self.headless().has_node(n)
                && snarl_cells(self.snarl_view()).dom().contains(v.0),
    {
        if self.to_core().dom().contains(v) {
            assert(self.to_view().dom().contains(self.to_core()[v]));
        }
        if self.to_view().dom().contains(n) {
            assert(self.to_core().dom().contains(self.to_view()[n]));
        }
    }

    /// Taking the changes twice in a row: the second time reports none.
    pub proof fn lemma_take_graph_changes_twice(e0: Self, e1: Self, e2: Self, r1: (bool, bool), r2: (bool, bool))
        requires
            r1 == e0.pending(),
            e1.pending() == (false, false),
            r2 == e1.pending(),
            e2.pending() == (false, false),
        ensures
            r2 == (false, false),
            e2.pending() == e1.pending(),
    {
    }
}

} // verus!
