//! The semantic graph: domain nodes with payloads and layout, and directed edges from an
//! output port of one node to an input port of another, under stable ids.

use vstd::prelude::*;
use vstd::string::StringExecFns;

use crate::id_map::{IdKey, IdMap, distinct_keys, entries_to_map};
use crate::ids::{SemanticEdgeId, SemanticNodeId};
use crate::layout::Layout2d;
use crate::model::decimal_digits;
use crate::text::{decimal, numbered, numbered_with};

verus! {

broadcast use IdMap::lemma_finite;

/// Errors from semantic graph operations.
#[derive(Clone, Copy, Debug, PartialEq, Eq, Structural)]
pub enum GraphError {
    UnknownNode(SemanticNodeId),
    UnknownEdge(SemanticEdgeId),
    DuplicateEdge { from: SemanticNodeId, out_port: usize, to: SemanticNodeId, in_port: usize },
    SelfConnection { node: SemanticNodeId },
}

/// The message of a semantic graph error.
pub open spec fn semantic_error_text(e: GraphError) -> Seq<char> {
    match e {
        GraphError::UnknownNode(id) => "unknown semantic node "@ + decimal_digits(id.0 as nat),
        GraphError::UnknownEdge(id) => "unknown semantic edge "@ + decimal_digits(id.0 as nat),
        GraphError::DuplicateEdge { from, out_port, to, in_port } => "duplicate edge "@ + decimal_digits(
            from.0 as nat,
        ) + ":"@ + decimal_digits(out_port as nat) + " -> "@ + decimal_digits(to.0 as nat) + ":"@
            + decimal_digits(in_port as nat),
        GraphError::SelfConnection { node } => "cannot connect node "@ + decimal_digits(node.0 as nat)
            + " to itself"@,
    }
}

impl GraphError {
    /// The message shown for this error.
    pub fn to_string(&self) -> (r: String)
        ensures
            r@ == semantic_error_text(*self),
    {
        match self {
            GraphError::UnknownNode(id) => numbered("unknown semantic node ", id.0),
            GraphError::UnknownEdge(id) => numbered("unknown semantic edge ", id.0),
            GraphError::DuplicateEdge { from, out_port, to, in_port } => {
                let mut s = numbered_with("duplicate edge ", from.0, ":");
                let a = decimal(*out_port as u64);
                let b = numbered_with(" -> ", to.0, ":");
                let c = decimal(*in_port as u64);
                s.append(a.as_str());
                s.append(b.as_str());
                s.append(c.as_str());
                proof {
                    assert(s@ =~= semantic_error_text(*self));
                }
                s
            },
            GraphError::SelfConnection { node } => numbered_with("cannot connect node ", node.0, " to itself"),
        }
    }
}

/// Payload and editor-facing layout for one semantic node.
#[derive(Clone, Debug)]
pub struct SemanticNode<N> {
    pub payload: N,
    pub layout: Layout2d,
    /// When `true`, the node is shown collapsed in the editor.
    pub collapsed: bool,
}

impl<N> SemanticNode<N> {
    /// An expanded node with `payload` at `layout`.
    pub fn new(payload: N, layout: Layout2d) -> (r: Self)
        ensures
            r.payload == payload,
            r.layout == layout,
            !r.collapsed,
    {
        SemanticNode { payload, layout, collapsed: false }
    }
}

/// One directed edge: output port `out_port` of `from` into input port `in_port` of `to`.
#[derive(Clone, Debug, PartialEq, Eq)]
pub struct SemanticEdge<E> {
    pub from: SemanticNodeId,
    pub out_port: usize,
    pub to: SemanticNodeId,
    pub in_port: usize,
    pub payload: E,
}

/// Domain graph: the source of truth that evaluation, serialization and tools work on.
#[derive(Clone, Debug)]
pub struct SemanticGraph<N, E> {
    nodes: IdMap<SemanticNodeId, SemanticNode<N>>,
    edges: IdMap<SemanticEdgeId, SemanticEdge<E>>,
    next_node_id: u64,
    next_edge_id: u64,
}

/// `x + 1`, or `x` at the top of the range.
pub open spec fn saturating_inc(x: u64) -> u64 {
    if x == u64::MAX {
        x
    } else {
        (x + 1) as u64
    }
}

/// The edge runs between the given ports.
pub open spec fn edge_joins<E>(e: SemanticEdge<E>, from: SemanticNodeId, out_port: usize, to: SemanticNodeId, in_port: usize) -> bool {
    e.from == from && e.out_port == out_port && e.to == to && e.in_port == in_port
}

/// The edges of `m` that neither start nor end at node `id`.
pub open spec fn edges_avoiding<E>(m: Map<SemanticEdgeId, SemanticEdge<E>>, id: SemanticNodeId) -> Map<SemanticEdgeId, SemanticEdge<E>> {
    m.restrict(m.dom().filter(|e: SemanticEdgeId| m[e].from != id && m[e].to != id))
}

impl<N, E> SemanticGraph<N, E> {
    /// The nodes by id.
    pub closed spec fn node_map(self) -> Map<SemanticNodeId, SemanticNode<N>> {
        self.nodes@
    }

    /// The edges by id.
    pub closed spec fn edge_map(self) -> Map<SemanticEdgeId, SemanticEdge<E>> {
        self.edges@
    }

    /// The number the next node id will carry.
    pub closed spec fn next_node(self) -> u64 {
        self.next_node_id
    }

    /// The number the next edge id will carry.
    pub closed spec fn next_edge(self) -> u64 {
        self.next_edge_id
    }

    /// Some edge joins these ports.
    pub open spec fn has_edge_between(self, from: SemanticNodeId, out_port: usize, to: SemanticNodeId, in_port: usize) -> bool {
        exists|id: SemanticEdgeId|
            self.edge_map().dom().contains(id) && #[trigger] edge_joins(self.edge_map()[id], from, out_port, to, in_port)
    }

    /// Every edge joins two nodes of the graph.
    pub open spec fn edges_attached(self) -> bool {
        forall|id: SemanticEdgeId|
            #[trigger] self.edge_map().dom().contains(id) ==> self.node_map().dom().contains(
                self.edge_map()[id].from,
            ) && self.node_map().dom().contains(self.edge_map()[id].to)
    }

    /// Ids in use were handed out before: each is below its counter, unless the counter is
    /// stuck at the top of the range.
    pub open spec fn ids_handed_out(self) -> bool {
        &&& 1 <= self.next_node()
        &&& 1 <= self.next_edge()
        &&& forall|id: SemanticNodeId|
            #[trigger] self.node_map().dom().contains(id) ==> id.0 < self.next_node() || self.next_node()
                == u64::MAX
        &&& forall|id: SemanticEdgeId|
            #[trigger] self.edge_map().dom().contains(id) ==> id.0 < self.next_edge() || self.next_edge()
                == u64::MAX
    }

    /// No two edges join the same ports.
    pub open spec fn edges_distinct(self) -> bool {
        forall|a: SemanticEdgeId, b: SemanticEdgeId|
            #![trigger self.edge_map()[a], self.edge_map()[b]]
            self.edge_map().dom().contains(a) && self.edge_map().dom().contains(b) && edge_joins(
                self.edge_map()[b],
                self.edge_map()[a].from,
                self.edge_map()[a].out_port,
                self.edge_map()[a].to,
                self.edge_map()[a].in_port,
            ) ==> a == b
    }

    /// Well-formedness: the maps are consistent, ids were handed out by this graph, every
    /// edge joins two of its nodes, and no two edges join the same ports.
    pub open spec fn wf(self) -> bool {
        &&& self.maps_wf()
        &&& self.node_map().dom().finite()
        &&& self.edge_map().dom().finite()
        &&& self.ids_handed_out()
        &&& self.edges_attached()
        &&& self.edges_distinct()
    }

    /// The underlying maps keep one entry per id.
    pub closed spec fn maps_wf(self) -> bool {
        self.nodes.wf() && self.edges.wf()
    }

    /// A graph with the same node ids, edges and counters as a well-formed one is well-formed.
    proof fn lemma_wf_same_ids(g0: Self, g1: Self)
        requires
            g0.wf(),
            g1.maps_wf(),
            g1.node_map().dom() == g0.node_map().dom(),
            g1.edge_map() == g0.edge_map(),
            g1.next_node() == g0.next_node(),
            g1.next_edge() == g0.next_edge(),
        ensures
            g1.wf(),
    {
        assert forall|k: SemanticNodeId| #[trigger] g1.node_map().dom().contains(k) implies k.0 < g1.next_node() || g1.next_node() == u64::MAX by {
            assert(g0.node_map().dom().contains(k));
        }
        assert forall|k: SemanticEdgeId| #[trigger] g1.edge_map().dom().contains(k) implies k.0 < g1.next_edge() || g1.next_edge() == u64::MAX by {
            assert(g0.edge_map().dom().contains(k));
        }
        assert forall|k: SemanticEdgeId| #[trigger] g1.edge_map().dom().contains(k) implies g1.node_map().dom().contains(
            g1.edge_map()[k].from,
        ) && g1.node_map().dom().contains(g1.edge_map()[k].to) by {
            assert(g0.edge_map().dom().contains(k));
        }
    }

    /// An empty graph; the first ids handed out are `1`.
    pub fn new() -> (g: Self)
        ensures
            g.wf(),
            g.node_map() == Map::<SemanticNodeId, SemanticNode<N>>::empty(),
            g.edge_map() == Map::<SemanticEdgeId, SemanticEdge<E>>::empty(),
            g.next_node() == 1,
            g.next_edge() == 1,
    {
        SemanticGraph { nodes: IdMap::new(), edges: IdMap::new(), next_node_id: 1, next_edge_id: 1 }
    }

    fn alloc_node_id(&mut self) -> (id: SemanticNodeId)
        ensures
            id.0 == old(self).next_node_id,
            final(self).next_node_id == saturating_inc(old(self).next_node_id),
            final(self).nodes == old(self).nodes,
            final(self).edges == old(self).edges,
            final(self).next_edge_id == old(self).next_edge_id,
    {
        let id = SemanticNodeId(self.next_node_id);
        self.next_node_id = self.next_node_id.saturating_add(1);
        id
    }

    fn alloc_edge_id(&mut self) -> (id: SemanticEdgeId)
        ensures
            id.0 == old(self).next_edge_id,
            final(self).next_edge_id == saturating_inc(old(self).next_edge_id),
            final(self).nodes == old(self).nodes,
            final(self).edges == old(self).edges,
            final(self).next_node_id == old(self).next_node_id,
    {
        let id = SemanticEdgeId(self.next_edge_id);
        self.next_edge_id = self.next_edge_id.saturating_add(1);
        id
    }

    /// Insert a node; returns its id, which no node had before (unless the id space is used up,
    /// when the last id is handed out again and its node replaced).
    pub fn insert_node(&mut self, node: SemanticNode<N>) -> (id: SemanticNodeId)
        requires
            old(self).wf(),
        ensures
            final(self).wf(),
            id.0 == old(self).next_node(),
            old(self).next_node() < u64::MAX ==> !old(self).node_map().dom().contains(id),
            final(self).node_map() == old(self).node_map().insert(id, node),
            final(self).edge_map() == old(self).edge_map(),
            final(self).next_node() == saturating_inc(old(self).next_node()),
            final(self).next_edge() == old(self).next_edge(),
    {
        let id = self.alloc_node_id();
        self.nodes.insert(id, node);
        assert(self.maps_wf());
        assert(self.node_map() == old(self).node_map().insert(id, node));
        assert(self.edge_map() == old(self).edge_map());
        assert(self.edges_attached());
        assert(self.ids_handed_out());
        id
    }

    /// The node with id `id`, if any.
    pub fn node(&self, id: SemanticNodeId) -> (r: Option<&SemanticNode<N>>)
        requires
            self.wf(),
        ensures
            r is Some <==> self.node_map().dom().contains(id),
            r matches Some(n) ==> *n == self.node_map()[id],
    {
        self.nodes.get(id)
    }

    /// Mutable access to the node with id `id`, if any.
    pub fn node_mut(&mut self, id: SemanticNodeId) -> (r: Option<&mut SemanticNode<N>>)
        requires
            old(self).wf(),
        ensures
            r is Some <==> old(self).node_map().dom().contains(id),
            r matches Some(n) ==> *n == old(self).node_map()[id],
            r matches Some(n) ==> final(self).node_map() == old(self).node_map().insert(id, *final(n)),
            final(self).wf(),
            final(self).edge_map() == old(self).edge_map(),
            final(self).next_node() == old(self).next_node(),
            final(self).next_edge() == old(self).next_edge(),
            r is None ==> final(self).node_map() == old(self).node_map(),
    {
        proof {
            assert forall|x: SemanticNode<N>| old(self).node_map().dom().contains(id) implies #[trigger] old(
                self,
            ).node_map().insert(id, x).dom() == old(self).node_map().dom() by {
                assert(old(self).node_map().insert(id, x).dom() =~= old(self).node_map().dom());
            }
            let g0 = *old(self);
            assert forall|g1: Self|
                g1.maps_wf() && g1.node_map().dom() == g0.node_map().dom() && g1.edge_map() == g0.edge_map()
                    && g1.next_node() == g0.next_node() && g1.next_edge() == g0.next_edge() implies #[trigger] g1.wf() by {
                Self::lemma_wf_same_ids(g0, g1);
            }
        }
        self.nodes.get_mut(id)
    }

    /// All nodes with their ids, each once.
    pub fn nodes_iter(&self) -> (r: &[(SemanticNodeId, SemanticNode<N>)])
        requires
            self.wf(),
        ensures
            distinct_keys(r@),
            entries_to_map(r@) == self.node_map(),
    {
        self.nodes.as_slice()
    }

    /// The ids of all nodes, each once.
    pub fn node_ids(&self) -> (r: Vec<SemanticNodeId>)
        requires
            self.wf(),
        ensures
            r@.no_duplicates(),
            forall|id: SemanticNodeId| #[trigger] r@.contains(id) <==> self.node_map().dom().contains(id),
    {
        self.nodes.keys()
    }

    /// How many more edge ids the `u64` id space can hand out.
    pub fn edge_ids_left(&self) -> (r: u64)
        ensures
            r == u64::MAX - self.next_edge(),
    {
        u64::MAX - self.next_edge_id
    }

    /// Number of nodes.
    pub fn node_count(&self) -> (r: usize)
        requires
            self.wf(),
        ensures
            r == self.node_map().dom().len(),
    {
        self.nodes.len()
    }

    /// Number of edges.
    pub fn edge_count(&self) -> (r: usize)
        requires
            self.wf(),
        ensures
            r == self.edge_map().dom().len(),
    {
        self.edges.len()
    }

    /// Remove a node and every edge into or out of it; returns the node.
    pub fn remove_node(&mut self, id: SemanticNodeId) -> (r: Option<SemanticNode<N>>)
        requires
            old(self).wf(),
        ensures
            final(self).wf(),
            r is Some <==> old(self).node_map().dom().contains(id),
            r matches Some(n) ==> n == old(self).node_map()[id],
            final(self).node_map() == old(self).node_map().remove(id),
            r is Some ==> final(self).edge_map() == edges_avoiding(old(self).edge_map(), id),
            r is None ==> final(self).edge_map() == old(self).edge_map(),
            final(self).next_node() == old(self).next_node(),
            final(self).next_edge() == old(self).next_edge(),
    {
        let n = match self.nodes.remove(id) {
            Some(n) => n,
            None => {
                assert(self.nodes@ =~= old(self).nodes@);
                proof {
                    Self::lemma_wf_same_ids(*old(self), *self);
                }
                return None;
            },
        };
        let ghost e0 = self.edges@;
        let keys = self.edges.keys();
        assert forall|k: SemanticEdgeId| e0.dom().contains(k) implies exists|j: int| 0 <= j < keys@.len() && keys@[j] == k by {
            assert(keys@.contains(k));
        }
        let mut i: usize = 0;
        while i < keys.len()
            invariant
                self.nodes.wf(),
                self.edges.wf(),
                self.nodes@ == old(self).nodes@.remove(id),
                self.next_node_id == old(self).next_node_id,
                self.next_edge_id == old(self).next_edge_id,
                e0 == old(self).edges@,
                keys@.no_duplicates(),
                forall|k: SemanticEdgeId| #[trigger] keys@.contains(k) <==> e0.dom().contains(k),
                i <= keys@.len(),
                forall|k: SemanticEdgeId|
                    #[trigger] self.edges@.dom().contains(k) <==> e0.dom().contains(k) && ((e0[k].from != id
                        && e0[k].to != id) || exists|j: int| i <= j < keys@.len() && keys@[j] == k),
                forall|k: SemanticEdgeId| #[trigger] self.edges@.dom().contains(k) ==> self.edges@[k] == e0[k],
            decreases keys@.len() - i,
        {
            let k = keys[i];
            let drop = match self.edges.get(k) {
                Some(e) => e.from == id || e.to == id,
                None => false,
            };
            if drop {
                self.edges.remove(k);
            }
            proof {
                assert forall|k2: SemanticEdgeId|
                    #[trigger] self.edges@.dom().contains(k2) <==> e0.dom().contains(k2) && ((e0[k2].from != id
                        && e0[k2].to != id) || exists|j: int| i + 1 <= j < keys@.len() && keys@[j] == k2) by {
                    if k2 != k {
                        if exists|j: int| i <= j < keys@.len() && keys@[j] == k2 {
                            let j = choose|j: int| i <= j < keys@.len() && keys@[j] == k2;
                            assert(j != i);
                        }
                    } else {
                        assert(keys@[i as int] == k);
                        if exists|j: int| i + 1 <= j < keys@.len() && keys@[j] == k2 {
                            let j = choose|j: int| i + 1 <= j < keys@.len() && keys@[j] == k2;
                            assert(keys@[j] == keys@[i as int]);
                        }
                    }
                }
            }
            i += 1;
        }
        proof {
            assert(self.edges@ =~= edges_avoiding(e0, id));
            assert forall|k: SemanticEdgeId| #[trigger] self.edge_map().dom().contains(k) implies self.node_map().dom().contains(
                self.edge_map()[k].from,
            ) && self.node_map().dom().contains(self.edge_map()[k].to) by {
                assert(old(self).edge_map().dom().contains(k));
                assert(self.edges@[k] == e0[k]);
            }
            assert(self.edges_attached());
            assert forall|k: SemanticNodeId| #[trigger] self.node_map().dom().contains(k) implies k.0 < self.next_node() || self.next_node() == u64::MAX by {
                assert(old(self).node_map().dom().contains(k));
            }
            assert forall|k: SemanticEdgeId| #[trigger] self.edge_map().dom().contains(k) implies k.0 < self.next_edge() || self.next_edge() == u64::MAX by {
                assert(old(self).edge_map().dom().contains(k));
            }
            assert(self.ids_handed_out());
            assert forall|a: SemanticEdgeId, b: SemanticEdgeId|
                #![trigger self.edge_map()[a], self.edge_map()[b]]
                self.edge_map().dom().contains(a) && self.edge_map().dom().contains(b) && edge_joins(
                    self.edge_map()[b],
                    self.edge_map()[a].from,
                    self.edge_map()[a].out_port,
                    self.edge_map()[a].to,
                    self.edge_map()[a].in_port,
                ) implies a == b by {
                assert(old(self).edge_map()[a] == self.edge_map()[a]);
                assert(old(self).edge_map()[b] == self.edge_map()[b]);
            }
        }
        Some(n)
    }

    /// The edge with id `id`, if any.
    pub fn edge(&self, id: SemanticEdgeId) -> (r: Option<&SemanticEdge<E>>)
        requires
            self.wf(),
        ensures
            r is Some <==> self.edge_map().dom().contains(id),
            r matches Some(e) ==> *e == self.edge_map()[id],
    {
        self.edges.get(id)
    }

    /// All edges with their ids, each once.
    pub fn edges_iter(&self) -> (r: &[(SemanticEdgeId, SemanticEdge<E>)])
        requires
            self.wf(),
        ensures
            distinct_keys(r@),
            entries_to_map(r@) == self.edge_map(),
    {
        self.edges.as_slice()
    }

    /// Drop every edge, keeping the nodes.
    pub fn clear_edges(&mut self)
        requires
            old(self).wf(),
        ensures
            final(self).wf(),
            final(self).node_map() == old(self).node_map(),
            final(self).edge_map() == Map::<SemanticEdgeId, SemanticEdge<E>>::empty(),
            final(self).next_node() == old(self).next_node(),
            final(self).next_edge() == old(self).next_edge(),
    {
        self.edges.clear();
        assert(self.node_map() == old(self).node_map());
        assert(self.edges_attached());
        assert(self.ids_handed_out());
    }

    /// The edge id joining these ports, if any.
    fn find_edge(&self, from: SemanticNodeId, out_port: usize, to: SemanticNodeId, in_port: usize) -> (r: Option<SemanticEdgeId>)
        requires
            self.wf(),
        ensures
            r is None <==> !self.has_edge_between(from, out_port, to, in_port),
            r matches Some(id) ==> self.edge_map().dom().contains(id) && edge_joins(
                self.edge_map()[id],
                from,
                out_port,
                to,
                in_port,
            ),
    {
        let es = self.edges.as_slice();
        let mut i: usize = 0;
        while i < es.len()
            invariant
                distinct_keys(es@),
                entries_to_map(es@) == self.edge_map(),
                i <= es@.len(),
                forall|j: int| 0 <= j < i ==> !edge_joins(#[trigger] es@[j].1, from, out_port, to, in_port),
            decreases es@.len() - i,
        {
            let e = &es[i].1;
            if e.from == from && e.out_port == out_port && e.to == to && e.in_port == in_port {
                proof {
                    crate::id_map::lemma_entry_in_map(es@, i as int);
                    assert(edge_joins(self.edge_map()[es@[i as int].0], from, out_port, to, in_port));
                }
                return Some(es[i].0);
            }
            i += 1;
        }
        proof {
            if self.has_edge_between(from, out_port, to, in_port) {
                let id = choose|id: SemanticEdgeId|
                    self.edge_map().dom().contains(id) && #[trigger] edge_joins(self.edge_map()[id], from, out_port, to, in_port);
                let c = choose|c: int| 0 <= c < es@.len() && #[trigger] es@[c].0 == id;
                crate::id_map::lemma_entry_in_map(es@, c);
                assert(!edge_joins(es@[c].1, from, out_port, to, in_port));
            }
        }
        None
    }

    /// What [`SemanticGraph::connect`] decides for these ports, before any change.
    pub open spec fn connect_check(self, from: SemanticNodeId, out_port: usize, to: SemanticNodeId, in_port: usize) -> Result<(), GraphError> {
        if from == to {
            Err(GraphError::SelfConnection { node: from })
        } else if !self.node_map().dom().contains(from) {
            Err(GraphError::UnknownNode(from))
        } else if !self.node_map().dom().contains(to) {
            Err(GraphError::UnknownNode(to))
        } else if self.has_edge_between(from, out_port, to, in_port) {
            Err(GraphError::DuplicateEdge { from, out_port, to, in_port })
        } else {
            Ok(())
        }
    }

    /// Connect output port `out_port` of `from` to input port `in_port` of `to`.
    ///
    /// Refused, with the graph unchanged, for a node connected to itself, an unknown node
    /// (`from` checked first), or ports already joined by an edge.
    pub fn connect(
        &mut self,
        from: SemanticNodeId,
        out_port: usize,
        to: SemanticNodeId,
        in_port: usize,
        payload: E,
    ) -> (r: Result<SemanticEdgeId, GraphError>)
        requires
            old(self).wf(),
        ensures
            final(self).wf(),
            final(self).node_map() == old(self).node_map(),
            final(self).next_node() == old(self).next_node(),
            match old(self).connect_check(from, out_port, to, in_port) {
                Err(err) => r == Err::<SemanticEdgeId, GraphError>(err) && final(self).edge_map() == old(
                    self,
                ).edge_map() && final(self).next_edge() == old(self).next_edge(),
                Ok(()) => r matches Ok(id) && id.0 == old(self).next_edge() && (old(self).next_edge()
                    < u64::MAX ==> !old(self).edge_map().dom().contains(id)) && final(self).edge_map()
                    == old(self).edge_map().insert(
                    id,
                    SemanticEdge { from, out_port, to, in_port, payload },
                ) && final(self).next_edge() == saturating_inc(old(self).next_edge()),
            },
    {
        if from == to {
            return Err(GraphError::SelfConnection { node: from });
        }
        if !self.nodes.contains_key(from) {
            return Err(GraphError::UnknownNode(from));
        }
        if !self.nodes.contains_key(to) {
            return Err(GraphError::UnknownNode(to));
        }
        if self.find_edge(from, out_port, to, in_port).is_some() {
            return Err(GraphError::DuplicateEdge { from, out_port, to, in_port });
        }
        let id = self.alloc_edge_id();
        self.edges.insert(id, SemanticEdge { from, out_port, to, in_port, payload });
        proof {
            assert forall|k: SemanticEdgeId| #[trigger] self.edge_map().dom().contains(k) implies self.node_map().dom().contains(
                self.edge_map()[k].from,
            ) && self.node_map().dom().contains(self.edge_map()[k].to) by {
                if k != id {
                    assert(old(self).edge_map().dom().contains(k));
                }
            }
            assert forall|k: SemanticEdgeId| #[trigger] self.edge_map().dom().contains(k) implies k.0 < self.next_edge() || self.next_edge() == u64::MAX by {
                if k != id {
                    assert(old(self).edge_map().dom().contains(k));
                }
            }
            assert forall|a: SemanticEdgeId, b: SemanticEdgeId|
                #![trigger self.edge_map()[a], self.edge_map()[b]]
                self.edge_map().dom().contains(a) && self.edge_map().dom().contains(b) && edge_joins(
                    self.edge_map()[b],
                    self.edge_map()[a].from,
                    self.edge_map()[a].out_port,
                    self.edge_map()[a].to,
                    self.edge_map()[a].in_port,
                ) implies a == b by {
                if a != id && b != id {
                    assert(old(self).edge_map()[a] == self.edge_map()[a]);
                    assert(old(self).edge_map()[b] == self.edge_map()[b]);
                } else if a == id && b != id {
                    assert(edge_joins(old(self).edge_map()[b], from, out_port, to, in_port));
                    assert(old(self).has_edge_between(from, out_port, to, in_port));
                } else if a != id && b == id {
                    assert(edge_joins(old(self).edge_map()[a], from, out_port, to, in_port));
                    assert(old(self).has_edge_between(from, out_port, to, in_port));
                }
            }
            assert(self.wf());
        }
        Ok(id)
    }

    /// Remove the edge with id `id`, returning it.
    pub fn disconnect_edge(&mut self, id: SemanticEdgeId) -> (r: Option<SemanticEdge<E>>)
        requires
            old(self).wf(),
        ensures
            final(self).wf(),
            r is Some <==> old(self).edge_map().dom().contains(id),
            r matches Some(e) ==> e == old(self).edge_map()[id],
            final(self).edge_map() == old(self).edge_map().remove(id),
            final(self).node_map() == old(self).node_map(),
            final(self).next_node() == old(self).next_node(),
            final(self).next_edge() == old(self).next_edge(),
    {
        let r = self.edges.remove(id);
        proof {
            assert forall|k: SemanticEdgeId| #[trigger] self.edge_map().dom().contains(k) implies self.node_map().dom().contains(
                self.edge_map()[k].from,
            ) && self.node_map().dom().contains(self.edge_map()[k].to) by {
                assert(old(self).edge_map().dom().contains(k));
            }
            assert forall|k: SemanticEdgeId| #[trigger] self.edge_map().dom().contains(k) implies k.0 < self.next_edge() || self.next_edge() == u64::MAX by {
                assert(old(self).edge_map().dom().contains(k));
            }
            assert forall|k: SemanticNodeId| #[trigger] self.node_map().dom().contains(k) implies k.0 < self.next_node() || self.next_node() == u64::MAX by {
                assert(old(self).node_map().dom().contains(k));
            }
            assert forall|a: SemanticEdgeId, b: SemanticEdgeId|
                #![trigger self.edge_map()[a], self.edge_map()[b]]
                self.edge_map().dom().contains(a) && self.edge_map().dom().contains(b) && edge_joins(
                    self.edge_map()[b],
                    self.edge_map()[a].from,
                    self.edge_map()[a].out_port,
                    self.edge_map()[a].to,
                    self.edge_map()[a].in_port,
                ) implies a == b by {
                assert(old(self).edge_map()[a] == self.edge_map()[a]);
                assert(old(self).edge_map()[b] == self.edge_map()[b]);
            }
            assert(self.wf());
        }
        r
    }

    /// Remove an edge joining these ports, if any; returns its id.
    pub fn disconnect_pins(&mut self, from: SemanticNodeId, out_port: usize, to: SemanticNodeId, in_port: usize) -> (r: Option<SemanticEdgeId>)
        requires
            old(self).wf(),
        ensures
            final(self).wf(),
            r is None <==> !old(self).has_edge_between(from, out_port, to, in_port),
            r matches Some(id) ==> old(self).edge_map().dom().contains(id) && edge_joins(
                old(self).edge_map()[id],
                from,
                out_port,
                to,
                in_port,
            ) && final(self).edge_map() == old(self).edge_map().remove(id),
            r is None ==> final(self).edge_map() == old(self).edge_map(),
            final(self).node_map() == old(self).node_map(),
            final(self).next_node() == old(self).next_node(),
            final(self).next_edge() == old(self).next_edge(),
    {
        match self.find_edge(from, out_port, to, in_port) {
            Some(id) => {
                self.edges.remove(id);
                proof {
                    assert forall|k: SemanticEdgeId| #[trigger] self.edge_map().dom().contains(k) implies self.node_map().dom().contains(
                        self.edge_map()[k].from,
                    ) && self.node_map().dom().contains(self.edge_map()[k].to) by {
                        assert(old(self).edge_map().dom().contains(k));
                    }
                    assert forall|k: SemanticEdgeId| #[trigger] self.edge_map().dom().contains(k) implies k.0 < self.next_edge() || self.next_edge() == u64::MAX by {
                        assert(old(self).edge_map().dom().contains(k));
                    }
                    assert forall|k: SemanticNodeId| #[trigger] self.node_map().dom().contains(k) implies k.0 < self.next_node() || self.next_node() == u64::MAX by {
                        assert(old(self).node_map().dom().contains(k));
                    }
                assert forall|a: SemanticEdgeId, b: SemanticEdgeId|
                    #![trigger self.edge_map()[a], self.edge_map()[b]]
                    self.edge_map().dom().contains(a) && self.edge_map().dom().contains(b) && edge_joins(
                        self.edge_map()[b],
                        self.edge_map()[a].from,
                        self.edge_map()[a].out_port,
                        self.edge_map()[a].to,
                        self.edge_map()[a].in_port,
                    ) implies a == b by {
                    assert(old(self).edge_map()[a] == self.edge_map()[a]);
                    assert(old(self).edge_map()[b] == self.edge_map()[b]);
                }
                    assert(self.wf());
                }
                Some(id)
            },
            None => None,
        }
    }

    /// The nodes that edges out of `node` lead to, each once, in edge iteration order.
    pub fn outgoing_neighbors(&self, node: SemanticNodeId) -> (r: Vec<SemanticNodeId>)
        requires
            self.wf(),
        ensures
            r@.no_duplicates(),
            forall|v: SemanticNodeId| #[trigger] r@.contains(v) <==> exists|id: SemanticEdgeId|
                self.edge_map().dom().contains(id) && #[trigger] self.edge_map()[id].from == node
                    && self.edge_map()[id].to == v,
    {
        let es = self.edges.as_slice();
        let mut out: Vec<SemanticNodeId> = Vec::new();
        let mut i: usize = 0;
        while i < es.len()
            invariant
                distinct_keys(es@),
                entries_to_map(es@) == self.edge_map(),
                i <= es@.len(),
                out@.no_duplicates(),
                forall|v: SemanticNodeId| #[trigger] out@.contains(v) <==> exists|j: int|
                    0 <= j < i && #[trigger] es@[j].1.from == node && es@[j].1.to == v,
            decreases es@.len() - i,
        {
            let e = &es[i].1;
            let ghost o_prev = out@;
            if e.from == node {
                let mut seen = false;
                let mut t: usize = 0;
                while t < out.len()
                    invariant
                        t <= out@.len(),
                        seen ==> out@.contains(e.to),
                        !seen ==> forall|u: int| 0 <= u < t ==> out@[u] != e.to,
                    decreases out@.len() - t,
                {
                    if out[t] == e.to {
                        seen = true;
                    }
                    t += 1;
                }
                if !seen {
                    out.push(e.to);
                    proof {
                        assert forall|a: int, b: int| 0 <= a < out@.len() && 0 <= b < out@.len() && a != b implies out@[a] != out@[b] by {
                            if a < o_prev.len() && b < o_prev.len() {
                                assert(out@[a] == o_prev[a] && out@[b] == o_prev[b]);
                            } else if a < o_prev.len() {
                                assert(out@[a] == o_prev[a]);
                            } else {
                                assert(out@[b] == o_prev[b]);
                            }
                        }
                        assert(out@[o_prev.len() as int] == e.to);
                    }
                }
            }
            proof {
                assert forall|v: SemanticNodeId| #[trigger] out@.contains(v) <==> exists|j: int|
                    0 <= j < i + 1 && #[trigger] es@[j].1.from == node && es@[j].1.to == v by {
                    if out@.contains(v) {
                        let u = choose|u: int| 0 <= u < out@.len() && out@[u] == v;
                        if u < o_prev.len() {
                            assert(o_prev[u] == v);
                            assert(o_prev.contains(v));
                        } else {
                            assert(es@[i as int].1.from == node && es@[i as int].1.to == v);
                        }
                    }
                    if exists|j: int| 0 <= j < i + 1 && #[trigger] es@[j].1.from == node && es@[j].1.to == v {
                        let j = choose|j: int| 0 <= j < i + 1 && #[trigger] es@[j].1.from == node && es@[j].1.to == v;
                        if j < i {
                            assert(o_prev.contains(v));
                            let u = choose|u: int| 0 <= u < o_prev.len() && o_prev[u] == v;
                            assert(out@[u] == v);
                        }
                    }
                }
            }
            i += 1;
        }
        proof {
            assert forall|v: SemanticNodeId| #[trigger] out@.contains(v) <==> exists|id: SemanticEdgeId|
                self.edge_map().dom().contains(id) && #[trigger] self.edge_map()[id].from == node
                    && self.edge_map()[id].to == v by {
                if out@.contains(v) {
                    let j = choose|j: int| 0 <= j < es@.len() && #[trigger] es@[j].1.from == node && es@[j].1.to == v;
                    crate::id_map::lemma_entry_in_map(es@, j);
                    assert(self.edge_map()[es@[j].0].from == node);
                }
                if exists|id: SemanticEdgeId| self.edge_map().dom().contains(id) && #[trigger] self.edge_map()[id].from == node
                    && self.edge_map()[id].to == v {
                    let id = choose|id: SemanticEdgeId| self.edge_map().dom().contains(id) && #[trigger] self.edge_map()[id].from == node
                        && self.edge_map()[id].to == v;
                    let c = choose|c: int| 0 <= c < es@.len() && #[trigger] es@[c].0 == id;
                    crate::id_map::lemma_entry_in_map(es@, c);
                    assert(es@[c].1.from == node);
                }
            }
        }
        out
    }
}

impl<N, E> Default for SemanticGraph<N, E> {
    /// An empty graph.
    fn default() -> (g: Self)
        ensures
            g.wf(),
            g.node_map() == Map::<SemanticNodeId, SemanticNode<N>>::empty(),
            g.edge_map() == Map::<SemanticEdgeId, SemanticEdge<E>>::empty(),
    {
        Self::new()
    }
}


impl<N, E> SemanticGraph<N, E> {
    /// Disconnecting the edge that [`SemanticGraph::connect`] just added gives back the edges
    /// from before the connection (while the edge id space is not used up).
    pub proof fn lemma_disconnect_edge_undoes_connect(g0: Self, g1: Self, g2: Self, id: SemanticEdgeId, e: SemanticEdge<E>)
        requires
            g0.wf(),
            g0.next_edge() < u64::MAX,
            id.0 == g0.next_edge(),
            g1.edge_map() == g0.edge_map().insert(id, e),
            g2.edge_map() == g1.edge_map().remove(id),
        ensures
            g2.edge_map() == g0.edge_map(),
    {
        assert(!g0.edge_map().dom().contains(id));
        assert(g2.edge_map() =~= g0.edge_map());
    }
}

} // verus!
