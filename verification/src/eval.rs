//! Dataflow evaluation: dependency order of the nodes, values flowing along links, and a
//! pluggable [`NodeEvaluator`].

use core::marker::PhantomData;

use vstd::prelude::*;

use crate::ids::{NodeId, PinId};
use crate::model::{Graph, Link, Pin};

verus! {

// ----------------------------------------------------------------------
// Dependencies between nodes
// ----------------------------------------------------------------------

impl<N, E> Graph<N, E> {
    /// Node indices `(a, b)` when link `x` runs from an output pin of node `a` to an input pin
    /// of node `b`; `None` when an end pin is missing or sits on the wrong side.
    pub open spec fn link_endpoints(self, x: int) -> Option<(int, int)> {
        let l = self.links@[x];
        if self.has_pin(l.from) && self.pin_loc(l.from).1 && self.has_pin(l.to) && !self.pin_loc(
            l.to,
        ).1 {
            Some((self.pin_loc(l.from).0, self.pin_loc(l.to).0))
        } else {
            None
        }
    }

    /// The dependency edges `(source index, target index)` of the first `x` links, in link
    /// order: one for each link from an output pin to an input pin.
    pub open spec fn dep_edges_upto(self, x: int) -> Seq<(int, int)>
        decreases x,
    {
        if x <= 0 {
            Seq::empty()
        } else {
            match self.link_endpoints(x - 1) {
                Some(ab) => self.dep_edges_upto(x - 1).push(ab),
                None => self.dep_edges_upto(x - 1),
            }
        }
    }

    /// The dependency edges of all links, in link order.
    pub open spec fn dep_edges(self) -> Seq<(int, int)> {
        self.dep_edges_upto(self.links@.len() as int)
    }

    /// The dependency edges of all links as pairs of node ids, in link order.
    pub open spec fn dep_id_edges(self) -> Seq<(NodeId, NodeId)> {
        self.dep_edges().map_values(|ab: (int, int)| (self.nodes@[ab.0].id, self.nodes@[ab.1].id))
    }

    /// Node (index) `b` reads from node (index) `a` along some link.
    pub open spec fn depends(self, a: int, b: int) -> bool {
        exists|x: int| 0 <= x < self.links@.len() && #[trigger] self.link_endpoints(x) == Some((a, b))
    }

    /// Node `v` reads from node `u` along some link.
    pub open spec fn node_depends(self, u: NodeId, v: NodeId) -> bool {
        exists|a: int, b: int|
            0 <= a < self.nodes@.len() && 0 <= b < self.nodes@.len() && self.nodes@[a].id == u
                && self.nodes@[b].id == v && #[trigger] self.depends(a, b)
    }

    /// `order` lists every node id exactly once.
    pub open spec fn is_node_permutation(self, order: Seq<NodeId>) -> bool {
        &&& order.len() == self.nodes@.len()
        &&& order.no_duplicates()
        &&& forall|i: int| 0 <= i < self.nodes@.len() ==> order.contains(#[trigger] self.nodes@[i].id)
    }

    /// `order` lists every node once, and each node comes after every node it reads from.
    pub open spec fn is_topological_order(self, order: Seq<NodeId>) -> bool {
        &&& self.is_node_permutation(order)
        &&& forall|p: int, q: int|
            0 <= p < order.len() && 0 <= q < order.len() && #[trigger] self.node_depends(
                order[p],
                order[q],
            ) ==> p < q
    }

    /// The dependency graph of the nodes is acyclic: some order puts every node after the
    /// nodes it reads from.
    pub open spec fn is_dag(self) -> bool {
        exists|order: Seq<NodeId>| self.is_topological_order(order)
    }

    /// What [`compute_topological_order`] returns, with `k` the number of nodes it could sort:
    /// every node once; the first `k` in dependency order, closed under dependencies and in the
    /// order Kahn's queue hands them out; the rest in ascending id order, each reading from
    /// some node among the rest.
    pub open spec fn is_kahn_order(self, order: Seq<NodeId>, k: int) -> bool {
        &&& self.is_node_permutation(order)
        &&& 0 <= k <= order.len()
        &&& forall|p: int, q: int|
            0 <= p < order.len() && 0 <= q < k && #[trigger] self.node_depends(order[p], order[q])
                ==> p < q
        &&& forall|p: int, q: int|
            k <= p < q < order.len() ==> (#[trigger] order[p]).spec_get() < (
            #[trigger] order[q]).spec_get()
        &&& forall|q: int| k <= q < order.len() ==> #[trigger] self.reads_from_some(order, k, order[q])
        &&& forall|p: int, q: int| 0 <= p < q < k ==> #[trigger] self.queued_before(order, p, q)
    }

    /// No dependency edge runs into node `v`.
    pub open spec fn is_source_node(self, v: NodeId) -> bool {
        forall|e: int| 0 <= e < self.dep_id_edges().len() ==> (#[trigger] self.dep_id_edges()[e]).1 != v
    }

    /// `order[q]` is released by `order[r]`: a dependency edge runs from `order[r]` to
    /// `order[q]`, and every dependency edge into `order[q]` comes from a node listed at
    /// position `r` or before.
    pub open spec fn released_by(self, order: Seq<NodeId>, r: int, q: int) -> bool {
        &&& 0 <= r < order.len()
        &&& exists|e: int| 0 <= e < self.dep_id_edges().len() && #[trigger] self.dep_id_edges()[e] == (order[r], order[q])
        &&& forall|e: int|
            0 <= e < self.dep_id_edges().len() && (#[trigger] self.dep_id_edges()[e]).1 == order[q] ==> exists|p: int|
                0 <= p <= r && #[trigger] order[p] == self.dep_id_edges()[e].0
    }

    /// Dependency edge `e` is the last one (in link order) from `order[r]` to `order[q]`.
    pub open spec fn last_dep_edge(self, order: Seq<NodeId>, r: int, q: int, e: int) -> bool {
        &&& 0 <= e < self.dep_id_edges().len()
        &&& self.dep_id_edges()[e] == (order[r], order[q])
        &&& forall|e2: int| e < e2 < self.dep_id_edges().len() ==> #[trigger] self.dep_id_edges()[e2] != (order[r], order[q])
    }

    /// Kahn's queue hands out `order[p]` before `order[q]`: nodes without incoming
    /// dependencies first, in ascending id order; then the others by the position of the node
    /// that released them, and for one releaser by its last link into them.
    pub open spec fn queued_before(self, order: Seq<NodeId>, p: int, q: int) -> bool {
        &&& self.is_source_node(order[q]) ==> self.is_source_node(order[p]) && order[p].spec_get() < order[q].spec_get()
        &&& !self.is_source_node(order[p]) && !self.is_source_node(order[q]) ==> forall|rp: int, rq: int, ep: int, eq: int|
            #![trigger self.last_dep_edge(order, rp, p, ep), self.last_dep_edge(order, rq, q, eq)]
            self.released_by(order, rp, p) && self.released_by(order, rq, q) && self.last_dep_edge(order, rp, p, ep)
                && self.last_dep_edge(order, rq, q, eq) ==> rp < rq || (rp == rq && ep < eq)
    }

    /// Node `v` reads from some node listed in `order` at position `from` or later.
    pub open spec fn reads_from_some(self, order: Seq<NodeId>, from: int, v: NodeId) -> bool {
        exists|p: int| from <= p < order.len() && #[trigger] self.node_depends(order[p], v)
    }
}

// ----------------------------------------------------------------------
// Counting unprocessed incoming edges
// ----------------------------------------------------------------------

/// Edges of `es` into `v` whose source is not in `done`.
pub open spec fn count_into(es: Seq<(usize, usize)>, v: int, done: Set<int>) -> nat
    decreases es.len(),
{
    if es.len() == 0 {
        0
    } else {
        count_into(es.drop_last(), v, done) + if es.last().1 == v && !done.contains(
            es.last().0 as int,
        ) {
            1nat
        } else {
            0nat
        }
    }
}

/// Edges of `es` from `u` into `v`.
pub open spec fn count_from(es: Seq<(usize, usize)>, v: int, u: int) -> nat
    decreases es.len(),
{
    if es.len() == 0 {
        0
    } else {
        count_from(es.drop_last(), v, u) + if es.last().1 == v && es.last().0 == u {
            1nat
        } else {
            0nat
        }
    }
}

proof fn lemma_count_split(es: Seq<(usize, usize)>, v: int, done: Set<int>, u: int)
    requires
        !done.contains(u),
    ensures
        count_into(es, v, done) == count_from(es, v, u) + count_into(es, v, done.insert(u)),
    decreases es.len(),
{
    if es.len() > 0 {
        lemma_count_split(es.drop_last(), v, done, u);
    }
}

proof fn lemma_count_from_prefix(es: Seq<(usize, usize)>, v: int, u: int, j: int)
    requires
        0 <= j < es.len(),
    ensures
        count_from(es.take(j + 1), v, u) == count_from(es.take(j), v, u) + if es[j].1 == v
            && es[j].0 == u {
            1nat
        } else {
            0nat
        },
{
    assert(es.take(j + 1).drop_last() =~= es.take(j));
}

proof fn lemma_count_from_monotone(es: Seq<(usize, usize)>, v: int, u: int, j: int)
    requires
        0 <= j <= es.len(),
    ensures
        count_from(es.take(j), v, u) <= count_from(es, v, u),
    decreases es.len() - j,
{
    if j < es.len() {
        lemma_count_from_prefix(es, v, u, j);
        lemma_count_from_monotone(es, v, u, j + 1);
    } else {
        assert(es.take(j) =~= es);
    }
}

proof fn lemma_count_zero(es: Seq<(usize, usize)>, v: int, done: Set<int>)
    requires
        count_into(es, v, done) == 0,
    ensures
        forall|q: int| 0 <= q < es.len() && (#[trigger] es[q]).1 == v ==> done.contains(es[q].0 as int),
    decreases es.len(),
{
    if es.len() > 0 {
        lemma_count_zero(es.drop_last(), v, done);
        assert forall|q: int| 0 <= q < es.len() && (#[trigger] es[q]).1 == v implies done.contains(es[q].0 as int) by {
            if q < es.len() - 1 {
                assert(es.drop_last()[q] == es[q]);
            }
        }
    }
}

proof fn lemma_count_positive(es: Seq<(usize, usize)>, v: int, done: Set<int>)
    requires
        count_into(es, v, done) > 0,
    ensures
        exists|q: int| 0 <= q < es.len() && (#[trigger] es[q]).1 == v && !done.contains(es[q].0 as int),
    decreases es.len(),
{
    if es.len() > 0 {
        if es.last().1 == v && !done.contains(es.last().0 as int) {
            assert(es[es.len() - 1] == es.last());
        } else {
            lemma_count_positive(es.drop_last(), v, done);
            let q = choose|q: int| 0 <= q < es.drop_last().len() && (#[trigger] es.drop_last()[q]).1 == v && !done.contains(es.drop_last()[q].0 as int);
            assert(es[q] == es.drop_last()[q]);
        }
    }
}

// ----------------------------------------------------------------------
// Building blocks of the topological sort
// ----------------------------------------------------------------------

/// The dependency edges `(source index, target index)` implied by the links, in link order.
fn dependency_edges<N, E>(graph: &Graph<N, E>) -> (es: Vec<(usize, usize)>)
    requires
        graph.wf(),
    ensures
        forall|q: int|
            0 <= q < es@.len() ==> (#[trigger] es@[q]).0 < graph.nodes@.len() && es@[q].1
                < graph.nodes@.len() && graph.depends(es@[q].0 as int, es@[q].1 as int),
        forall|a: int, b: int| #[trigger] graph.depends(a, b) ==> es@.contains((a as usize, b as usize)),
        es@.map_values(|ab: (usize, usize)| (ab.0 as int, ab.1 as int)) == graph.dep_edges(),
{
    let mut es: Vec<(usize, usize)> = Vec::new();
    let mut x: usize = 0;
    while x < graph.links.len()
        invariant
            graph.wf(),
            x <= graph.links@.len(),
            forall|q: int|
                0 <= q < es@.len() ==> (#[trigger] es@[q]).0 < graph.nodes@.len() && es@[q].1
                    < graph.nodes@.len() && graph.depends(es@[q].0 as int, es@[q].1 as int),
            forall|y: int|
                0 <= y < x && (#[trigger] graph.link_endpoints(y)) is Some ==> es@.contains(
                    (graph.link_endpoints(y).unwrap().0 as usize, graph.link_endpoints(y).unwrap().1 as usize),
                ),
            es@.map_values(|ab: (usize, usize)| (ab.0 as int, ab.1 as int)) == graph.dep_edges_upto(x as int),
        decreases graph.links@.len() - x,
    {
        let l = &graph.links[x];
        let f = graph.find_pin(l.from);
        let t = graph.find_pin(l.to);
        let ghost old_es = es@;
        match (f, t) {
            (Some((fi, true, _)), Some((ti, false, _))) => {
                es.push((fi, ti));
                assert(graph.link_endpoints(x as int) == Some((fi as int, ti as int)));
                assert(es@[es@.len() - 1] == (fi, ti));
                assert(es@.map_values(|ab: (usize, usize)| (ab.0 as int, ab.1 as int)) =~= old_es.map_values(
                    |ab: (usize, usize)| (ab.0 as int, ab.1 as int),
                ).push((fi as int, ti as int)));
                assert forall|q: int|
                    0 <= q < es@.len() implies (#[trigger] es@[q]).0 < graph.nodes@.len() && es@[q].1
                        < graph.nodes@.len() && graph.depends(es@[q].0 as int, es@[q].1 as int) by {
                    if q < old_es.len() {
                        assert(es@[q] == old_es[q]);
                    }
                }
                assert forall|y: int|
                    0 <= y < x + 1 && (#[trigger] graph.link_endpoints(y)) is Some implies es@.contains(
                        (graph.link_endpoints(y).unwrap().0 as usize, graph.link_endpoints(y).unwrap().1 as usize),
                    ) by {
                    if y < x {
                        let w = choose|w: int| 0 <= w < old_es.len() && old_es[w] == (graph.link_endpoints(y).unwrap().0 as usize, graph.link_endpoints(y).unwrap().1 as usize);
                        assert(es@[w] == old_es[w]);
                    } else {
                        assert(es@[es@.len() - 1] == (fi, ti));
                    }
                }
            },
            _ => {
                assert(graph.link_endpoints(x as int) is None);
            },
        }
        x += 1;
    }
    assert(x == graph.links@.len());
    assert forall|a: int, b: int| #[trigger] graph.depends(a, b) implies es@.contains((a as usize, b as usize)) by {
        let y = choose|y: int| 0 <= y < graph.links@.len() && #[trigger] graph.link_endpoints(y) == Some((a, b));
        assert(graph.link_endpoints(y) is Some);
    }
    es
}

/// The node indices `0..n`, each once, in strictly ascending order of node id.
fn indices_by_id<N, E>(graph: &Graph<N, E>) -> (s: Vec<usize>)
    requires
        graph.wf(),
    ensures
        s@.len() == graph.nodes@.len(),
        forall|a: int| 0 <= a < s@.len() ==> (#[trigger] s@[a]) < graph.nodes@.len(),
        forall|i: usize| i < graph.nodes@.len() ==> #[trigger] s@.contains(i),
        forall|a: int, b: int|
            0 <= a < b < s@.len() ==> graph.nodes@[#[trigger] s@[a] as int].id.spec_get()
                < graph.nodes@[#[trigger] s@[b] as int].id.spec_get(),
{
    let mut s: Vec<usize> = Vec::new();
    let mut i: usize = 0;
    while i < graph.nodes.len()
        invariant
            graph.wf(),
            i <= graph.nodes@.len(),
            s@.len() == i,
            forall|a: int| 0 <= a < s@.len() ==> (#[trigger] s@[a]) < i,
            forall|x: usize| x < i ==> #[trigger] s@.contains(x),
            forall|a: int, b: int|
                0 <= a < b < s@.len() ==> graph.nodes@[#[trigger] s@[a] as int].id.spec_get()
                    < graph.nodes@[#[trigger] s@[b] as int].id.spec_get(),
        decreases graph.nodes@.len() - i,
    {
        let key = graph.nodes[i].id.get();
        let mut p: usize = 0;
        while p < s.len() && graph.nodes[s[p]].id.get() < key
            invariant
                p <= s@.len(),
                forall|a: int| 0 <= a < s@.len() ==> (#[trigger] s@[a]) < i,
                i < graph.nodes@.len(),
                key == graph.nodes@[i as int].id.spec_get(),
                forall|a: int| 0 <= a < p ==> graph.nodes@[#[trigger] s@[a] as int].id.spec_get() < key,
            decreases s@.len() - p,
        {
            p += 1;
        }
        let ghost old_s = s@;
        s.insert(p, i);
        proof {
            broadcast use NodeId::lemma_id;
            assert(s@ == old_s.insert(p as int, i));
            assert forall|a: int| 0 <= a < s@.len() implies (#[trigger] s@[a]) < i + 1 by {
                if a < p {
                    assert(s@[a] == old_s[a]);
                } else if a > p {
                    assert(s@[a] == old_s[a - 1]);
                }
            }
            assert forall|x: usize| x < i + 1 implies #[trigger] s@.contains(x) by {
                if x < i {
                    assert(old_s.contains(x));
                    let w = choose|w: int| 0 <= w < old_s.len() && old_s[w] == x;
                    if w < p {
                        assert(s@[w] == old_s[w]);
                    } else {
                        assert(s@[w + 1] == old_s[w]);
                    }
                } else {
                    assert(s@[p as int] == i);
                }
            }
            assert forall|a: int, b: int|
                0 <= a < b < s@.len() implies graph.nodes@[#[trigger] s@[a] as int].id.spec_get()
                    < graph.nodes@[#[trigger] s@[b] as int].id.spec_get() by {
                if p < old_s.len() {
                    // the element right after the insertion point has an id at least `key`,
                    // and ids are distinct
                    assert(old_s[p as int] < i);
                    assert(graph.nodes@[old_s[p as int] as int].id.spec_get() >= key);
                    assert(graph.nodes@[old_s[p as int] as int].id != graph.nodes@[i as int].id);
                }
                if a < p && b < p {
                    assert(s@[a] == old_s[a] && s@[b] == old_s[b]);
                } else if a < p && b == p {
                    assert(s@[a] == old_s[a]);
                } else if a < p && b > p {
                    assert(s@[a] == old_s[a] && s@[b] == old_s[b - 1]);
                    assert(graph.nodes@[old_s[a] as int].id.spec_get() < key);
                    if b - 1 > p {
                        assert(graph.nodes@[old_s[p as int] as int].id.spec_get() < graph.nodes@[old_s[b - 1] as int].id.spec_get());
                    }
                } else if a == p {
                    assert(s@[b] == old_s[b - 1]);
                    if b - 1 > p {
                        assert(graph.nodes@[old_s[p as int] as int].id.spec_get() < graph.nodes@[old_s[b - 1] as int].id.spec_get());
                    }
                } else {
                    assert(s@[a] == old_s[a - 1] && s@[b] == old_s[b - 1]);
                }
            }
        }
        i += 1;
    }
    s
}

/// The nodes placed before position `h`, as node indices.
pub open spec fn popped(pos: Seq<int>, h: int) -> Set<int> {
    Set::new(|x: int| 0 <= x < pos.len() && 0 <= pos[x] < h)
}

proof fn lemma_count_bound(es: Seq<(usize, usize)>, v: int, done: Set<int>)
    ensures
        count_into(es, v, done) <= es.len(),
    decreases es.len(),
{
    if es.len() > 0 {
        lemma_count_bound(es.drop_last(), v, done);
    }
}

/// A duplicate-free sequence of numbers below `n` has at most `n` entries.
proof fn lemma_distinct_bounded(s: Seq<usize>, n: int)
    requires
        s.no_duplicates(),
        forall|i: int| 0 <= i < s.len() ==> (#[trigger] s[i]) < n,
        0 <= n,
    ensures
        s.len() <= n,
{
    let t = s.map_values(|x: usize| x as int);
    assert(t.no_duplicates()) by {
        assert forall|i: int, j: int| 0 <= i < t.len() && 0 <= j < t.len() && i != j implies t[i] != t[j] by {
            assert(s[i] != s[j]);
        }
    }
    t.unique_seq_to_set();
    vstd::set_lib::lemma_int_range(0, n);
    assert forall|x: int| t.to_set().contains(x) implies vstd::set_lib::set_int_range(0, n).contains(x) by {
        assert(t.contains(x));
        let i = choose|i: int| 0 <= i < t.len() && t[i] == x;
        assert(s[i] < n);
    }
    vstd::set_lib::lemma_len_subset(t.to_set(), vstd::set_lib::set_int_range(0, n));
}

/// Positions `pos` invert `order`, so `order` repeats no node and has at most `n` entries.
proof fn lemma_order_bounded(order: Seq<usize>, pos: Seq<int>, n: int)
    requires
        pos.len() == n,
        forall|p: int| 0 <= p < order.len() ==> (#[trigger] order[p]) < n && pos[order[p] as int] == p,
    ensures
        order.no_duplicates(),
        order.len() <= n,
{
    assert forall|p1: int, p2: int| 0 <= p1 < order.len() && 0 <= p2 < order.len() && p1 != p2 implies order[p1] != order[p2] by {
        assert(pos[order[p1] as int] == p1);
        assert(pos[order[p2] as int] == p2);
    }
    lemma_distinct_bounded(order, n);
}

/// Edges connect node indices below `n`.
pub open spec fn edges_in_range(es: Seq<(usize, usize)>, n: int) -> bool {
    forall|q: int| 0 <= q < es.len() ==> (#[trigger] es[q]).0 < n && es[q].1 < n
}

/// `by_id` lists each index below `n` once.
pub open spec fn is_index_permutation(by_id: Seq<usize>, n: int) -> bool {
    &&& by_id.len() == n
    &&& by_id.no_duplicates()
    &&& forall|a: int| 0 <= a < n ==> (#[trigger] by_id[a]) < n
    &&& forall|i: usize| i < n ==> #[trigger] by_id.contains(i)
}

/// State of the sort: `order` holds the placed nodes, `pos` their positions (`-1` when not
/// placed), a node is placed exactly when its counter is zero, and every edge into a placed
/// node comes from a node placed before it and already processed (before `head`).
#[verifier::opaque]
pub open spec fn kahn_state(
    n: int,
    es: Seq<(usize, usize)>,
    in_deg: Seq<usize>,
    order: Seq<usize>,
    pos: Seq<int>,
    head: int,
) -> bool {
    &&& in_deg.len() == n
    &&& pos.len() == n
    &&& 0 <= head <= order.len() <= n
    &&& edges_in_range(es, n)
    &&& forall|p: int| 0 <= p < order.len() ==> (#[trigger] order[p]) < n && pos[order[p] as int] == p
    &&& forall|w: int| 0 <= w < n ==> -1 <= #[trigger] pos[w] < order.len()
    &&& forall|w: int| 0 <= w < n && #[trigger] pos[w] >= 0 ==> order[pos[w]] == w
    &&& forall|w: int| 0 <= w < n ==> (#[trigger] pos[w] >= 0 <==> in_deg[w] == 0)
    &&& forall|e: int|
        0 <= e < es.len() && pos[(#[trigger] es[e]).1 as int] >= 0 ==> 0 <= pos[es[e].0 as int]
            < pos[es[e].1 as int] && pos[es[e].0 as int] < head
}

/// No edge of `es` runs into `w`.
pub open spec fn no_edge_into(es: Seq<(usize, usize)>, w: usize) -> bool {
    forall|e: int| 0 <= e < es.len() ==> (#[trigger] es[e]).1 != w
}

/// No edge of `es` after position `e` runs from `u` to `w`.
pub open spec fn no_later_edge(es: Seq<(usize, usize)>, u: usize, w: usize, e: int) -> bool {
    forall|e2: int| e < e2 < es.len() ==> #[trigger] es[e2] != (u, w)
}

/// Every edge of `es` into `w` comes from a node placed at position `r` or before.
pub open spec fn sources_placed_by(es: Seq<(usize, usize)>, pos: Seq<int>, w: usize, r: int) -> bool {
    forall|e: int| 0 <= e < es.len() && (#[trigger] es[e]).1 == w ==> 0 <= pos[es[e].0 as int] <= r
}

/// The order in which the sort places nodes: nodes without incoming edges first, in `by_id`
/// order; then by the position of the node whose processing released them (`kr`), and for
/// one releaser by the edge at which their last incoming edge was counted (`ke`).
pub open spec fn key_less(by_id: Seq<usize>, kr: Seq<int>, ke: Seq<int>, a: usize, b: usize) -> bool {
    ||| kr[a as int] < kr[b as int]
    ||| kr[a as int] == -1 && kr[b as int] == -1 && precedes_in(by_id, a, b)
    ||| kr[a as int] == kr[b as int] && kr[a as int] >= 0 && ke[a as int] < ke[b as int]
}

/// The placed nodes carry their sort keys: `kr[w]` is `-1` for a node without incoming edges,
/// else the position of the node that released it, with `ke[w]` the last edge from that
/// node into it; and `order` is sorted by these keys.
#[verifier::opaque]
pub open spec fn fifo_state(
    n: int,
    es: Seq<(usize, usize)>,
    by_id: Seq<usize>,
    order: Seq<usize>,
    pos: Seq<int>,
    kr: Seq<int>,
    ke: Seq<int>,
    head: int,
) -> bool {
    &&& kr.len() == n
    &&& ke.len() == n
    &&& forall|w: int| 0 <= w < n && pos[w] >= 0 ==> (#[trigger] kr[w] == -1 <==> no_edge_into(es, w as usize))
    &&& forall|w: int| 0 <= w < n && pos[w] >= 0 ==> #[trigger] kr[w] >= -1
    &&& forall|w: int|
        0 <= w < n && pos[w] >= 0 && #[trigger] kr[w] >= 0 ==> {
            &&& kr[w] < head
            &&& kr[w] < pos[w]
            &&& 0 <= ke[w] < es.len()
            &&& es[ke[w]] == (order[kr[w]], w as usize)
            &&& no_later_edge(es, order[kr[w]], w as usize, ke[w])
            &&& sources_placed_by(es, pos, w as usize, kr[w])
        }
    &&& forall|p: int, q: int|
        0 <= p < q < order.len() ==> key_less(by_id, kr, ke, #[trigger] order[p], #[trigger] order[q])
}

/// Counter of every node: its incoming edges from nodes not yet processed.
pub open spec fn counts_match(es: Seq<(usize, usize)>, in_deg: Seq<usize>, done: Set<int>) -> bool {
    forall|w: int| 0 <= w < in_deg.len() ==> #[trigger] in_deg[w] == count_into(es, w, done)
}

/// Number of incoming edges of every node.
fn initial_in_degrees(n: usize, es: &Vec<(usize, usize)>) -> (in_deg: Vec<usize>)
    requires
        edges_in_range(es@, n as int),
    ensures
        in_deg@.len() == n,
        counts_match(es@, in_deg@, Set::empty()),
{
    let m = es.len();
    let mut in_deg: Vec<usize> = Vec::new();
    let mut v: usize = 0;
    while v < n
        invariant
            v <= n,
            in_deg@.len() == v,
            forall|w: int| 0 <= w < v ==> in_deg@[w] == 0,
        decreases n - v,
    {
        in_deg.push(0);
        v += 1;
    }
    let mut q: usize = 0;
    while q < m
        invariant
            m == es@.len(),
            q <= m,
            in_deg@.len() == n,
            edges_in_range(es@, n as int),
            forall|w: int| 0 <= w < n ==> #[trigger] in_deg@[w] == count_into(es@.take(q as int), w, Set::empty()),
        decreases m - q,
    {
        let t = es[q].1;
        proof {
            assert(es@.take(q + 1).drop_last() =~= es@.take(q as int));
            lemma_count_bound(es@.take(q as int), t as int, Set::empty());
        }
        in_deg.set(t, in_deg[t] + 1);
        proof {
            assert forall|w: int| 0 <= w < n implies #[trigger] in_deg@[w] == count_into(es@.take(q + 1), w, Set::empty()) by {
                assert(es@.take(q + 1).last() == es@[q as int]);
            }
        }
        q += 1;
    }
    assert(es@.take(m as int) =~= es@);
    in_deg
}

/// The nodes without incoming edges, in `by_id` order.
fn place_starters(n: usize, es: &Vec<(usize, usize)>, by_id: &Vec<usize>, in_deg: &Vec<usize>) -> (r: (
    Vec<usize>,
    Ghost<Seq<int>>,
    Ghost<Seq<int>>,
    Ghost<Seq<int>>,
))
    requires
        edges_in_range(es@, n as int),
        is_index_permutation(by_id@, n as int),
        in_deg@.len() == n,
        counts_match(es@, in_deg@, Set::empty()),
    ensures
        kahn_state(n as int, es@, in_deg@, r.0@, r.1@, 0),
        fifo_state(n as int, es@, by_id@, r.0@, r.1@, r.2@, r.3@, 0),
        popped(r.1@, 0) == Set::<int>::empty(),
{
    let ghost mut pos: Seq<int> = Seq::new(n as nat, |x: int| -1int);
    let ghost kr: Seq<int> = Seq::new(n as nat, |x: int| -1int);
    let ghost ke: Seq<int> = Seq::new(n as nat, |x: int| 0int);
    let ghost mut src: Seq<int> = Seq::empty();
    let mut order: Vec<usize> = Vec::new();
    let mut t: usize = 0;
    while t < n
        invariant
            t <= n,
            is_index_permutation(by_id@, n as int),
            in_deg@.len() == n,
            counts_match(es@, in_deg@, Set::empty()),
            pos.len() == n,
            order@.len() <= n,
            forall|p: int| 0 <= p < order@.len() ==> (#[trigger] order@[p]) < n && pos[order@[p] as int] == p,
            forall|w: int| 0 <= w < n ==> -1 <= #[trigger] pos[w] < order@.len(),
            forall|w: int| 0 <= w < n && #[trigger] pos[w] >= 0 ==> order@[pos[w]] == w,
            forall|a: int| 0 <= a < t ==> (pos[#[trigger] by_id@[a] as int] >= 0 <==> in_deg@[by_id@[a] as int] == 0),
            forall|a: int| t <= a < n ==> pos[#[trigger] by_id@[a] as int] < 0,
            src.len() == order@.len(),
            forall|i: int| 0 <= i < src.len() ==> 0 <= #[trigger] src[i] < t && by_id@[src[i]] == order@[i],
            forall|i: int, j: int| 0 <= i < j < src.len() ==> #[trigger] src[i] < #[trigger] src[j],
        decreases n - t,
    {
        let w = by_id[t];
        if in_deg[w] == 0 {
            proof {
                assert(pos[w as int] < 0);
                assert forall|a: int| t < a < n implies by_id@[a] != w by {
                    assert(by_id@[a] != by_id@[t as int]);
                }
                pos = pos.update(w as int, order@.len() as int);
            }
            order.push(w);
            proof {
                src = src.push(t as int);
                lemma_order_bounded(order@, pos, n as int);
            }
        }
        t += 1;
    }
    proof {
        assert forall|w: int| 0 <= w < n implies (#[trigger] pos[w] >= 0 <==> in_deg@[w] == 0) by {
            assert(by_id@.contains(w as usize));
            let a = choose|a: int| 0 <= a < n && by_id@[a] == w as usize;
        }
        assert forall|e: int| 0 <= e < es@.len() && pos[(#[trigger] es@[e]).1 as int] >= 0 implies false by {
            lemma_count_zero(es@, es@[e].1 as int, Set::empty());
        }
        assert(popped(pos, 0) =~= Set::<int>::empty());
        reveal(kahn_state);
        reveal(fifo_state);
        assert forall|w: int| 0 <= w < n && pos[w] >= 0 implies (#[trigger] kr[w] == -1 <==> no_edge_into(es@, w as usize)) by {
            lemma_count_zero(es@, w, Set::empty());
        }
        assert forall|p: int, q: int|
            0 <= p < q < order@.len() implies key_less(by_id@, kr, ke, #[trigger] order@[p], #[trigger] order@[q]) by {
            assert(by_id@[src[p]] == order@[p] && by_id@[src[q]] == order@[q]);
            assert(src[p] < src[q]);
        }
    }
    (order, Ghost(pos), Ghost(kr), Ghost(ke))
}

/// When the edges from `u` into `w` among the first `j + 1` edges are all of them, no edge
/// after `j` runs from `u` to `w`.
proof fn lemma_no_later_edge(es: Seq<(usize, usize)>, u: usize, w: usize, j: int)
    requires
        0 <= j < es.len(),
        count_from(es.take(j + 1), w as int, u as int) == count_from(es, w as int, u as int),
    ensures
        no_later_edge(es, u, w, j),
{
    assert forall|e2: int| j < e2 < es.len() implies #[trigger] es[e2] != (u, w) by {
        if es[e2] == (u, w) {
            lemma_count_from_prefix(es, w as int, u as int, e2);
            lemma_count_from_monotone(es.take(e2), w as int, u as int, j + 1);
            assert(es.take(e2).take(j + 1) =~= es.take(j + 1));
            lemma_count_from_monotone(es, w as int, u as int, e2 + 1);
        }
    }
}

/// Process node `u` = `order[head - 1]`: decrement the counter of every target of an edge out
/// of `u`, in edge order, placing each node whose counter reaches zero.
#[verifier::rlimit(40)]
fn release_successors(
    n: usize,
    es: &Vec<(usize, usize)>,
    in_deg: &mut Vec<usize>,
    order: &mut Vec<usize>,
    head: usize,
    Ghost(by_id): Ghost<Seq<usize>>,
    Ghost(pos0): Ghost<Seq<int>>,
    Ghost(kr0): Ghost<Seq<int>>,
    Ghost(ke0): Ghost<Seq<int>>,
) -> (r: (Ghost<Seq<int>>, Ghost<Seq<int>>, Ghost<Seq<int>>))
    requires
        1 <= head,
        kahn_state(n as int, es@, old(in_deg)@, old(order)@, pos0, head - 1),
        fifo_state(n as int, es@, by_id, old(order)@, pos0, kr0, ke0, head - 1),
        head <= old(order)@.len(),
        counts_match(es@, old(in_deg)@, popped(pos0, head - 1)),
    ensures
        kahn_state(n as int, es@, final(in_deg)@, final(order)@, r.0@, head as int),
        fifo_state(n as int, es@, by_id, final(order)@, r.0@, r.1@, r.2@, head as int),
        counts_match(es@, final(in_deg)@, popped(r.0@, head as int)),
{
    reveal(kahn_state);
    reveal(fifo_state);
    let m = es.len();
    let u = order[head - 1];
    let ghost sb = popped(pos0, head - 1);
    let ghost mut pos = pos0;
    let ghost mut kr = kr0;
    let ghost mut ke = ke0;
    proof {
        assert(!sb.contains(u as int));
        assert(popped(pos, head as int) =~= sb.insert(u as int));
    }
    let mut j: usize = 0;
    while j < m
        invariant
            m == es@.len(),
            edges_in_range(es@, n as int),
            in_deg@.len() == n,
            pos.len() == n,
            j <= m,
            1 <= head <= order@.len() <= n,
            u < n,
            u == order@[head - 1],
            pos[u as int] == head - 1,
            !sb.contains(u as int),
            sb == popped(pos, head - 1),
            popped(pos, head as int) == sb.insert(u as int),
            forall|p: int| 0 <= p < order@.len() ==> (#[trigger] order@[p]) < n && pos[order@[p] as int] == p,
            forall|w: int| 0 <= w < n ==> -1 <= #[trigger] pos[w] < order@.len(),
            forall|w: int| 0 <= w < n && #[trigger] pos[w] >= 0 ==> order@[pos[w]] == w,
            forall|w: int| 0 <= w < n ==> (#[trigger] pos[w] >= 0 <==> in_deg@[w] == 0),
            forall|w: int| 0 <= w < n ==> #[trigger] in_deg@[w] + count_from(es@.take(j as int), w, u as int) == count_into(es@, w, sb),
            forall|e: int|
                0 <= e < es@.len() && pos[(#[trigger] es@[e]).1 as int] >= 0 ==> 0 <= pos[es@[e].0 as int]
                    < pos[es@[e].1 as int] && pos[es@[e].0 as int] < head,
            fifo_state(n as int, es@, by_id, order@, pos, kr, ke, head as int),
            forall|p: int|
                0 <= p < order@.len() ==> #[trigger] kr[order@[p] as int] < head - 1 || (kr[order@[p] as int] == head - 1
                    && ke[order@[p] as int] < j),
        decreases m - j,
    {
        let (a, w) = es[j];
        proof {
            assert forall|x: int| 0 <= x < n implies count_from(#[trigger] es@.take(j + 1), x, u as int) == count_from(es@.take(j as int), x, u as int) + if es@[j as int].1 == x && es@[j as int].0 == u {
                1nat
            } else {
                0nat
            } by {
                lemma_count_from_prefix(es@, x, u as int, j as int);
            }
        }
        if a == u {
            proof {
                lemma_count_split(es@, w as int, sb, u as int);
                lemma_count_from_monotone(es@, w as int, u as int, j + 1);
                lemma_count_from_prefix(es@, w as int, u as int, j as int);
            }
            let d = in_deg[w] - 1;
            in_deg.set(w, d);
            if d == 0 {
                proof {
                    reveal(fifo_state);
                    lemma_count_zero(es@, w as int, sb.insert(u as int));
                    lemma_no_later_edge(es@, u, w, j as int);
                    let newpos = order@.len() as int;
                    assert(pos[w as int] < 0);
                    let pos1 = pos;
                    let kr1 = kr;
                    let ke1 = ke;
                    let order1 = order@;
                    pos = pos.update(w as int, newpos);
                    kr = kr.update(w as int, head - 1);
                    ke = ke.update(w as int, j as int);
                    assert(popped(pos, head - 1) =~= popped(pos1, head - 1));
                    assert(popped(pos, head as int) =~= popped(pos1, head as int));
                    assert forall|e: int|
                        0 <= e < es@.len() && pos[(#[trigger] es@[e]).1 as int] >= 0 implies 0 <= pos[es@[e].0 as int]
                            < pos[es@[e].1 as int] && pos[es@[e].0 as int] < head by {
                        if es@[e].1 == w {
                            assert(popped(pos1, head as int).contains(es@[e].0 as int));
                        } else {
                            assert(pos1[es@[e].1 as int] >= 0);
                            if es@[e].0 == w {
                                assert(pos1[w as int] >= 0);
                            }
                        }
                    }
                    // the new node's key comes after every key so far
                    assert(es@[j as int] == (u, w));
                    assert(!no_edge_into(es@, w));
                    assert forall|e: int| 0 <= e < es@.len() && (#[trigger] es@[e]).1 == w implies 0 <= pos[es@[e].0 as int] <= head - 1 by {
                        assert(popped(pos1, head as int).contains(es@[e].0 as int));
                        assert(es@[e].0 != w);
                    }
                    assert(sources_placed_by(es@, pos, w, head - 1));
                    assert forall|x: int| 0 <= x < n && pos[x] >= 0 && #[trigger] kr[x] >= 0 && x != w implies sources_placed_by(es@, pos, x as usize, kr[x]) by {
                        assert(pos1[x] >= 0);
                        assert(sources_placed_by(es@, pos1, x as usize, kr1[x]));
                        assert forall|e: int| 0 <= e < es@.len() && (#[trigger] es@[e]).1 == x as usize implies 0 <= pos[es@[e].0 as int] <= kr[x] by {
                            assert(0 <= pos1[es@[e].0 as int]);
                            if es@[e].0 == w {
                                assert(false);
                            }
                        }
                    }
                    assert forall|x: int| 0 <= x < n && pos[x] >= 0 && #[trigger] kr[x] >= 0 && x != w implies es@[ke[x]] == (order1.push(w)[kr[x]], x as usize) && no_later_edge(es@, order1.push(w)[kr[x]], x as usize, ke[x]) by {
                        assert(pos1[x] >= 0);
                        assert(kr1[x] < head);
                        assert(order1.push(w)[kr[x]] == order1[kr[x]]);
                    }
                    assert forall|p: int, q: int|
                        0 <= p < q < order1.len() + 1 implies key_less(by_id, kr, ke, #[trigger] order1.push(w)[p], #[trigger] order1.push(w)[q]) by {
                        if q < order1.len() {
                            assert(order1.push(w)[p] == order1[p] && order1.push(w)[q] == order1[q]);
                            assert(order1[p] != w && order1[q] != w);
                            assert(key_less(by_id, kr1, ke1, order1[p], order1[q]));
                        } else {
                            assert(order1.push(w)[p] == order1[p]);
                            assert(order1[p] != w);
                            assert(kr1[order1[p] as int] < head - 1 || (kr1[order1[p] as int] == head - 1 && ke1[order1[p] as int] < j));
                            assert(pos1[order1[p] as int] >= 0);
                        }
                    }
                }
                order.push(w);
                proof {
                    lemma_order_bounded(order@, pos, n as int);
                    assert forall|p: int| 0 <= p < order@.len() implies #[trigger] kr[order@[p] as int] < head - 1 || (kr[order@[p] as int] == head - 1
                        && ke[order@[p] as int] < j + 1) by {
                        if p < order@.len() - 1 {
                            assert(order@[p] != w);
                        }
                    }
                }
            }
        }
        j += 1;
    }
    proof {
        assert(es@.take(m as int) =~= es@);
        assert forall|w: int| 0 <= w < n implies #[trigger] in_deg@[w] == count_into(es@, w, popped(pos, head as int)) by {
            lemma_count_split(es@, w, sb, u as int);
        }
    }
    (Ghost(pos), Ghost(kr), Ghost(ke))
}

/// `x` comes before `y` in `s`.
pub open spec fn precedes_in(s: Seq<usize>, x: usize, y: usize) -> bool {
    exists|a: int, b: int| 0 <= a < b < s.len() && #[trigger] s[a] == x && #[trigger] s[b] == y
}

/// `order[q]` is released by `order[r]`: some edge runs from `order[r]` to `order[q]`, and
/// every edge into `order[q]` comes from an entry at position `r` or before.
pub open spec fn released_at(es: Seq<(usize, usize)>, order: Seq<usize>, r: int, q: int) -> bool {
    &&& 0 <= r < order.len()
    &&& exists|e: int| 0 <= e < es.len() && #[trigger] es[e] == (order[r], order[q])
    &&& forall|e: int|
        0 <= e < es.len() && (#[trigger] es[e]).1 == order[q] ==> exists|p: int| 0 <= p <= r && #[trigger] order[p] == es[e].0
}

/// Edge `e` is the last edge of `es` from `order[r]` to `order[q]`.
pub open spec fn last_edge_at(es: Seq<(usize, usize)>, order: Seq<usize>, r: int, q: int, e: int) -> bool {
    &&& 0 <= e < es.len()
    &&& es[e] == (order[r], order[q])
    &&& no_later_edge(es, order[r], order[q], e)
}

/// Entries `p` and `q` of `order` are in the order in which Kahn's queue hands them out:
/// nodes without incoming edges first, among them by `by_id`; the others by the position of
/// the entry that released them, and for one releaser by its last edge into them.
pub open spec fn fifo_before(es: Seq<(usize, usize)>, by_id: Seq<usize>, order: Seq<usize>, p: int, q: int) -> bool {
    &&& no_edge_into(es, order[q]) ==> no_edge_into(es, order[p]) && precedes_in(by_id, order[p], order[q])
    &&& !no_edge_into(es, order[p]) && !no_edge_into(es, order[q]) ==> forall|rp: int, rq: int, ep: int, eq: int|
        #![trigger last_edge_at(es, order, rp, p, ep), last_edge_at(es, order, rq, q, eq)]
        released_at(es, order, rp, p) && released_at(es, order, rq, q) && last_edge_at(es, order, rp, p, ep)
            && last_edge_at(es, order, rq, q, eq) ==> rp < rq || (rp == rq && ep < eq)
}

/// What [`kahn_indices`] returns: every index once; edges into the first `k` entries come from
/// earlier entries; the rest follow `by_id` order, each with an edge from another one of them.
pub open spec fn kahn_result(n: int, es: Seq<(usize, usize)>, by_id: Seq<usize>, order: Seq<usize>, k: int) -> bool {
    &&& order.len() == n
    &&& order.no_duplicates()
    &&& forall|p: int| 0 <= p < n ==> (#[trigger] order[p]) < n
    &&& 0 <= k <= n
    &&& forall|e: int, p: int, q: int|
        0 <= e < es.len() && 0 <= p < n && 0 <= q < k && #[trigger] es[e] == (
            #[trigger] order[p],
            #[trigger] order[q],
        ) ==> p < q
    &&& forall|p: int, q: int|
        k <= p < q < n ==> precedes_in(by_id, #[trigger] order[p], #[trigger] order[q])
    &&& forall|q: int| k <= q < n ==> #[trigger] fed_from(es, order, k, order[q])
    &&& forall|p: int, q: int| 0 <= p < q < k ==> #[trigger] fifo_before(es, by_id, order, p, q)
}

/// Some edge of `es` runs into `w` from an entry of `order` at position `k` or later.
pub open spec fn fed_from(es: Seq<(usize, usize)>, order: Seq<usize>, k: int, w: usize) -> bool {
    exists|e: int, p: int|
        #![trigger es[e], order[p]]
        0 <= e < es.len() && k <= p < order.len() && es[e] == (order[p], w)
}

/// Append, in `by_id` order, the nodes the sort could not place.
fn append_stragglers(
    n: usize,
    es: &Vec<(usize, usize)>,
    by_id: &Vec<usize>,
    in_deg: &Vec<usize>,
    order: &mut Vec<usize>,
    Ghost(pos): Ghost<Seq<int>>,
) -> (pos_end: Ghost<Seq<int>>)
    requires
        kahn_state(n as int, es@, in_deg@, old(order)@, pos, old(order)@.len() as int),
        is_index_permutation(by_id@, n as int),
    ensures
        final(order)@.len() >= old(order)@.len(),
        final(order)@.take(old(order)@.len() as int) == old(order)@,
        pos_end@.len() == n,
        forall|p: int| 0 <= p < final(order)@.len() ==> (#[trigger] final(order)@[p]) < n && pos_end@[final(order)@[p] as int] == p,
        forall|w: int| 0 <= w < n ==> 0 <= #[trigger] pos_end@[w] < final(order)@.len() && final(order)@[pos_end@[w]] == w,
        forall|w: int| 0 <= w < n && #[trigger] pos[w] >= 0 ==> pos_end@[w] == pos[w],
        forall|p: int| old(order)@.len() <= p < final(order)@.len() ==> pos[#[trigger] final(order)@[p] as int] < 0,
        forall|p: int, q: int|
            old(order)@.len() <= p < q < final(order)@.len() ==> precedes_in(
                by_id@,
                #[trigger] final(order)@[p],
                #[trigger] final(order)@[q],
            ),
{
    reveal(kahn_state);
    let k = order.len();
    let ghost pos_k = pos;
    let ghost mut pos = pos;
    let ghost mut src: Seq<int> = Seq::empty();
    let mut t: usize = 0;
    while t < n
        invariant
            t <= n,
            k <= order@.len(),
            order@.take(k as int) == old(order)@,
            k == old(order)@.len(),
            is_index_permutation(by_id@, n as int),
            in_deg@.len() == n,
            pos.len() == n,
            pos_k.len() == n,
            forall|w: int| 0 <= w < n ==> (#[trigger] pos_k[w] >= 0 <==> in_deg@[w] == 0),
            forall|w: int| 0 <= w < n && pos_k[w] >= 0 ==> #[trigger] pos[w] == pos_k[w],
            forall|w: int| 0 <= w < n && #[trigger] pos_k[w] >= 0 ==> pos_k[w] < k,
            forall|p: int| 0 <= p < order@.len() ==> (#[trigger] order@[p]) < n && pos[order@[p] as int] == p,
            forall|w: int| 0 <= w < n ==> -1 <= #[trigger] pos[w] < order@.len(),
            forall|w: int| 0 <= w < n && #[trigger] pos[w] >= 0 ==> order@[pos[w]] == w,
            forall|a: int| 0 <= a < t ==> pos[#[trigger] by_id@[a] as int] >= 0,
            forall|a: int| t <= a < n && pos_k[by_id@[a] as int] < 0 ==> pos[#[trigger] by_id@[a] as int] < 0,
            forall|p: int| 0 <= p < order@.len() ==> (p < k <==> pos_k[#[trigger] order@[p] as int] >= 0),
            src.len() == order@.len() - k,
            forall|i: int| 0 <= i < src.len() ==> 0 <= #[trigger] src[i] < t && by_id@[src[i]] == order@[k + i],
            forall|i: int, j: int| 0 <= i < j < src.len() ==> #[trigger] src[i] < #[trigger] src[j],
        decreases n - t,
    {
        let w = by_id[t];
        if in_deg[w] > 0 {
            proof {
                assert(pos[w as int] < 0);
                assert forall|a: int| t < a < n implies by_id@[a] != w by {
                    assert(by_id@[a] != by_id@[t as int]);
                }
                pos = pos.update(w as int, order@.len() as int);
            }
            let ghost before = order@;
            order.push(w);
            proof {
                src = src.push(t as int);
                lemma_order_bounded(order@, pos, n as int);
                assert(order@.take(k as int) =~= before.take(k as int));
            }
        } else {
            proof {
                assert(pos_k[w as int] >= 0);
            }
        }
        t += 1;
    }
    proof {
        assert forall|w: int| 0 <= w < n implies 0 <= #[trigger] pos[w] < order@.len() && order@[pos[w]] == w by {
            assert(by_id@.contains(w as usize));
            let a = choose|a: int| 0 <= a < n && by_id@[a] == w as usize;
        }
        assert forall|p: int| k <= p < order@.len() implies pos_k[#[trigger] order@[p] as int] < 0 by {}
        assert forall|p: int, q: int|
            k <= p < q < order@.len() implies precedes_in(by_id@, #[trigger] order@[p], #[trigger] order@[q]) by {
            let a = src[p - k];
            let b = src[q - k];
            assert(a < b);
            assert(by_id@[a] == order@[p]);
            assert(by_id@[b] == order@[q]);
        }
        assert(k == old(order)@.len());
    }
    Ghost(pos)
}

/// In the sorted prefix, the entry that releases a node with incoming edges is the one its
/// key names, and so is the last edge from it.
proof fn lemma_release_unique(
    n: int,
    es: Seq<(usize, usize)>,
    by_id: Seq<usize>,
    in_deg: Seq<usize>,
    order: Seq<usize>,
    pos: Seq<int>,
    kr: Seq<int>,
    ke: Seq<int>,
    k: int,
    q: int,
    r: int,
    e: int,
)
    requires
        kahn_state(n, es, in_deg, order.take(k), pos, k),
        fifo_state(n, es, by_id, order.take(k), pos, kr, ke, k),
        k <= order.len(),
        order.no_duplicates(),
        0 <= q < k,
        kr[order[q] as int] >= 0,
    ensures
        released_at(es, order, r, q) ==> r == kr[order[q] as int],
        released_at(es, order, r, q) && last_edge_at(es, order, r, q, e) ==> e == ke[order[q] as int],
{
    reveal(kahn_state);
    reveal(fifo_state);
    let ot = order.take(k);
    let w = order[q];
    assert(ot[q] == w);
    assert(pos[w as int] == q);
    let rk = kr[w as int];
    assert(0 <= rk < k);
    assert(ot[rk] == order[rk]);
    if released_at(es, order, r, q) {
        let e0 = choose|e0: int| 0 <= e0 < es.len() && #[trigger] es[e0] == (order[r], order[q]);
        assert(sources_placed_by(es, pos, w, rk));
        assert(es[e0].1 == w);
        let x = order[r];
        assert(0 <= pos[x as int] <= rk);
        assert(ot[pos[x as int]] == x);
        assert(order[pos[x as int]] == x);
        assert(pos[x as int] == r) by {
            if pos[x as int] != r {
                assert(order[pos[x as int]] == order[r]);
            }
        }
        assert(es[ke[w as int]] == (order[rk], w));
        assert(es[ke[w as int]].1 == order[q]);
        let p2 = choose|p2: int| 0 <= p2 <= r && #[trigger] order[p2] == es[ke[w as int]].0;
        assert(order[p2] == order[rk]);
        assert(p2 == rk);
        assert(r == rk);
        if last_edge_at(es, order, r, q, e) {
            assert(no_later_edge(es, order[rk], w, ke[w as int]));
            if e < ke[w as int] {
                assert(es[ke[w as int]] == (order[r], order[q]));
                assert(false);
            } else if e > ke[w as int] {
                assert(es[e] == (order[rk], w));
                assert(false);
            }
        }
    }
}

/// The sorted prefix hands out its nodes as Kahn's queue does.
proof fn lemma_fifo_result(
    n: int,
    es: Seq<(usize, usize)>,
    by_id: Seq<usize>,
    in_deg: Seq<usize>,
    order: Seq<usize>,
    pos: Seq<int>,
    kr: Seq<int>,
    ke: Seq<int>,
    k: int,
)
    requires
        kahn_state(n, es, in_deg, order.take(k), pos, k),
        fifo_state(n, es, by_id, order.take(k), pos, kr, ke, k),
        k <= order.len(),
        order.no_duplicates(),
    ensures
        forall|p: int, q: int| 0 <= p < q < k ==> #[trigger] fifo_before(es, by_id, order, p, q),
{
    let ot = order.take(k);
    assert forall|p: int, q: int| 0 <= p < q < k implies #[trigger] fifo_before(es, by_id, order, p, q) by {
        reveal(kahn_state);
        reveal(fifo_state);
        let a = order[p];
        let b = order[q];
        assert(ot[p] == a && ot[q] == b);
        assert(pos[a as int] == p && pos[b as int] == q);
        assert(key_less(by_id, kr, ke, ot[p], ot[q]));
        assert(kr[a as int] >= -1 && kr[b as int] >= -1);
        assert(kr[a as int] == -1 <==> no_edge_into(es, a));
        assert(kr[b as int] == -1 <==> no_edge_into(es, b));
        if !no_edge_into(es, a) && !no_edge_into(es, b) {
            assert forall|rp: int, rq: int, ep: int, eq: int|
                #![trigger last_edge_at(es, order, rp, p, ep), last_edge_at(es, order, rq, q, eq)]
                released_at(es, order, rp, p) && released_at(es, order, rq, q) && last_edge_at(es, order, rp, p, ep)
                    && last_edge_at(es, order, rq, q, eq) implies rp < rq || (rp == rq && ep < eq) by {
                lemma_release_unique(n, es, by_id, in_deg, order, pos, kr, ke, k, p, rp, ep);
                lemma_release_unique(n, es, by_id, in_deg, order, pos, kr, ke, k, q, rq, eq);
            }
        }
    }
}

/// The final order satisfies [`kahn_result`].
#[verifier::rlimit(40)]
proof fn lemma_kahn_result(
    n: int,
    es: Seq<(usize, usize)>,
    by_id: Seq<usize>,
    in_deg: Seq<usize>,
    order: Seq<usize>,
    pos: Seq<int>,
    pos_end: Seq<int>,
    kr: Seq<int>,
    ke: Seq<int>,
    k: int,
)
    requires
        kahn_state(n, es, in_deg, order.take(k), pos, k),
        fifo_state(n, es, by_id, order.take(k), pos, kr, ke, k),
        counts_match(es, in_deg, popped(pos, k)),
        is_index_permutation(by_id, n),
        order.len() >= k,
        pos_end.len() == n,
        forall|p: int| 0 <= p < order.len() ==> (#[trigger] order[p]) < n && pos_end[order[p] as int] == p,
        forall|w: int| 0 <= w < n ==> 0 <= #[trigger] pos_end[w] < order.len() && order[pos_end[w]] == w,
        forall|w: int| 0 <= w < n && #[trigger] pos[w] >= 0 ==> pos_end[w] == pos[w],
        forall|p: int| k <= p < order.len() ==> pos[#[trigger] order[p] as int] < 0,
        forall|p: int, q: int|
            k <= p < q < order.len() ==> precedes_in(by_id, #[trigger] order[p], #[trigger] order[q]),
    ensures
        kahn_result(n, es, by_id, order, k),
{
    reveal(kahn_state);
    lemma_order_bounded(order, pos_end, n);
    assert forall|x: usize| #[trigger] order.to_set().contains(x) <==> by_id.to_set().contains(x) by {
        if order.to_set().contains(x) {
            assert(order.contains(x));
            let p = choose|p: int| 0 <= p < order.len() && order[p] == x;
            assert(by_id.contains(x));
        }
        if by_id.to_set().contains(x) {
            assert(by_id.contains(x));
            let a = choose|a: int| 0 <= a < n && by_id[a] == x;
            assert(order[pos_end[x as int]] == x);
            assert(order.contains(x));
        }
    }
    assert(order.to_set() =~= by_id.to_set());
    order.unique_seq_to_set();
    by_id.unique_seq_to_set();
    assert(order.len() == n);
    assert forall|e: int, p: int, q: int|
        0 <= e < es.len() && 0 <= p < n && 0 <= q < k && #[trigger] es[e] == (
            #[trigger] order[p],
            #[trigger] order[q],
        ) implies p < q by {
        assert(order.take(k)[q] == order[q]);
        assert(pos[order[q] as int] == q);
        assert(pos[es[e].1 as int] >= 0);
        assert(pos[es[e].0 as int] >= 0);
    }
    assert forall|q: int| k <= q < n implies #[trigger] fed_from(es, order, k, order[q]) by {
        let w = order[q];
        assert(pos[w as int] < 0);
        assert(in_deg[w as int] > 0);
        lemma_count_positive(es, w as int, popped(pos, k));
        let e = choose|e: int| 0 <= e < es.len() && (#[trigger] es[e]).1 == w && !popped(pos, k).contains(es[e].0 as int);
        let src = es[e].0;
        assert(pos[src as int] < 0);
        let p = pos_end[src as int];
        assert(order[p] == src);
        if p < k {
            assert(order.take(k)[p] == src);
        }
        assert(es[e] == (order[p], order[q]));
    }
    lemma_fifo_result(n, es, by_id, in_deg, order, pos, kr, ke, k);
}

/// Kahn's algorithm on node indices: returns the order and how many nodes it sorted.
/// Nodes without incoming edges start in `by_id` order; each processed node releases its
/// successors in edge order; nodes left on a cycle (or behind one) follow in `by_id` order.
fn kahn_indices(n: usize, es: &Vec<(usize, usize)>, by_id: &Vec<usize>) -> (r: (Vec<usize>, usize))
    requires
        edges_in_range(es@, n as int),
        is_index_permutation(by_id@, n as int),
    ensures
        kahn_result(n as int, es@, by_id@, r.0@, r.1 as int),
{
    let in_deg0 = initial_in_degrees(n, es);
    let (mut order, Ghost(pos0), Ghost(kr0), Ghost(ke0)) = place_starters(n, es, by_id, &in_deg0);
    let mut in_deg = in_deg0;
    let ghost mut pos = pos0;
    let ghost mut kr = kr0;
    let ghost mut ke = ke0;
    let mut head: usize = 0;
    proof {
        reveal(kahn_state);
    }
    while head < order.len()
        invariant
            kahn_state(n as int, es@, in_deg@, order@, pos, head as int),
            fifo_state(n as int, es@, by_id@, order@, pos, kr, ke, head as int),
            counts_match(es@, in_deg@, popped(pos, head as int)),
            head <= n,
        decreases n - head,
    {
        proof {
            reveal(kahn_state);
        }
        head += 1;
        let (Ghost(p), Ghost(r1), Ghost(e1)) = release_successors(
            n,
            es,
            &mut in_deg,
            &mut order,
            head,
            Ghost(by_id@),
            Ghost(pos),
            Ghost(kr),
            Ghost(ke),
        );
        proof {
            pos = p;
            kr = r1;
            ke = e1;
            reveal(kahn_state);
        }
    }
    let k = order.len();
    let Ghost(pos_end) = append_stragglers(n, es, by_id, &in_deg, &mut order, Ghost(pos));
    proof {
        lemma_kahn_result(n as int, es@, by_id@, in_deg@, order@, pos, pos_end, kr, ke, k as int);
    }
    (order, k)
}


/// The ids of the nodes at the indices `idx`, in that order.
fn node_ids_at<N, E>(graph: &Graph<N, E>, idx: &Vec<usize>) -> (ids: Vec<NodeId>)
    requires
        forall|i: int| 0 <= i < idx@.len() ==> (#[trigger] idx@[i]) < graph.nodes@.len(),
    ensures
        ids@.len() == idx@.len(),
        forall|i: int| 0 <= i < idx@.len() ==> #[trigger] ids@[i] == graph.nodes@[idx@[i] as int].id,
{
    let mut ids: Vec<NodeId> = Vec::new();
    let mut i: usize = 0;
    while i < idx.len()
        invariant
            i <= idx@.len(),
            ids@.len() == i,
            forall|j: int| 0 <= j < idx@.len() ==> (#[trigger] idx@[j]) < graph.nodes@.len(),
            forall|j: int| 0 <= j < i ==> #[trigger] ids@[j] == graph.nodes@[idx@[j] as int].id,
        decreases idx@.len() - i,
    {
        ids.push(graph.nodes[idx[i]].id);
        i += 1;
    }
    ids
}

impl<N, E> Graph<N, E> {
    /// The `e`-th dependency edge as node ids, against the edge list `es` of node indices.
    proof fn lemma_dep_edge_ids(
        self,
        es: Seq<(usize, usize)>,
        order: Seq<usize>,
        ids: Seq<NodeId>,
        e: int,
        r: int,
        q: int,
    )
        requires
            self.wf(),
            forall|x: int| 0 <= x < es.len() ==> (#[trigger] es[x]).0 < self.nodes@.len() && es[x].1 < self.nodes@.len(),
            es.map_values(|ab: (usize, usize)| (ab.0 as int, ab.1 as int)) == self.dep_edges(),
            forall|i: int| 0 <= i < order.len() ==> (#[trigger] order[i]) < self.nodes@.len(),
            ids.len() == order.len(),
            forall|i: int| 0 <= i < order.len() ==> #[trigger] ids[i] == self.nodes@[order[i] as int].id,
            0 <= e < es.len(),
            0 <= r < order.len(),
            0 <= q < order.len(),
        ensures
            self.dep_id_edges().len() == es.len(),
            self.dep_id_edges()[e] == (ids[r], ids[q]) <==> es[e] == (order[r], order[q]),
            self.dep_id_edges()[e].1 == ids[q] <==> es[e].1 == order[q],
            ids[r] == self.dep_id_edges()[e].0 <==> order[r] == es[e].0,
    {
        let m = es.map_values(|ab: (usize, usize)| (ab.0 as int, ab.1 as int));
        assert(m.len() == es.len());
        assert(m[e] == (es[e].0 as int, es[e].1 as int));
        let a = es[e].0 as int;
        let b = es[e].1 as int;
        assert(self.dep_id_edges()[e] == (self.nodes@[a].id, self.nodes@[b].id));
        assert(ids[r] == self.nodes@[order[r] as int].id);
        assert(ids[q] == self.nodes@[order[q] as int].id);
        assert(self.nodes@[a] == self.nodes@[a] && self.nodes@[b] == self.nodes@[b]);
        assert(self.nodes@[order[r] as int] == self.nodes@[order[r] as int]);
        assert(self.nodes@[order[q] as int] == self.nodes@[order[q] as int]);
    }

    /// Carries the queue order of [`kahn_result`] on node indices over to node ids.
    #[verifier::rlimit(40)]
    proof fn lemma_fifo_ids(
        self,
        es: Seq<(usize, usize)>,
        by_id: Seq<usize>,
        order: Seq<usize>,
        k: int,
        ids: Seq<NodeId>,
    )
        requires
            self.wf(),
            forall|x: int| 0 <= x < es.len() ==> (#[trigger] es[x]).0 < self.nodes@.len() && es[x].1 < self.nodes@.len(),
            es.map_values(|ab: (usize, usize)| (ab.0 as int, ab.1 as int)) == self.dep_edges(),
            forall|a: int, b: int|
                0 <= a < b < by_id.len() ==> self.nodes@[#[trigger] by_id[a] as int].id.spec_get()
                    < self.nodes@[#[trigger] by_id[b] as int].id.spec_get(),
            forall|i: int| 0 <= i < order.len() ==> (#[trigger] order[i]) < self.nodes@.len(),
            ids.len() == order.len(),
            forall|i: int| 0 <= i < order.len() ==> #[trigger] ids[i] == self.nodes@[order[i] as int].id,
            0 <= k <= order.len(),
            forall|p: int, q: int| 0 <= p < q < k ==> #[trigger] fifo_before(es, by_id, order, p, q),
        ensures
            forall|p: int, q: int| 0 <= p < q < k ==> #[trigger] self.queued_before(ids, p, q),
    {
        assert forall|x: int| 0 <= x < order.len() implies (self.is_source_node(#[trigger] ids[x]) <==> no_edge_into(es, order[x])) by {
            if self.is_source_node(ids[x]) {
                assert forall|e: int| 0 <= e < es.len() implies (#[trigger] es[e]).1 != order[x] by {
                    self.lemma_dep_edge_ids(es, order, ids, e, x, x);
                }
            }
            if no_edge_into(es, order[x]) {
                if es.len() > 0 {
                    self.lemma_dep_edge_ids(es, order, ids, 0, x, x);
                }
                assert(self.dep_id_edges().len() == es.len()) by {
                    let m = es.map_values(|ab: (usize, usize)| (ab.0 as int, ab.1 as int));
                    assert(m.len() == es.len());
                }
                assert forall|e: int| 0 <= e < self.dep_id_edges().len() implies (#[trigger] self.dep_id_edges()[e]).1 != ids[x] by {
                    self.lemma_dep_edge_ids(es, order, ids, e, x, x);
                }
            }
        }
        assert forall|r: int, x: int| 0 <= x < order.len() implies (self.released_by(ids, r, x) <==> #[trigger] released_at(es, order, r, x)) by {
            if 0 <= r < order.len() {
                if es.len() > 0 {
                    self.lemma_dep_edge_ids(es, order, ids, 0, r, x);
                }
                assert(self.dep_id_edges().len() == es.len()) by {
                    let m = es.map_values(|ab: (usize, usize)| (ab.0 as int, ab.1 as int));
                    assert(m.len() == es.len());
                }
                if self.released_by(ids, r, x) {
                    let e0 = choose|e0: int| 0 <= e0 < self.dep_id_edges().len() && #[trigger] self.dep_id_edges()[e0] == (ids[r], ids[x]);
                    self.lemma_dep_edge_ids(es, order, ids, e0, r, x);
                    assert(es[e0] == (order[r], order[x]));
                    assert forall|e: int| 0 <= e < es.len() && (#[trigger] es[e]).1 == order[x] implies exists|p: int|
                        0 <= p <= r && #[trigger] order[p] == es[e].0 by {
                        self.lemma_dep_edge_ids(es, order, ids, e, r, x);
                        let p = choose|p: int| 0 <= p <= r && #[trigger] ids[p] == self.dep_id_edges()[e].0;
                        self.lemma_dep_edge_ids(es, order, ids, e, p, x);
                    }
                }
                if released_at(es, order, r, x) {
                    let e0 = choose|e0: int| 0 <= e0 < es.len() && #[trigger] es[e0] == (order[r], order[x]);
                    self.lemma_dep_edge_ids(es, order, ids, e0, r, x);
                    assert forall|e: int| 0 <= e < self.dep_id_edges().len() && (#[trigger] self.dep_id_edges()[e]).1 == ids[x] implies exists|p: int|
                        0 <= p <= r && #[trigger] ids[p] == self.dep_id_edges()[e].0 by {
                        self.lemma_dep_edge_ids(es, order, ids, e, r, x);
                        let p = choose|p: int| 0 <= p <= r && #[trigger] order[p] == es[e].0;
                        self.lemma_dep_edge_ids(es, order, ids, e, p, x);
                    }
                }
            }
        }
        assert forall|r: int, x: int, e: int|
            0 <= x < order.len() && 0 <= r < order.len() implies (self.last_dep_edge(ids, r, x, e) <==> #[trigger] last_edge_at(es, order, r, x, e)) by {
            if es.len() > 0 {
                self.lemma_dep_edge_ids(es, order, ids, 0, r, x);
            }
            assert(self.dep_id_edges().len() == es.len()) by {
                let m = es.map_values(|ab: (usize, usize)| (ab.0 as int, ab.1 as int));
                assert(m.len() == es.len());
            }
            if 0 <= e < es.len() {
                self.lemma_dep_edge_ids(es, order, ids, e, r, x);
                if self.last_dep_edge(ids, r, x, e) {
                    assert forall|e2: int| e < e2 < es.len() implies #[trigger] es[e2] != (order[r], order[x]) by {
                        self.lemma_dep_edge_ids(es, order, ids, e2, r, x);
                    }
                }
                if last_edge_at(es, order, r, x, e) {
                    assert forall|e2: int| e < e2 < self.dep_id_edges().len() implies #[trigger] self.dep_id_edges()[e2] != (ids[r], ids[x]) by {
                        self.lemma_dep_edge_ids(es, order, ids, e2, r, x);
                    }
                }
            }
        }
        assert forall|p: int, q: int| 0 <= p < q < k implies #[trigger] self.queued_before(ids, p, q) by {
            assert(fifo_before(es, by_id, order, p, q));
            assert(self.is_source_node(ids[p]) <==> no_edge_into(es, order[p]));
            assert(self.is_source_node(ids[q]) <==> no_edge_into(es, order[q]));
            if no_edge_into(es, order[q]) {
                assert(precedes_in(by_id, order[p], order[q]));
                let (a, b) = choose|a: int, b: int| 0 <= a < b < by_id.len() && #[trigger] by_id[a] == order[p] && #[trigger] by_id[b] == order[q];
            }
            if !self.is_source_node(ids[p]) && !self.is_source_node(ids[q]) {
                assert forall|rp: int, rq: int, ep: int, eq: int|
                    #![trigger self.last_dep_edge(ids, rp, p, ep), self.last_dep_edge(ids, rq, q, eq)]
                    self.released_by(ids, rp, p) && self.released_by(ids, rq, q) && self.last_dep_edge(ids, rp, p, ep)
                        && self.last_dep_edge(ids, rq, q, eq) implies rp < rq || (rp == rq && ep < eq) by {
                    assert(released_at(es, order, rp, p));
                    assert(released_at(es, order, rq, q));
                    assert(last_edge_at(es, order, rp, p, ep));
                    assert(last_edge_at(es, order, rq, q, eq));
                }
            }
        }
    }

    /// Carries [`kahn_result`] on node indices over to node ids.
    proof fn lemma_kahn_ids(
        self,
        es: Seq<(usize, usize)>,
        by_id: Seq<usize>,
        order: Seq<usize>,
        k: int,
        ids: Seq<NodeId>,
    )
        requires
            self.wf(),
            forall|q: int|
                0 <= q < es.len() ==> (#[trigger] es[q]).0 < self.nodes@.len() && es[q].1
                    < self.nodes@.len() && self.depends(es[q].0 as int, es[q].1 as int),
            forall|a: int, b: int| #[trigger] self.depends(a, b) ==> es.contains((a as usize, b as usize)),
            es.map_values(|ab: (usize, usize)| (ab.0 as int, ab.1 as int)) == self.dep_edges(),
            by_id.len() == self.nodes@.len(),
            forall|a: int, b: int|
                0 <= a < b < by_id.len() ==> self.nodes@[#[trigger] by_id[a] as int].id.spec_get()
                    < self.nodes@[#[trigger] by_id[b] as int].id.spec_get(),
            kahn_result(self.nodes@.len() as int, es, by_id, order, k),
            ids.len() == order.len(),
            forall|i: int| 0 <= i < order.len() ==> #[trigger] ids[i] == self.nodes@[order[i] as int].id,
        ensures
            self.is_kahn_order(ids, k),
    {
        let n = self.nodes@.len() as int;
        // ids are unique, so a node id determines its index
        assert(ids.no_duplicates()) by {
            assert forall|i: int, j: int| 0 <= i < ids.len() && 0 <= j < ids.len() && i != j implies ids[i] != ids[j] by {
                assert(order[i] != order[j]);
                assert(self.nodes@[order[i] as int] == self.nodes@[order[i] as int]);
            }
        }
        assert forall|i: int| 0 <= i < n implies ids.contains(#[trigger] self.nodes@[i].id) by {
            // `order` is a permutation of the indices
            let s = Set::new(|x: int| 0 <= x < n);
            vstd::set_lib::lemma_int_range(0, n);
            assert(vstd::set_lib::set_int_range(0, n) =~= s);
            let t = order.map_values(|x: usize| x as int);
            assert(t.no_duplicates()) by {
                assert forall|a: int, b: int| 0 <= a < t.len() && 0 <= b < t.len() && a != b implies t[a] != t[b] by {
                    assert(order[a] != order[b]);
                }
            }
            t.unique_seq_to_set();
            assert forall|x: int| #[trigger] t.to_set().contains(x) implies s.contains(x) by {
                assert(t.contains(x));
                let a = choose|a: int| 0 <= a < t.len() && t[a] == x;
                assert(order[a] < n);
            }
            vstd::set_lib::lemma_len_subset(t.to_set(), s);
            if !t.to_set().contains(i) {
                vstd::set_lib::lemma_len_subset(t.to_set(), s.remove(i));
                assert(false);
            }
            assert(t.contains(i));
            let a = choose|a: int| 0 <= a < t.len() && t[a] == i;
            assert(ids[a] == self.nodes@[i].id);
        }
        assert forall|p: int, q: int|
            0 <= p < ids.len() && 0 <= q < k && #[trigger] self.node_depends(ids[p], ids[q]) implies p < q by {
            let (a, b) = choose|a: int, b: int|
                0 <= a < n && 0 <= b < n && self.nodes@[a].id == ids[p] && self.nodes@[b].id == ids[q]
                    && #[trigger] self.depends(a, b);
            assert(self.nodes@[a] == self.nodes@[a] && self.nodes@[order[p] as int] == self.nodes@[order[p] as int]);
            assert(a == order[p]);
            assert(self.nodes@[b] == self.nodes@[b] && self.nodes@[order[q] as int] == self.nodes@[order[q] as int]);
            assert(b == order[q]);
            assert(es.contains((a as usize, b as usize)));
            let e = choose|e: int| 0 <= e < es.len() && es[e] == (a as usize, b as usize);
            assert(es[e] == (order[p], order[q]));
        }
        assert forall|p: int, q: int|
            k <= p < q < ids.len() implies (#[trigger] ids[p]).spec_get() < (#[trigger] ids[q]).spec_get() by {
            assert(precedes_in(by_id, order[p], order[q]));
            let (a, b) = choose|a: int, b: int| 0 <= a < b < by_id.len() && #[trigger] by_id[a] == order[p] && #[trigger] by_id[b] == order[q];
        }
        assert forall|q: int| k <= q < ids.len() implies #[trigger] self.reads_from_some(ids, k, ids[q]) by {
            assert(fed_from(es, order, k, order[q]));
            let (e, p) = choose|e: int, p: int|
                #![trigger es[e], order[p]]
                0 <= e < es.len() && k <= p < order.len() && es[e] == (order[p], order[q]);
            assert(self.depends(order[p] as int, order[q] as int));
            assert(self.node_depends(ids[p], ids[q]));
        }
        self.lemma_fifo_ids(es, by_id, order, k, ids);
    }

    /// An order of the shape [`Graph::is_kahn_order`] is complete (`k` covers every node)
    /// exactly when the dependency graph is acyclic.
    pub proof fn lemma_kahn_order_complete_iff_dag(self, order: Seq<NodeId>, k: int)
        requires
            self.is_kahn_order(order, k),
        ensures
            self.is_dag() <==> k == order.len(),
            k == order.len() ==> self.is_topological_order(order),
    {
        if k == order.len() {
            assert(self.is_topological_order(order));
        }
        if self.is_dag() {
            let topo = choose|t: Seq<NodeId>| self.is_topological_order(t);
            if k < order.len() {
                let rest = order.subrange(k, order.len() as int);
                let rel = |u: NodeId, v: NodeId| self.node_depends(u, v);
                assert forall|q: int| 0 <= q < rest.len() implies #[trigger] has_pred_in(rest, rel, rest[q]) by {
                    assert(rest[q] == order[k + q]);
                    assert(self.reads_from_some(order, k, order[k + q]));
                    let p = choose|p: int| k <= p < order.len() && #[trigger] self.node_depends(order[p], order[k + q]);
                    assert(rest[p - k] == order[p]);
                    assert(rel(rest[p - k], rest[q]));
                }
                assert forall|q: int| 0 <= q < rest.len() implies topo.contains(#[trigger] rest[q]) by {
                    assert(rest[q] == order[k + q]);
                    assert(self.reads_from_some(order, k, order[k + q]));
                    let p = choose|p: int| k <= p < order.len() && #[trigger] self.node_depends(order[p], order[k + q]);
                    let (a, b) = choose|a: int, b: int|
                        0 <= a < self.nodes@.len() && 0 <= b < self.nodes@.len() && self.nodes@[a].id
                            == order[p] && self.nodes@[b].id == order[k + q] && #[trigger] self.depends(a, b);
                    assert(topo.contains(self.nodes@[b].id));
                }
                assert forall|p: int, q: int|
                    0 <= p < topo.len() && 0 <= q < topo.len() && #[trigger] rel(topo[p], topo[q]) implies p < q by {
                    assert(self.node_depends(topo[p], topo[q]));
                }
                lemma_rest_after_every_position(rest, topo, rel, topo.len() as int);
                assert(topo.contains(rest[0]));
                let t = choose|t: int| 0 <= t < topo.len() && topo[t] == rest[0];
                assert(false);
            }
        }
    }
}

/// Some entry of `rest` is a `rel`-predecessor of `v`.
pub open spec fn has_pred_in(rest: Seq<NodeId>, rel: spec_fn(NodeId, NodeId) -> bool, v: NodeId) -> bool {
    exists|p: int| 0 <= p < rest.len() && #[trigger] rel(rest[p], v)
}

/// No order that puts every `rel`-predecessor first can place any node of `rest` before
/// position `j`, for every `j` up to its length, when each node of `rest` has a
/// `rel`-predecessor in `rest`.
proof fn lemma_rest_after_every_position(
    rest: Seq<NodeId>,
    topo: Seq<NodeId>,
    rel: spec_fn(NodeId, NodeId) -> bool,
    j: int,
)
    requires
        forall|q: int| 0 <= q < rest.len() ==> #[trigger] has_pred_in(rest, rel, rest[q]),
        forall|q: int| 0 <= q < rest.len() ==> topo.contains(#[trigger] rest[q]),
        forall|p: int, q: int|
            0 <= p < topo.len() && 0 <= q < topo.len() && #[trigger] rel(topo[p], topo[q]) ==> p < q,
        0 <= j <= topo.len(),
    ensures
        forall|q: int, t: int|
            0 <= q < rest.len() && 0 <= t < topo.len() && #[trigger] topo[t] == #[trigger] rest[q] ==> t >= j,
    decreases j,
{
    if j > 0 {
        lemma_rest_after_every_position(rest, topo, rel, j - 1);
        assert forall|q: int, t: int|
            0 <= q < rest.len() && 0 <= t < topo.len() && #[trigger] topo[t] == #[trigger] rest[q] implies t >= j by {
            assert(has_pred_in(rest, rel, rest[q]));
            let p = choose|p: int| 0 <= p < rest.len() && #[trigger] rel(rest[p], rest[q]);
            assert(topo.contains(rest[p]));
            let tp = choose|tp: int| 0 <= tp < topo.len() && topo[tp] == rest[p];
            assert(tp >= j - 1);
            assert(rel(topo[tp], topo[t]));
        }
    }
}

/// Kahn's sort of the node ids, with the number of nodes it could sort.
fn kahn_node_order<N, E>(graph: &Graph<N, E>) -> (r: (Vec<NodeId>, usize))
    requires
        graph.wf(),
    ensures
        graph.is_kahn_order(r.0@, r.1 as int),
{
    let es = dependency_edges(graph);
    let by_id = indices_by_id(graph);
    let n = graph.nodes.len();
    proof {
        assert(by_id@.no_duplicates()) by {
            assert forall|a: int, b: int| 0 <= a < by_id@.len() && 0 <= b < by_id@.len() && a != b implies by_id@[a] != by_id@[b] by {
                if a < b {
                    assert(graph.nodes@[by_id@[a] as int].id.spec_get() < graph.nodes@[by_id@[b] as int].id.spec_get());
                } else {
                    assert(graph.nodes@[by_id@[b] as int].id.spec_get() < graph.nodes@[by_id@[a] as int].id.spec_get());
                }
            }
        }
    }
    let (idx, k) = kahn_indices(n, &es, &by_id);
    let ids = node_ids_at(graph, &idx);
    proof {
        graph.lemma_kahn_ids(es@, by_id@, idx@, k as int, ids@);
    }
    (ids, k)
}

/// Kahn's topological sort of the nodes by the links (output pin to input pin).
///
/// Nodes without incoming links start, in ascending id order; each node taken releases the
/// nodes it feeds, in link order. Nodes on a cycle, or behind one, are appended in ascending
/// id order, so the result always lists every node once. It is a topological order exactly
/// when the dependency graph is acyclic. The shape [`Graph::is_kahn_order`] fixes the result
/// (see [`Graph::lemma_kahn_order_unique`]).
pub fn compute_topological_order<N, E>(graph: &Graph<N, E>) -> (order: Vec<NodeId>)
    requires
        graph.wf(),
    ensures
        exists|k: int| graph.is_kahn_order(order@, k),
        graph.is_dag() <==> graph.is_topological_order(order@),
{
    let (ids, k) = kahn_node_order(graph);
    proof {
        graph.lemma_kahn_order_complete_iff_dag(ids@, k as int);
        if graph.is_topological_order(ids@) {
            assert(graph.is_dag());
        }
    }
    ids
}

/// Whether the dependency graph of the nodes (output pin to input pin) is acyclic, that is,
/// whether Kahn's algorithm sorts every node.
pub fn dependency_graph_is_acyclic<N, E>(graph: &Graph<N, E>) -> (r: bool)
    requires
        graph.wf(),
    ensures
        r == graph.is_dag(),
{
    let (ids, k) = kahn_node_order(graph);
    proof {
        graph.lemma_kahn_order_complete_iff_dag(ids@, k as int);
    }
    k == ids.len()
}

// ----------------------------------------------------------------------
// Values at pins
// ----------------------------------------------------------------------

/// Values keyed by pin, as a finite map with one entry per pin.
pub struct PinValues<V> {
    entries: Vec<(PinId, V)>,
}

/// Entries with pairwise distinct pins.
pub open spec fn distinct_pins<V>(s: Seq<(PinId, V)>) -> bool {
    forall|i: int, j: int|
        0 <= i < s.len() && 0 <= j < s.len() && #[trigger] s[i].0 == #[trigger] s[j].0 ==> i == j
}

/// Position of an entry for pin `p`.
pub open spec fn entry_index<V>(s: Seq<(PinId, V)>, p: PinId) -> int {
    choose|i: int| 0 <= i < s.len() && #[trigger] s[i].0 == p
}

/// The entries as a map from pin to value.
pub open spec fn entries_map<V>(s: Seq<(PinId, V)>) -> Map<PinId, V> {
    Map::new(
        |p: PinId| exists|i: int| 0 <= i < s.len() && #[trigger] s[i].0 == p,
        |p: PinId| s[entry_index(s, p)].1,
    )
}

/// Overwriting the entry for `pin` overwrites the map at `pin`.
proof fn lemma_entries_update<V>(s: Seq<(PinId, V)>, i: int, pin: PinId, value: V)
    requires
        distinct_pins(s),
        0 <= i < s.len(),
        s[i].0 == pin,
    ensures
        distinct_pins(s.update(i, (pin, value))),
        entries_map(s.update(i, (pin, value))) == entries_map(s).insert(pin, value),
{
    let t = s.update(i, (pin, value));
    assert forall|a: int, b: int| 0 <= a < t.len() && 0 <= b < t.len() && #[trigger] t[a].0 == #[trigger] t[b].0 implies a == b by {
        assert(t[a].0 == s[a].0);
        assert(t[b].0 == s[b].0);
    }
    assert forall|p: PinId| #[trigger] entries_map(t).dom().contains(p) <==> entries_map(s).insert(pin, value).dom().contains(p) by {
        if exists|c: int| 0 <= c < s.len() && #[trigger] s[c].0 == p {
            let c = choose|c: int| 0 <= c < s.len() && #[trigger] s[c].0 == p;
            assert(t[c].0 == p);
        }
        if p == pin {
            assert(t[i].0 == p);
        }
        if exists|c: int| 0 <= c < t.len() && #[trigger] t[c].0 == p {
            let c = choose|c: int| 0 <= c < t.len() && #[trigger] t[c].0 == p;
            assert(s[c].0 == p);
        }
    }
    assert forall|p: PinId| #[trigger] entries_map(t).dom().contains(p) implies entries_map(t)[p] == entries_map(s).insert(pin, value)[p] by {
        let c = entry_index(t, p);
        assert(t[c].0 == p);
        if p == pin {
            assert(t[i].0 == t[c].0);
        } else {
            assert(s[c].0 == p);
            let c0 = entry_index(s, p);
            assert(s[c0].0 == s[c].0);
        }
    }
    assert(entries_map(t) =~= entries_map(s).insert(pin, value));
}

/// Appending an entry for a new pin adds that pin to the map.
proof fn lemma_entries_push<V>(s: Seq<(PinId, V)>, pin: PinId, value: V)
    requires
        distinct_pins(s),
        forall|j: int| 0 <= j < s.len() ==> s[j].0 != pin,
    ensures
        distinct_pins(s.push((pin, value))),
        entries_map(s.push((pin, value))) == entries_map(s).insert(pin, value),
{
    let t = s.push((pin, value));
    assert forall|a: int, b: int| 0 <= a < t.len() && 0 <= b < t.len() && #[trigger] t[a].0 == #[trigger] t[b].0 implies a == b by {
        if a < s.len() {
            assert(t[a] == s[a]);
        }
        if b < s.len() {
            assert(t[b] == s[b]);
        }
    }
    assert forall|p: PinId| #[trigger] entries_map(t).dom().contains(p) <==> entries_map(s).insert(pin, value).dom().contains(p) by {
        if exists|c: int| 0 <= c < s.len() && #[trigger] s[c].0 == p {
            let c = choose|c: int| 0 <= c < s.len() && #[trigger] s[c].0 == p;
            assert(t[c] == s[c]);
        }
        if p == pin {
            assert(t[s.len() as int].0 == p);
        }
        if exists|c: int| 0 <= c < t.len() && #[trigger] t[c].0 == p {
            let c = choose|c: int| 0 <= c < t.len() && #[trigger] t[c].0 == p;
            if c < s.len() {
                assert(t[c] == s[c]);
            }
        }
    }
    assert forall|p: PinId| #[trigger] entries_map(t).dom().contains(p) implies entries_map(t)[p] == entries_map(s).insert(pin, value)[p] by {
        let c = entry_index(t, p);
        assert(t[c].0 == p);
        if p == pin {
            assert(t[s.len() as int].0 == t[c].0);
        } else {
            assert(c < s.len());
            assert(t[c] == s[c]);
            let c0 = entry_index(s, p);
            assert(s[c0].0 == s[c].0);
        }
    }
    assert(entries_map(t) =~= entries_map(s).insert(pin, value));
}

impl<V> PinValues<V> {
    /// Each pin has at most one entry.
    pub closed spec fn wf(self) -> bool {
        distinct_pins(self.entries@)
    }

    /// The map from pins to values.
    pub closed spec fn view(self) -> Map<PinId, V> {
        entries_map(self.entries@)
    }

    /// No values.
    pub fn new() -> (r: Self)
        ensures
            r.wf(),
            r@ == Map::<PinId, V>::empty(),
    {
        let r = PinValues { entries: Vec::new() };
        assert(r@ =~= Map::<PinId, V>::empty());
        r
    }

    /// The value at `pin`, if any.
    pub fn get(&self, pin: PinId) -> (r: Option<&V>)
        requires
            self.wf(),
        ensures
            r is Some <==> self@.dom().contains(pin),
            r matches Some(v) ==> *v == self@[pin],
    {
        let mut i: usize = 0;
        while i < self.entries.len()
            invariant
                distinct_pins(self.entries@),
                i <= self.entries@.len(),
                forall|j: int| 0 <= j < i ==> self.entries@[j].0 != pin,
            decreases self.entries@.len() - i,
        {
            if self.entries[i].0 == pin {
                proof {
                    let c = entry_index(self.entries@, pin);
                    assert(self.entries@[i as int].0 == pin);
                    assert(self.entries@[c].0 == self.entries@[i as int].0);
                    assert(self@.dom().contains(pin));
                    assert(self@[pin] == self.entries@[c].1);
                }
                return Some(&self.entries[i].1);
            }
            i += 1;
        }
        None
    }

    /// Set the value at `pin`, replacing any earlier one.
    pub fn insert(&mut self, pin: PinId, value: V)
        requires
            old(self).wf(),
        ensures
            final(self).wf(),
            final(self)@ == old(self)@.insert(pin, value),
    {
        let mut i: usize = 0;
        while i < self.entries.len()
            invariant
                *self == *old(self),
                distinct_pins(self.entries@),
                i <= self.entries@.len(),
                forall|j: int| 0 <= j < i ==> self.entries@[j].0 != pin,
            decreases self.entries@.len() - i,
        {
            if self.entries[i].0 == pin {
                proof {
                    lemma_entries_update(self.entries@, i as int, pin, value);
                }
                self.entries.set(i, (pin, value));
                return;
            }
            i += 1;
        }
        proof {
            lemma_entries_push(self.entries@, pin, value);
        }
        self.entries.push((pin, value));
    }
}

/// `m` after writing `outs` in order: a later write to a pin replaces an earlier one.
pub open spec fn with_outputs<V>(m: Map<PinId, V>, outs: Seq<(PinId, V)>) -> Map<PinId, V>
    decreases outs.len(),
{
    if outs.len() == 0 {
        m
    } else {
        with_outputs(m, outs.drop_last()).insert(outs.last().0, outs.last().1)
    }
}

/// `b` lists the pins of `a` in the same order, each with a clone of its value.
pub open spec fn cloned_entries<V: Clone>(a: Seq<(PinId, V)>, b: Seq<(PinId, V)>) -> bool {
    &&& a.len() == b.len()
    &&& forall|j: int| 0 <= j < a.len() ==> (#[trigger] b[j]).0 == a[j].0 && cloned(a[j].1, b[j].1)
}

/// Store a node's outputs: a clone of each value at its pin, in order.
pub fn record_outputs<V: Clone>(values: &mut PinValues<V>, outputs: &[(PinId, V)])
    requires
        old(values).wf(),
    ensures
        final(values).wf(),
        exists|cl: Seq<(PinId, V)>|
            cloned_entries(outputs@, cl) && final(values)@ == with_outputs(old(values)@, cl),
{
    let mut i: usize = 0;
    let ghost mut cl: Seq<(PinId, V)> = Seq::empty();
    while i < outputs.len()
        invariant
            i <= outputs@.len(),
            values.wf(),
            cloned_entries(outputs@.take(i as int), cl),
            values@ == with_outputs(old(values)@, cl),
        decreases outputs@.len() - i,
    {
        let (pin, v) = &outputs[i];
        let c = v.clone();
        values.insert(*pin, c);
        proof {
            let cl0 = cl;
            cl = cl.push((*pin, c));
            assert(cl.drop_last() =~= cl0);
            assert forall|j: int| 0 <= j < i + 1 implies (#[trigger] cl[j]).0 == outputs@.take(i + 1)[j].0
                && cloned(outputs@.take(i + 1)[j].1, cl[j].1) by {
                if j < i {
                    assert(cl[j] == cl0[j]);
                    assert(outputs@.take(i + 1)[j] == outputs@.take(i as int)[j]);
                }
            }
        }
        i += 1;
    }
    assert(outputs@.take(outputs@.len() as int) =~= outputs@);
}

// ----------------------------------------------------------------------
// Inputs of a node
// ----------------------------------------------------------------------

/// Index of the first link of `links` into `pin`.
pub open spec fn first_link_into<E>(links: Seq<Link<E>>, pin: PinId) -> Option<int>
    decreases links.len(),
{
    if links.len() == 0 {
        None
    } else {
        match first_link_into(links.drop_last(), pin) {
            Some(x) => Some(x),
            None => if links.last().to == pin {
                Some(links.len() - 1)
            } else {
                None
            },
        }
    }
}

/// The value at the source pin of the first link into `pin`; `None` when no link runs into
/// `pin` or its source has no value.
pub open spec fn input_value<E, V>(links: Seq<Link<E>>, values: Map<PinId, V>, pin: PinId) -> Option<V> {
    match first_link_into(links, pin) {
        Some(x) => if values.dom().contains(links[x].from) {
            Some(values[links[x].from])
        } else {
            None
        },
        None => None,
    }
}

/// For each pin of `pins` in order that has an input value, the pin and that value.
pub open spec fn gathered_inputs<E, V>(links: Seq<Link<E>>, values: Map<PinId, V>, pins: Seq<Pin>) -> Seq<(PinId, V)>
    decreases pins.len(),
{
    if pins.len() == 0 {
        Seq::empty()
    } else {
        let rest = gathered_inputs(links, values, pins.drop_last());
        match input_value(links, values, pins.last().id) {
            Some(v) => rest.push((pins.last().id, v)),
            None => rest,
        }
    }
}

/// The index of the first link into `pin`.
fn find_first_link_into<E>(links: &Vec<Link<E>>, pin: PinId) -> (r: Option<usize>)
    ensures
        r matches Some(x) ==> first_link_into(links@, pin) == Some(x as int),
        r is None ==> first_link_into(links@, pin) is None,
        first_link_into(links@, pin) matches Some(x) ==> 0 <= x < links@.len() && links@[x].to == pin,
{
    let mut x: usize = 0;
    while x < links.len()
        invariant
            x <= links@.len(),
            first_link_into(links@.take(x as int), pin) is None,
        decreases links@.len() - x,
    {
        assert(links@.take(x + 1).drop_last() =~= links@.take(x as int));
        if links[x].to == pin {
            proof {
                lemma_first_link_prefix(links@, pin, x + 1);
            }
            return Some(x);
        }
        x += 1;
    }
    assert(links@.take(links@.len() as int) =~= links@);
    None
}

/// A first link found in a prefix is the first link of the whole sequence.
proof fn lemma_first_link_prefix<E>(links: Seq<Link<E>>, pin: PinId, j: int)
    requires
        0 <= j <= links.len(),
        first_link_into(links.take(j), pin) is Some,
    ensures
        first_link_into(links, pin) == first_link_into(links.take(j), pin),
        0 <= first_link_into(links, pin).unwrap() < j,
        links[first_link_into(links, pin).unwrap()].to == pin,
    decreases links.len() - j,
{
    lemma_first_link_found(links.take(j), pin);
    if j < links.len() {
        assert(links.take(j + 1).drop_last() =~= links.take(j));
        lemma_first_link_prefix(links, pin, j + 1);
    } else {
        assert(links.take(j) =~= links);
        lemma_first_link_found(links, pin);
    }
}

/// The first link into `pin`, when there is one, is a link into `pin`.
proof fn lemma_first_link_found<E>(links: Seq<Link<E>>, pin: PinId)
    ensures
        first_link_into(links, pin) matches Some(x) ==> 0 <= x < links.len() && links[x].to == pin,
    decreases links.len(),
{
    if links.len() > 0 {
        lemma_first_link_found(links.drop_last(), pin);
    }
}

/// For each input pin of node `node_id`, in order: the value stored at the source of the first
/// link into that pin (a clone of it), when there is such a link and value. Empty when no node
/// has that id.
pub fn gather_inputs_for_node<N, E, V: Clone>(
    graph: &Graph<N, E>,
    node_id: NodeId,
    values_at_pins: &PinValues<V>,
) -> (r: Vec<(PinId, V)>)
    requires
        graph.wf(),
        values_at_pins.wf(),
    ensures
        !graph.has_node(node_id) ==> r@.len() == 0,
        forall|i: int|
            0 <= i < graph.nodes@.len() && (#[trigger] graph.nodes@[i]).id == node_id ==> cloned_entries(
                gathered_inputs(graph.links@, values_at_pins@, graph.nodes@[i].inputs@),
                r@,
            ),
{
    let node = match graph.node(node_id) {
        Some(n) => n,
        None => {
            return Vec::new();
        },
    };
    let ghost ni = choose|i: int| 0 <= i < graph.nodes@.len() && graph.nodes@[i] == *node && node.id == node_id;
    let mut result: Vec<(PinId, V)> = Vec::new();
    let mut k: usize = 0;
    while k < node.inputs.len()
        invariant
            k <= node.inputs@.len(),
            values_at_pins.wf(),
            cloned_entries(gathered_inputs(graph.links@, values_at_pins@, node.inputs@.take(k as int)), result@),
        decreases node.inputs@.len() - k,
    {
        let pin = node.inputs[k].id;
        assert(node.inputs@.take(k + 1).drop_last() =~= node.inputs@.take(k as int));
        let ghost g0 = gathered_inputs(graph.links@, values_at_pins@, node.inputs@.take(k as int));
        let ghost r0 = result@;
        match find_first_link_into(&graph.links, pin) {
            Some(x) => {
                match values_at_pins.get(graph.links[x].from) {
                    Some(v) => {
                        let c = v.clone();
                        result.push((pin, c));
                        proof {
                            assert forall|j: int| 0 <= j < result@.len() implies (#[trigger] result@[j]).0
                                == gathered_inputs(graph.links@, values_at_pins@, node.inputs@.take(k + 1))[j].0
                                && cloned(gathered_inputs(graph.links@, values_at_pins@, node.inputs@.take(k + 1))[j].1, result@[j].1) by {
                                if j < r0.len() {
                                    assert(result@[j] == r0[j]);
                                }
                            }
                        }
                    },
                    None => {},
                }
            },
            None => {},
        }
        k += 1;
    }
    proof {
        assert(node.inputs@.take(node.inputs@.len() as int) =~= node.inputs@);
        assert forall|i: int| 0 <= i < graph.nodes@.len() && (#[trigger] graph.nodes@[i]).id == node_id implies i == ni by {
            assert(graph.nodes@[i].id == graph.nodes@[ni].id);
        }
    }
    result
}


// ----------------------------------------------------------------------
// Evaluation
// ----------------------------------------------------------------------

/// Context passed to node evaluation (e.g. sample rate, time, parameters).
pub trait EvalContext {}

impl EvalContext for () {}

/// Node evaluation for dataflow graphs carrying values of type `V` on their pins.
pub trait NodeEvaluator<N, E, C: EvalContext, V>: Sized {
    /// One evaluation step: evaluating node `node_id` of `graph` in context `ctx` on the input
    /// values `inputs` gave the output values `outputs` and left the evaluator as `after`.
    /// An evaluator may say what its steps are; one that does not promises nothing of them.
    open spec fn evaluated(
        &self,
        graph: Graph<N, E>,
        node_id: NodeId,
        ctx: C,
        inputs: Seq<(PinId, V)>,
        outputs: Seq<(PinId, V)>,
        after: Self,
    ) -> bool {
        true
    }

    /// Compute this node's outputs from resolved inputs.
    fn eval_node(
        &mut self,
        graph: &Graph<N, E>,
        node_id: NodeId,
        ctx: &C,
        input_values: &[(PinId, V)],
    ) -> (r: Vec<(PinId, V)>)
        ensures
            old(self).evaluated(*graph, node_id, *ctx, input_values@, r@, *final(self)),
    ;
}

/// The input pins of node `id` of `graph` (none for a node it does not have).
pub open spec fn node_input_pins<N, E>(graph: Graph<N, E>, id: NodeId) -> Seq<Pin> {
    if graph.has_node(id) {
        graph.nodes@[choose|i: int| 0 <= i < graph.nodes@.len() && #[trigger] graph.nodes@[i].id == id].inputs@
    } else {
        Seq::empty()
    }
}

/// The evaluation of the nodes `order` of `graph` that returned `results`, step by step:
/// the evaluator went through `states`, and the pin values through `values`, starting
/// empty. Step `i` handed the evaluator a copy (`inputs[i]`) of the values that earlier
/// steps wrote to the sources of the input links of node `order[i]`, got `results[i]`, and
/// wrote a copy (`outs[i]`) of those outputs to their pins.
pub open spec fn evaluation_trace<N, E, C: EvalContext, V: Clone, EV: NodeEvaluator<N, E, C, V>>(
    graph: Graph<N, E>,
    ctx: C,
    order: Seq<NodeId>,
    results: Seq<(NodeId, Vec<(PinId, V)>)>,
    states: Seq<EV>,
    inputs: Seq<Seq<(PinId, V)>>,
    outs: Seq<Seq<(PinId, V)>>,
    values: Seq<Map<PinId, V>>,
) -> bool {
    &&& results.len() == order.len()
    &&& states.len() == order.len() + 1
    &&& inputs.len() == order.len()
    &&& outs.len() == order.len()
    &&& values.len() == order.len() + 1
    &&& values[0] == Map::<PinId, V>::empty()
    &&& forall|i: int| 0 <= i < order.len() ==> #[trigger] evaluation_step(graph, ctx, order[i], results[i], states[i], states[i + 1], inputs[i], outs[i], values[i], values[i + 1])
}

/// Step of [`evaluation_trace`] on node `id`: see there.
pub open spec fn evaluation_step<N, E, C: EvalContext, V: Clone, EV: NodeEvaluator<N, E, C, V>>(
    graph: Graph<N, E>,
    ctx: C,
    id: NodeId,
    result: (NodeId, Vec<(PinId, V)>),
    before: EV,
    after: EV,
    inputs: Seq<(PinId, V)>,
    outs: Seq<(PinId, V)>,
    values: Map<PinId, V>,
    values_after: Map<PinId, V>,
) -> bool {
    &&& result.0 == id
    &&& cloned_entries(gathered_inputs(graph.links@, values, node_input_pins(graph, id)), inputs)
    &&& before.evaluated(graph, id, ctx, inputs, result.1@, after)
    &&& cloned_entries(result.1@, outs)
    &&& values_after == with_outputs(values, outs)
}

/// Runs a [`NodeEvaluator`] over a graph in topological order.
pub struct Executor<N, E, C: EvalContext, V, EV: NodeEvaluator<N, E, C, V>> {
    pub graph: Graph<N, E>,
    pub evaluator: EV,
    /// The order in which the nodes are evaluated.
    pub schedule: Schedule<C, V>,
}

/// The order in which an [`Executor`] visits the nodes of its graph.
pub struct Schedule<C, V> {
    topo_order: Vec<NodeId>,
    _phantom: PhantomData<(C, V)>,
}

impl<C, V> Schedule<C, V> {
    /// The node ids, in visiting order.
    pub closed spec fn view(self) -> Seq<NodeId> {
        self.topo_order@
    }

    /// The schedule that visits `order`.
    fn from_order(order: Vec<NodeId>) -> (r: Self)
        ensures
            r@ == order@,
    {
        Schedule { topo_order: order, _phantom: PhantomData }
    }

    /// The id at position `i`.
    fn at(&self, i: usize) -> (r: NodeId)
        requires
            i < self@.len(),
        ensures
            r == self@[i as int],
    {
        self.topo_order[i]
    }

    /// Number of nodes in the schedule.
    fn len(&self) -> (r: usize)
        ensures
            r == self@.len(),
    {
        self.topo_order.len()
    }
}

impl<N, E, C: EvalContext, V: Clone, EV: NodeEvaluator<N, E, C, V>> Executor<N, E, C, V, EV> {
    /// The order in which [`Executor::evaluate`] visits the nodes.
    pub open spec fn topology(self) -> Seq<NodeId> {
        self.schedule@
    }

    /// `order` is what [`compute_topological_order`] returns for `graph`.
    pub open spec fn is_sort_of(graph: Graph<N, E>, order: Seq<NodeId>) -> bool {
        &&& exists|k: int| graph.is_kahn_order(order, k)
        &&& graph.is_dag() <==> graph.is_topological_order(order)
    }

    /// An executor visits its graph's nodes in exactly the order that
    /// [`compute_topological_order`] returns for the graph, as long as the schedule was made
    /// ([`Executor::new`], [`Executor::recompute_topology`]) for the graph it holds now: `order`
    /// is any order of the shape that function returns.
    pub proof fn lemma_schedule_is_the_sort(self, order: Seq<NodeId>)
        requires
            self.graph.wf(),
            Self::is_sort_of(self.graph, self.topology()),
            exists|k: int| self.graph.is_kahn_order(order, k),
        ensures
            self.topology() == order,
    {
        let k1 = choose|k: int| self.graph.is_kahn_order(self.topology(), k);
        let k2 = choose|k: int| self.graph.is_kahn_order(order, k);
        self.graph.lemma_kahn_order_unique(self.topology(), k1, order, k2);
    }

    /// An executor over `graph`, with its nodes sorted by dependency.
    pub fn new(graph: Graph<N, E>, evaluator: EV) -> (r: Self)
        requires
            graph.wf(),
        ensures
            r.graph == graph,
            r.evaluator == evaluator,
            Self::is_sort_of(r.graph, r.topology()),
    {
        let order = compute_topological_order(&graph);
        Executor { graph, evaluator, schedule: Schedule::from_order(order) }
    }

    /// Sort the nodes again, after the graph changed.
    pub fn recompute_topology(&mut self)
        requires
            old(self).graph.wf(),
        ensures
            final(self).graph == old(self).graph,
            final(self).evaluator == old(self).evaluator,
            Self::is_sort_of(final(self).graph, final(self).topology()),
    {
        self.schedule = Schedule::from_order(compute_topological_order(&self.graph));
    }

    /// Evaluate all nodes in order; returns each node with its output pin values.
    ///
    /// Each node gets, through [`gather_inputs_for_node`], the values that the nodes evaluated
    /// before it wrote to the source pins of its input links ([`record_outputs`]); the steps
    /// are stated by [`evaluation_trace`], through the evaluator's own
    /// [`NodeEvaluator::evaluated`].
    pub fn evaluate(&mut self, ctx: &C) -> (r: Vec<(NodeId, Vec<(PinId, V)>)>)
        requires
            old(self).graph.wf(),
        ensures
            final(self).graph == old(self).graph,
            final(self).topology() == old(self).topology(),
            r@.len() == old(self).topology().len(),
            forall|i: int| 0 <= i < r@.len() ==> (#[trigger] r@[i]).0 == old(self).topology()[i],
            exists|states: Seq<EV>, inputs: Seq<Seq<(PinId, V)>>, outs: Seq<Seq<(PinId, V)>>, values: Seq<Map<PinId, V>>|
                {
                    &&& evaluation_trace(old(self).graph, *ctx, old(self).topology(), r@, states, inputs, outs, values)
                    &&& states[0] == old(self).evaluator
                    &&& states.last() == final(self).evaluator
                },
    {
        let mut results: Vec<(NodeId, Vec<(PinId, V)>)> = Vec::new();
        let mut values_at_pins: PinValues<V> = PinValues::new();
        let ghost mut states: Seq<EV> = seq![self.evaluator];
        let ghost mut inputs: Seq<Seq<(PinId, V)>> = Seq::empty();
        let ghost mut outs: Seq<Seq<(PinId, V)>> = Seq::empty();
        let ghost mut values: Seq<Map<PinId, V>> = seq![values_at_pins@];
        let mut i: usize = 0;
        while i < self.schedule.len()
            invariant
                self.graph == old(self).graph,
                self.schedule == old(self).schedule,
                self.graph.wf(),
                values_at_pins.wf(),
                i <= self.schedule@.len(),
                results@.len() == i,
                forall|j: int| 0 <= j < i ==> (#[trigger] results@[j]).0 == self.schedule@[j],
                evaluation_trace(self.graph, *ctx, self.schedule@.take(i as int), results@, states, inputs, outs, values),
                states[0] == old(self).evaluator,
                states.last() == self.evaluator,
                values.last() == values_at_pins@,
            decreases self.schedule@.len() - i,
        {
            let node_id = self.schedule.at(i);
            let input_values = gather_inputs_for_node(&self.graph, node_id, &values_at_pins);
            let ghost before = self.evaluator;
            let outputs = self.evaluator.eval_node(&self.graph, node_id, ctx, input_values.as_slice());
            let ghost v0 = values_at_pins@;
            record_outputs(&mut values_at_pins, outputs.as_slice());
            proof {
                let cl = choose|cl: Seq<(PinId, V)>|
                    cloned_entries(outputs@, cl) && values_at_pins@ == with_outputs(v0, cl);
                if self.graph.has_node(node_id) {
                    let k = choose|k: int| 0 <= k < self.graph.nodes@.len() && #[trigger] self.graph.nodes@[k].id == node_id;
                    assert(cloned_entries(gathered_inputs(self.graph.links@, v0, self.graph.nodes@[k].inputs@), input_values@));
                } else {
                    assert(gathered_inputs(self.graph.links@, v0, node_input_pins(self.graph, node_id)) =~= Seq::<(PinId, V)>::empty());
                }
                assert(evaluation_step(self.graph, *ctx, node_id, (node_id, outputs), before, self.evaluator, input_values@, cl, v0, values_at_pins@));
                let ghost s0 = states;
                let ghost i0 = inputs;
                let ghost o0 = outs;
                let ghost w0 = values;
                states = states.push(self.evaluator);
                inputs = inputs.push(input_values@);
                outs = outs.push(cl);
                values = values.push(values_at_pins@);
                let ord = self.schedule@.take(i + 1);
                assert forall|j: int| 0 <= j < ord.len() implies #[trigger] evaluation_step(self.graph, *ctx, ord[j], results@.push((node_id, outputs))[j], states[j], states[j + 1], inputs[j], outs[j], values[j], values[j + 1]) by {
                    if j < i {
                        assert(ord[j] == self.schedule@.take(i as int)[j]);
                        assert(evaluation_step(self.graph, *ctx, self.schedule@.take(i as int)[j], results@[j], s0[j], s0[j + 1], i0[j], o0[j], w0[j], w0[j + 1]));
                    } else {
                        assert(ord[j] == node_id);
                    }
                }
            }
            results.push((node_id, outputs));
            i += 1;
        }
        proof {
            assert(self.schedule@.take(i as int) =~= self.schedule@);
        }
        results
    }
}

} // verus!
