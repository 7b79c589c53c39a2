//! The shape of the order that [`crate::eval::compute_topological_order`] returns determines
//! it: any two orders of that shape coincide.

use vstd::prelude::*;

use crate::ids::NodeId;
use crate::model::Graph;

verus! {

/// Position of `x` in `o` (meaningful when `o` contains `x`).
pub open spec fn pos_in(o: Seq<NodeId>, x: NodeId) -> int {
    choose|p: int| 0 <= p < o.len() && o[p] == x
}

impl<N, E> Graph<N, E> {
    /// The largest position in `o` of the source of a dependency edge into `v` among the first
    /// `m` edges; `-1` when there is none.
    pub open spec fn max_src_pos(self, o: Seq<NodeId>, v: NodeId, m: int) -> int
        decreases m,
    {
        if m <= 0 {
            -1
        } else {
            let prev = self.max_src_pos(o, v, m - 1);
            if self.dep_id_edges()[m - 1].1 == v && pos_in(o, self.dep_id_edges()[m - 1].0) > prev {
                pos_in(o, self.dep_id_edges()[m - 1].0)
            } else {
                prev
            }
        }
    }

    /// The last of the first `m` dependency edges equal to `pair`; `-1` when there is none.
    pub open spec fn last_edge_index(self, pair: (NodeId, NodeId), m: int) -> int
        decreases m,
    {
        if m <= 0 {
            -1
        } else if self.dep_id_edges()[m - 1] == pair {
            m - 1
        } else {
            self.last_edge_index(pair, m - 1)
        }
    }

    /// Every dependency edge of the first `x` links comes from a link from an output pin to an
    /// input pin.
    proof fn lemma_dep_edges_from_links(self, x: int)
        requires
            0 <= x,
        ensures
            forall|e: int|
                #![trigger self.dep_edges_upto(x)[e]]
                0 <= e < self.dep_edges_upto(x).len() ==> exists|y: int|
                    0 <= y < x && #[trigger] self.link_endpoints(y) == Some(self.dep_edges_upto(x)[e]),
        decreases x,
    {
        if x > 0 {
            self.lemma_dep_edges_from_links(x - 1);
            let prev = self.dep_edges_upto(x - 1);
            assert forall|e: int|
                #![trigger self.dep_edges_upto(x)[e]]
                0 <= e < self.dep_edges_upto(x).len() implies exists|y: int|
                    0 <= y < x && #[trigger] self.link_endpoints(y) == Some(self.dep_edges_upto(x)[e]) by {
                if e < prev.len() {
                    assert(self.dep_edges_upto(x)[e] == prev[e]);
                    let y = choose|y: int| 0 <= y < x - 1 && #[trigger] self.link_endpoints(y) == Some(prev[e]);
                    assert(self.link_endpoints(y) == Some(self.dep_edges_upto(x)[e]));
                } else {
                    assert(self.link_endpoints(x - 1) == Some(self.dep_edges_upto(x)[e]));
                }
            }
        }
    }

    /// A dependency edge joins two nodes of the graph, the second reading from the first.
    proof fn lemma_dep_id_edge(self, e: int)
        requires
            0 <= e < self.dep_id_edges().len(),
        ensures
            self.has_node(self.dep_id_edges()[e].0),
            self.has_node(self.dep_id_edges()[e].1),
            self.node_depends(self.dep_id_edges()[e].0, self.dep_id_edges()[e].1),
    {
        self.lemma_dep_edges_from_links(self.links@.len() as int);
        let ab = self.dep_edges()[e];
        let y = choose|y: int| 0 <= y < self.links@.len() && #[trigger] self.link_endpoints(y) == Some(ab);
        let l = self.links@[y];
        let (i1, o1, k1) = self.pin_loc(l.from);
        let (i2, o2, k2) = self.pin_loc(l.to);
        assert(self.has_pin_at(l.from, i1, o1, k1));
        assert(self.has_pin_at(l.to, i2, o2, k2));
        assert(self.depends(ab.0, ab.1));
        assert(self.dep_id_edges()[e] == (self.nodes@[ab.0].id, self.nodes@[ab.1].id));
    }

    proof fn lemma_max_src_pos(self, o: Seq<NodeId>, v: NodeId, m: int)
        requires
            0 <= m <= self.dep_id_edges().len(),
            forall|e: int| 0 <= e < m && (#[trigger] self.dep_id_edges()[e]).1 == v ==> o.contains(self.dep_id_edges()[e].0),
        ensures
            self.max_src_pos(o, v, m) >= -1,
            forall|e: int|
                0 <= e < m && (#[trigger] self.dep_id_edges()[e]).1 == v ==> 0 <= pos_in(o, self.dep_id_edges()[e].0)
                    <= self.max_src_pos(o, v, m) && o[pos_in(o, self.dep_id_edges()[e].0)] == self.dep_id_edges()[e].0,
            self.max_src_pos(o, v, m) >= 0 ==> exists|e: int|
                0 <= e < m && (#[trigger] self.dep_id_edges()[e]).1 == v && pos_in(o, self.dep_id_edges()[e].0)
                    == self.max_src_pos(o, v, m),
            self.max_src_pos(o, v, m) == -1 ==> forall|e: int| 0 <= e < m ==> (#[trigger] self.dep_id_edges()[e]).1 != v,
        decreases m,
    {
        if m > 0 {
            self.lemma_max_src_pos(o, v, m - 1);
            let d = self.dep_id_edges()[m - 1];
            if d.1 == v {
                assert(o.contains(d.0));
                let p = choose|p: int| 0 <= p < o.len() && o[p] == d.0;
                assert(0 <= pos_in(o, d.0) < o.len() && o[pos_in(o, d.0)] == d.0);
            }
        }
    }

    proof fn lemma_last_edge_index(self, pair: (NodeId, NodeId), m: int)
        requires
            0 <= m <= self.dep_id_edges().len(),
        ensures
            -1 <= self.last_edge_index(pair, m) < m,
            self.last_edge_index(pair, m) >= 0 ==> self.dep_id_edges()[self.last_edge_index(pair, m)] == pair,
            forall|e: int| self.last_edge_index(pair, m) < e < m ==> #[trigger] self.dep_id_edges()[e] != pair,
        decreases m,
    {
        if m > 0 {
            self.lemma_last_edge_index(pair, m - 1);
        }
    }

    /// An order listing every node once holds exactly the node ids.
    proof fn lemma_permutation_members(self, o: Seq<NodeId>)
        requires
            self.wf(),
            self.is_node_permutation(o),
        ensures
            forall|p: int| 0 <= p < o.len() ==> self.has_node(#[trigger] o[p]),
            forall|x: NodeId| self.has_node(x) ==> #[trigger] o.contains(x),
    {
        let ids = Set::new(|x: NodeId| self.has_node(x));
        let s = self.nodes@.map_values(|nd: crate::model::Node<N>| nd.id);
        assert(s.no_duplicates()) by {
            assert forall|a: int, b: int| 0 <= a < s.len() && 0 <= b < s.len() && a != b implies s[a] != s[b] by {
                assert(self.nodes@[a] == self.nodes@[a] && self.nodes@[b] == self.nodes@[b]);
            }
        }
        s.unique_seq_to_set();
        o.unique_seq_to_set();
        assert(s.to_set() =~= ids) by {
            assert forall|x: NodeId| ids.contains(x) implies s.to_set().contains(x) by {
                let i = choose|i: int| 0 <= i < self.nodes@.len() && #[trigger] self.nodes@[i].id == x;
                assert(s[i] == x);
            }
            assert forall|x: NodeId| s.to_set().contains(x) implies ids.contains(x) by {
                let i = choose|i: int| 0 <= i < s.len() && s[i] == x;
                assert(self.nodes@[i].id == x);
            }
        }
        assert forall|x: NodeId| self.has_node(x) implies #[trigger] o.contains(x) by {
            let i = choose|i: int| 0 <= i < self.nodes@.len() && #[trigger] self.nodes@[i].id == x;
            assert(o.contains(self.nodes@[i].id));
        }
        assert(ids.subset_of(o.to_set()));
        assert forall|p: int| 0 <= p < o.len() implies self.has_node(#[trigger] o[p]) by {
            if !self.has_node(o[p]) {
                assert(ids.subset_of(o.to_set().remove(o[p])));
                vstd::set_lib::lemma_len_subset(ids, o.to_set().remove(o[p]));
                assert(o.to_set().contains(o[p]));
            }
        }
    }

    /// A node of the sorted prefix that reads from some node is released by the last of its
    /// sources, through the last link from it.
    proof fn lemma_release_witness(self, o: Seq<NodeId>, k: int, i: int) -> (re: (int, int))
        requires
            self.wf(),
            self.is_kahn_order(o, k),
            0 <= i < k,
            !self.is_source_node(o[i]),
        ensures
            0 <= re.0 < i,
            self.released_by(o, re.0, i),
            self.last_dep_edge(o, re.0, i, re.1),
    {
        self.lemma_permutation_members(o);
        let ed = self.dep_id_edges();
        let m = ed.len() as int;
        let v = o[i];
        assert forall|e: int| 0 <= e < m && (#[trigger] ed[e]).1 == v implies o.contains(ed[e].0) by {
            self.lemma_dep_id_edge(e);
        }
        self.lemma_max_src_pos(o, v, m);
        let r = self.max_src_pos(o, v, m);
        assert(exists|e: int| 0 <= e < m && (#[trigger] ed[e]).1 == v);
        let e1 = choose|e: int| 0 <= e < m && (#[trigger] ed[e]).1 == v;
        assert(0 <= pos_in(o, ed[e1].0) <= r);
        let e2 = choose|e: int|
            0 <= e < m && (#[trigger] ed[e]).1 == v && pos_in(o, ed[e].0) == r;
        assert(o[r] == ed[e2].0);
        self.lemma_dep_id_edge(e2);
        assert(self.node_depends(o[r], o[i]));
        assert(r < i);
        assert(ed[e2] == (o[r], o[i]));
        assert forall|e: int| 0 <= e < m && (#[trigger] ed[e]).1 == o[i] implies exists|p: int|
            0 <= p <= r && #[trigger] o[p] == ed[e].0 by {
            assert(o[pos_in(o, ed[e].0)] == ed[e].0);
        }
        assert(self.released_by(o, r, i));
        let pair = (o[r], o[i]);
        self.lemma_last_edge_index(pair, m);
        let le = self.last_edge_index(pair, m);
        if le < 0 {
            assert(ed[e2] == pair);
            assert(false);
        }
        assert(self.last_dep_edge(o, r, i, le));
        (r, le)
    }

    /// Releasing carries over to an order that agrees up to the releaser.
    proof fn lemma_release_transfer(self, o: Seq<NodeId>, o2: Seq<NodeId>, r: int, i: int, j: int, e: int)
        requires
            self.released_by(o, r, i),
            self.last_dep_edge(o, r, i, e),
            0 <= i < o.len(),
            0 <= j < o2.len(),
            o2[j] == o[i],
            r < o2.len(),
            forall|p: int| 0 <= p <= r ==> #[trigger] o2[p] == o[p],
        ensures
            self.released_by(o2, r, j),
            self.last_dep_edge(o2, r, j, e),
    {
        let ed = self.dep_id_edges();
        assert(o2[r] == o[r]);
        let e0 = choose|e0: int| 0 <= e0 < ed.len() && #[trigger] ed[e0] == (o[r], o[i]);
        assert(ed[e0] == (o2[r], o2[j]));
        assert forall|x: int| 0 <= x < ed.len() && (#[trigger] ed[x]).1 == o2[j] implies exists|p: int|
            0 <= p <= r && #[trigger] o2[p] == ed[x].0 by {
            let p = choose|p: int| 0 <= p <= r && #[trigger] o[p] == ed[x].0;
            assert(o2[p] == o[p]);
        }
    }

    /// The nodes of one sorted prefix lie in the other's.
    proof fn lemma_prefix_in_prefix(self, o1: Seq<NodeId>, k1: int, o2: Seq<NodeId>, k2: int, i: int)
        requires
            self.wf(),
            self.is_kahn_order(o1, k1),
            self.is_kahn_order(o2, k2),
            0 <= i < k1,
        ensures
            0 <= pos_in(o2, o1[i]) < k2,
            o2[pos_in(o2, o1[i])] == o1[i],
        decreases i,
    {
        self.lemma_permutation_members(o1);
        self.lemma_permutation_members(o2);
        let x = o1[i];
        assert(self.has_node(x));
        assert(o2.contains(x));
        let j = pos_in(o2, x);
        assert(0 <= j < o2.len() && o2[j] == x);
        if j >= k2 {
            assert(self.reads_from_some(o2, k2, o2[j]));
            let p = choose|p: int| k2 <= p < o2.len() && #[trigger] self.node_depends(o2[p], o2[j]);
            let y = o2[p];
            let (a, b) = choose|a: int, b: int|
                0 <= a < self.nodes@.len() && 0 <= b < self.nodes@.len() && self.nodes@[a].id == y
                    && self.nodes@[b].id == x && #[trigger] self.depends(a, b);
            assert(self.has_node(y));
            assert(o1.contains(y));
            let i2 = pos_in(o1, y);
            assert(o1[i2] == y);
            assert(self.node_depends(o1[i2], o1[i]));
            assert(i2 < i);
            self.lemma_prefix_in_prefix(o1, k1, o2, k2, i2);
            assert(o2[pos_in(o2, y)] == y);
            assert(pos_in(o2, y) == p) by {
                if pos_in(o2, y) != p {
                    assert(o2[pos_in(o2, y)] == o2[p]);
                }
            }
        }
    }

    /// A duplicate-free sequence of integers in `[0, n)` has at most `n` entries.
    proof fn lemma_positions_bounded(t: Seq<int>, n: int)
        requires
            t.no_duplicates(),
            forall|i: int| 0 <= i < t.len() ==> 0 <= #[trigger] t[i] < n,
            0 <= n,
        ensures
            t.len() <= n,
    {
        t.unique_seq_to_set();
        vstd::set_lib::lemma_int_range(0, n);
        assert forall|x: int| t.to_set().contains(x) implies vstd::set_lib::set_int_range(0, n).contains(x) by {
            let i = choose|i: int| 0 <= i < t.len() && t[i] == x;
        }
        vstd::set_lib::lemma_len_subset(t.to_set(), vstd::set_lib::set_int_range(0, n));
    }

    /// Two orders of the shape [`Graph::is_kahn_order`] sort the same number of nodes.
    proof fn lemma_prefix_len(self, o1: Seq<NodeId>, k1: int, o2: Seq<NodeId>, k2: int)
        requires
            self.wf(),
            self.is_kahn_order(o1, k1),
            self.is_kahn_order(o2, k2),
        ensures
            k1 <= k2,
    {
        let t = Seq::new(k1 as nat, |i: int| pos_in(o2, o1[i]));
        assert forall|i: int| 0 <= i < t.len() implies 0 <= #[trigger] t[i] < k2 by {
            self.lemma_prefix_in_prefix(o1, k1, o2, k2, i);
        }
        assert(t.no_duplicates()) by {
            assert forall|a: int, b: int| 0 <= a < t.len() && 0 <= b < t.len() && a != b implies t[a] != t[b] by {
                self.lemma_prefix_in_prefix(o1, k1, o2, k2, a);
                self.lemma_prefix_in_prefix(o1, k1, o2, k2, b);
                assert(o1[a] != o1[b]);
            }
        }
        Self::lemma_positions_bounded(t, k2);
    }

    /// Two orders of the shape [`Graph::is_kahn_order`] that agree before position `i` agree
    /// at `i`.
    #[verifier::rlimit(40)]
    proof fn lemma_orders_agree_at(self, o1: Seq<NodeId>, o2: Seq<NodeId>, k: int, i: int)
        requires
            self.wf(),
            self.is_kahn_order(o1, k),
            self.is_kahn_order(o2, k),
            0 <= i < o1.len(),
            forall|p: int| 0 <= p < i ==> #[trigger] o1[p] == o2[p],
        ensures
            o1[i] == o2[i],
    {
        self.lemma_permutation_members(o1);
        self.lemma_permutation_members(o2);
        let a = o1[i];
        let b = o2[i];
        if a != b {
            assert(self.has_node(b) && self.has_node(a));
            assert(o1.contains(b) && o2.contains(a));
            let j = pos_in(o1, b);
            let j2 = pos_in(o2, a);
            assert(o1[j] == b && o2[j2] == a);
            assert(j > i) by {
                if j < i {
                    assert(o2[j] == b);
                }
            }
            assert(j2 > i) by {
                if j2 < i {
                    assert(o1[j2] == a);
                }
            }
            if i < k {
                self.lemma_prefix_in_prefix(o2, k, o1, k, i);
                self.lemma_prefix_in_prefix(o1, k, o2, k, i);
                assert(pos_in(o1, o2[i]) == j);
                assert(pos_in(o2, o1[i]) == j2);
                assert(self.queued_before(o1, i, j));
                assert(self.queued_before(o2, i, j2));
                if self.is_source_node(b) {
                    assert(o1[j] == b);
                    assert(o2[j2] == a);
                } else if self.is_source_node(a) {
                    assert(o2[j2] == a);
                } else {
                    let (ra, ea) = self.lemma_release_witness(o1, k, i);
                    let (rb, eb) = self.lemma_release_witness(o2, k, i);
                    self.lemma_release_transfer(o1, o2, ra, i, j2, ea);
                    self.lemma_release_transfer(o2, o1, rb, i, j, eb);
                    assert(self.last_dep_edge(o1, ra, i, ea) && self.last_dep_edge(o1, rb, j, eb));
                    assert(self.last_dep_edge(o2, rb, i, eb) && self.last_dep_edge(o2, ra, j2, ea));
                }
            } else {
                assert(o1[i].spec_get() < o1[j].spec_get());
                assert(o2[i].spec_get() < o2[j2].spec_get());
            }
        }
    }

    /// Two orders of the shape [`Graph::is_kahn_order`] agree before position `i`.
    proof fn lemma_orders_agree_upto(self, o1: Seq<NodeId>, o2: Seq<NodeId>, k: int, i: int)
        requires
            self.wf(),
            self.is_kahn_order(o1, k),
            self.is_kahn_order(o2, k),
            0 <= i <= o1.len(),
        ensures
            forall|p: int| 0 <= p < i ==> #[trigger] o1[p] == o2[p],
        decreases i,
    {
        if i > 0 {
            self.lemma_orders_agree_upto(o1, o2, k, i - 1);
            self.lemma_orders_agree_at(o1, o2, k, i - 1);
        }
    }

    /// The shape [`Graph::is_kahn_order`] fixes the order: two orders of that shape, and the
    /// numbers of nodes they sort, are equal. So [`crate::eval::compute_topological_order`]
    /// is a function of the graph.
    pub proof fn lemma_kahn_order_unique(self, o1: Seq<NodeId>, k1: int, o2: Seq<NodeId>, k2: int)
        requires
            self.wf(),
            self.is_kahn_order(o1, k1),
            self.is_kahn_order(o2, k2),
        ensures
            k1 == k2,
            o1 == o2,
    {
        self.lemma_prefix_len(o1, k1, o2, k2);
        self.lemma_prefix_len(o2, k2, o1, k1);
        self.lemma_orders_agree_upto(o1, o2, k1, o1.len() as int);
        assert(o1 =~= o2);
    }
}

} // verus!
