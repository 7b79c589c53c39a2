//! Graph topology and node payloads: nodes with typed pins, links from an output pin to an
//! input pin, and stable ids that are handed out once and never reused.

use vstd::prelude::*;

use crate::error::GraphError;
use crate::ids::{LinkId, NodeId, PinId};
use crate::layout::Layout2d;
use crate::pin_type::PinType;

verus! {

/// Input vs output port (also stored on each [`Pin`]).
#[derive(Clone, Copy, Debug, PartialEq, Eq, Structural)]
pub enum PinKind {
    Input,
    Output,
}

/// One connection point on a node.
#[derive(Clone, Debug)]
pub struct Pin {
    pub id: PinId,
    pub kind: PinKind,
    pub label: String,
    pub ty: PinType,
}

/// One node: label, domain `data`, editor layout, collapse state, and its pins.
#[derive(Clone, Debug)]
pub struct Node<N> {
    pub id: NodeId,
    pub label: String,
    pub data: N,
    pub layout: Layout2d,
    /// UI collapse state (an editor shows the node open exactly when this is `false`).
    pub collapsed: bool,
    pub inputs: Vec<Pin>,
    pub outputs: Vec<Pin>,
}

/// Directed link from an **output** pin to an **input** pin.
#[derive(Clone, Debug)]
pub struct Link<E> {
    pub id: LinkId,
    pub from: PinId,
    pub to: PinId,
    pub data: E,
}

/// Topology and payloads of a dataflow graph.
#[derive(Clone, Debug)]
pub struct Graph<N, E> {
    pub nodes: Vec<Node<N>>,
    pub links: Vec<Link<E>>,
    /// Counters that hand out fresh ids.
    pub ids: IdCounters,
}

/// The numbers the next node, pin and link ids of a [`Graph`] will carry.
#[derive(Clone, Debug)]
pub struct IdCounters {
    next_node: u32,
    next_pin: u32,
    next_link: u32,
}

/// The decimal digits of `n`, most significant first, as `Display` prints an integer.
pub open spec fn decimal_digits(n: nat) -> Seq<char>
    decreases n,
{
    if n < 10 {
        seq![(48 + n) as char]
    } else {
        decimal_digits(n / 10).push((48 + n % 10) as char)
    }
}

/// The pins of `node` on one side: outputs when `out`, inputs otherwise.
pub open spec fn side<N>(node: Node<N>, out: bool) -> Seq<Pin> {
    if out {
        node.outputs@
    } else {
        node.inputs@
    }
}

/// Link ids in `links` are pairwise distinct.
pub open spec fn link_ids_distinct<E>(links: Seq<Link<E>>) -> bool {
    forall|a: int, b: int|
        #![trigger links[a], links[b]]
        0 <= a < links.len() && 0 <= b < links.len() && links[a].id == links[b].id ==> a == b
}

/// `node` carries pin `pin`, as an input or an output.
pub open spec fn node_has_pin<N>(node: Node<N>, pin: PinId) -> bool {
    exists|o: bool, k: int| 0 <= k < side(node, o).len() && (#[trigger] side(node, o)[k]).id == pin
}

/// Link `l` touches none of the pins of `node`.
pub open spec fn link_avoids_node<N, E>(node: Node<N>, l: Link<E>) -> bool {
    !node_has_pin(node, l.from) && !node_has_pin(node, l.to)
}

/// Whether `node` carries pin `pin`.
fn node_carries_pin<N>(node: &Node<N>, pin: PinId) -> (r: bool)
    ensures
        r == node_has_pin(*node, pin),
{
    let mut k: usize = 0;
    while k < node.inputs.len()
        invariant
            k <= node.inputs@.len(),
            forall|kk: int| 0 <= kk < k ==> (#[trigger] node.inputs@[kk]).id != pin,
        decreases node.inputs@.len() - k,
    {
        if node.inputs[k].id == pin {
            assert(side(*node, false)[k as int].id == pin);
            return true;
        }
        k += 1;
    }
    let mut k: usize = 0;
    while k < node.outputs.len()
        invariant
            k <= node.outputs@.len(),
            forall|kk: int| 0 <= kk < node.inputs@.len() ==> (#[trigger] node.inputs@[kk]).id != pin,
            forall|kk: int| 0 <= kk < k ==> (#[trigger] node.outputs@[kk]).id != pin,
        decreases node.outputs@.len() - k,
    {
        if node.outputs[k].id == pin {
            assert(side(*node, true)[k as int].id == pin);
            return true;
        }
        k += 1;
    }
    assert forall|o: bool, k: int| 0 <= k < side(*node, o).len() implies (#[trigger] side(*node, o)[k]).id != pin by {
        if o {
            assert(node.outputs@[k].id != pin);
        } else {
            assert(node.inputs@[k].id != pin);
        }
    }
    false
}

/// Whether `keys` lists `k`.
pub(crate) fn has_pin_pair(keys: &Vec<(PinId, PinId)>, k: (PinId, PinId)) -> (r: bool)
    ensures
        r == keys@.contains(k),
{
    let mut i: usize = 0;
    while i < keys.len()
        invariant
            i <= keys@.len(),
            forall|j: int| 0 <= j < i ==> keys@[j] != k,
        decreases keys@.len() - i,
    {
        let c = keys[i];
        if c.0 == k.0 && c.1 == k.1 {
            assert(keys@[i as int] == k);
            return true;
        }
        i += 1;
    }
    false
}

/// Filtering by a predicate that holds everywhere keeps the sequence.
pub proof fn lemma_filter_all<A>(s: Seq<A>)
    ensures
        s.filter(|x: A| true) == s,
    decreases s.len(),
{
    reveal(Seq::filter);
    if s.len() > 0 {
        lemma_filter_all(s.drop_last());
        assert(s.drop_last().push(s.last()) =~= s);
    }
}

/// Filtering twice is filtering by both predicates.
pub proof fn lemma_filter_filter<A>(s: Seq<A>, p: spec_fn(A) -> bool, q: spec_fn(A) -> bool)
    ensures
        s.filter(p).filter(q) == s.filter(|x: A| p(x) && q(x)),
    decreases s.len(),
{
    reveal(Seq::filter);
    if s.len() > 0 {
        let t = s.drop_last();
        let x = s.last();
        lemma_filter_filter(t, p, q);
        if p(x) {
            assert(t.filter(p).push(x).drop_last() =~= t.filter(p));
        }
    }
}

/// Filters by predicates that agree on the elements are equal.
pub proof fn lemma_filter_agree<A>(s: Seq<A>, p: spec_fn(A) -> bool, q: spec_fn(A) -> bool)
    requires
        forall|i: int| 0 <= i < s.len() ==> p(#[trigger] s[i]) == q(s[i]),
    ensures
        s.filter(p) == s.filter(q),
    decreases s.len(),
{
    reveal(Seq::filter);
    if s.len() > 0 {
        let t = s.drop_last();
        assert forall|i: int| 0 <= i < t.len() implies p(#[trigger] t[i]) == q(t[i]) by {
            assert(t[i] == s[i]);
        }
        lemma_filter_agree(t, p, q);
        assert(p(s[s.len() - 1]) == q(s[s.len() - 1]));
    }
}

/// Removing from a filtered list of nodes the one with id `c` (ids being distinct) is
/// filtering out `c` as well.
pub proof fn lemma_filter_remove_node<N>(s: Seq<Node<N>>, p: spec_fn(Node<N>) -> bool, i: int, c: NodeId)
    requires
        forall|a: int, b: int| 0 <= a < s.len() && 0 <= b < s.len() && (#[trigger] s[a]).id == (#[trigger] s[b]).id ==> a == b,
        0 <= i < s.filter(p).len(),
        s.filter(p)[i].id == c,
    ensures
        s.filter(p).remove(i) == s.filter(|n: Node<N>| p(n) && n.id != c),
    decreases s.len(),
{
    reveal(Seq::filter);
    let pc = |n: Node<N>| p(n) && n.id != c;
    if s.len() > 0 {
        let t = s.drop_last();
        let x = s.last();
        assert forall|a: int, b: int| 0 <= a < t.len() && 0 <= b < t.len() && (#[trigger] t[a]).id == (#[trigger] t[b]).id implies a == b by {
            assert(t[a] == s[a] && t[b] == s[b]);
        }
        broadcast use vstd::seq_lib::group_filter_ensures;

        if p(x) {
            assert(s.filter(p) == t.filter(p).push(x));
            if x.id == c {
                assert forall|j: int| 0 <= j < t.len() implies (#[trigger] t[j]).id != c by {
                    assert(t[j] == s[j]);
                    assert(s[s.len() - 1] == x);
                }
                if i < t.filter(p).len() {
                    let e = t.filter(p)[i];
                    assert(t.filter(p).contains(e));
                    t.lemma_filter_contains_rev(p, e);
                    assert(t.contains(e));
                    let j = choose|j: int| 0 <= j < t.len() && t[j] == e;
                    assert(false);
                }
                assert(s.filter(p).remove(i) =~= t.filter(p));
                lemma_filter_agree(t, p, pc);
            } else {
                assert(i < t.filter(p).len());
                lemma_filter_remove_node(t, p, i, c);
                assert(s.filter(p).remove(i) =~= t.filter(p).remove(i).push(x));
            }
        } else {
            assert(s.filter(p) == t.filter(p));
            lemma_filter_remove_node(t, p, i, c);
        }

    }
}

/// One step of filtering `s` from the front: the prefix of length `j + 1` filters to the
/// filtered prefix of length `j`, plus `s[j]` when it passes.
proof fn lemma_filter_step<A>(s: Seq<A>, pred: spec_fn(A) -> bool, j: int)
    requires
        0 <= j < s.len(),
    ensures
        s.take(j + 1).filter(pred) == if pred(s[j]) {
            s.take(j).filter(pred).push(s[j])
        } else {
            s.take(j).filter(pred)
        },
        s.skip(j) == seq![s[j]] + s.skip(j + 1),
{
    reveal_with_fuel(Seq::filter, 1);
    assert(s.take(j + 1).drop_last() =~= s.take(j));
    assert(s.skip(j) =~= seq![s[j]] + s.skip(j + 1));
}

/// Filtering links keeps their ids distinct and only keeps links of the input.
proof fn lemma_filter_links<E>(s: Seq<Link<E>>, pred: spec_fn(Link<E>) -> bool)
    requires
        link_ids_distinct(s),
    ensures
        link_ids_distinct(s.filter(pred)),
        forall|x: int| 0 <= x < s.filter(pred).len() ==> s.contains(#[trigger] s.filter(pred)[x]),
    decreases s.len(),
{
    reveal_with_fuel(Seq::filter, 1);
    if s.len() > 0 {
        let t = s.drop_last();
        assert forall|a: int, b: int|
            #![trigger t[a], t[b]]
            0 <= a < t.len() && 0 <= b < t.len() && t[a].id == t[b].id implies a == b by {
            assert(t[a] == s[a] && t[b] == s[b]);
        }
        lemma_filter_links(t, pred);
        let ft = t.filter(pred);
        assert forall|x: int| 0 <= x < ft.len() implies s.contains(#[trigger] ft[x]) by {
            assert(t.contains(ft[x]));
            let w = choose|w: int| 0 <= w < t.len() && t[w] == ft[x];
            assert(s[w] == ft[x]);
        }
        if pred(s.last()) {
            let fs = ft.push(s.last());
            assert(s.filter(pred) == fs);
            assert forall|a: int, b: int|
                #![trigger fs[a], fs[b]]
                0 <= a < fs.len() && 0 <= b < fs.len() && fs[a].id == fs[b].id implies a == b by {
                if a < ft.len() && b < ft.len() {
                    assert(fs[a] == ft[a] && fs[b] == ft[b]);
                } else if a < ft.len() {
                    assert(t.contains(ft[a]));
                    let w = choose|w: int| 0 <= w < t.len() && t[w] == ft[a];
                    assert(s[w] == ft[a]);
                    assert(s[s.len() - 1] == fs[b]);
                } else if b < ft.len() {
                    assert(t.contains(ft[b]));
                    let w = choose|w: int| 0 <= w < t.len() && t[w] == ft[b];
                    assert(s[w] == ft[b]);
                    assert(s[s.len() - 1] == fs[a]);
                }
            }
            assert forall|x: int| 0 <= x < fs.len() implies s.contains(#[trigger] fs[x]) by {
                if x < ft.len() {
                    assert(fs[x] == ft[x]);
                } else {
                    assert(s[s.len() - 1] == fs[x]);
                }
            }
        }
    }
}

impl<N, E> Graph<N, E> {
    // ------------------------------------------------------------------
    // Model
    // ------------------------------------------------------------------

    /// Position `(i, out, k)` names pin `k` on side `out` of node `i`.
    pub open spec fn valid_loc(self, i: int, out: bool, k: int) -> bool {
        &&& 0 <= i < self.nodes@.len()
        &&& 0 <= k < side(self.nodes@[i], out).len()
    }

    /// The pin at position `(i, out, k)`.
    pub open spec fn pin_at(self, i: int, out: bool, k: int) -> Pin {
        side(self.nodes@[i], out)[k]
    }

    /// Pin `pin` sits at position `(i, out, k)`.
    pub open spec fn has_pin_at(self, pin: PinId, i: int, out: bool, k: int) -> bool {
        self.valid_loc(i, out, k) && self.pin_at(i, out, k).id == pin
    }

    /// Some node carries pin `pin`.
    pub open spec fn has_pin(self, pin: PinId) -> bool {
        exists|i: int, out: bool, k: int| #[trigger] self.has_pin_at(pin, i, out, k)
    }

    /// Some node has id `id`.
    pub open spec fn has_node(self, id: NodeId) -> bool {
        exists|i: int| 0 <= i < self.nodes@.len() && #[trigger] self.nodes@[i].id == id
    }

    /// Position of pin `pin` (meaningful when [`Self::has_pin`]).
    pub open spec fn pin_loc(self, pin: PinId) -> (int, bool, int) {
        choose|i: int, out: bool, k: int| #[trigger] self.has_pin_at(pin, i, out, k)
    }

    /// `(node, port, is_output)` of pin `pin`, or `None` for an unknown pin.
    pub open spec fn spec_pin_port(self, pin: PinId) -> Option<(NodeId, int, bool)> {
        if self.has_pin(pin) {
            let (i, out, k) = self.pin_loc(pin);
            Some((self.nodes@[i].id, k, out))
        } else {
            None
        }
    }

    /// Data type of pin `pin` (meaningful when [`Self::has_pin`]).
    pub open spec fn pin_type_of(self, pin: PinId) -> PinType {
        let (i, out, k) = self.pin_loc(pin);
        self.pin_at(i, out, k).ty
    }

    /// Some link already goes from `from` to `to`.
    pub open spec fn has_link_between(self, from: PinId, to: PinId) -> bool {
        exists|a: int|
            0 <= a < self.links@.len() && (#[trigger] self.links@[a]).from == from
                && self.links@[a].to == to
    }

    /// Some link has id `id`.
    pub open spec fn has_link(self, id: LinkId) -> bool {
        exists|a: int| 0 <= a < self.links@.len() && (#[trigger] self.links@[a]).id == id
    }

    /// The number the next node id will carry.
    pub closed spec fn next_node_raw(self) -> u32 {
        self.ids.next_node
    }

    /// The number the next pin id will carry.
    pub closed spec fn next_pin_raw(self) -> u32 {
        self.ids.next_pin
    }

    /// The number the next link id will carry.
    pub closed spec fn next_link_raw(self) -> u32 {
        self.ids.next_link
    }

    /// Node ids are pairwise distinct.
    pub open spec fn node_ids_unique(self) -> bool {
        forall|a: int, b: int|
            #![trigger self.nodes@[a], self.nodes@[b]]
            0 <= a < self.nodes@.len() && 0 <= b < self.nodes@.len() && self.nodes@[a].id
                == self.nodes@[b].id ==> a == b
    }

    /// Pin ids are pairwise distinct over the whole graph.
    pub open spec fn pin_ids_unique(self) -> bool {
        forall|i1: int, o1: bool, k1: int, i2: int, o2: bool, k2: int|
            #![trigger self.pin_at(i1, o1, k1), self.pin_at(i2, o2, k2)]
            self.valid_loc(i1, o1, k1) && self.valid_loc(i2, o2, k2) && self.pin_at(i1, o1, k1).id
                == self.pin_at(i2, o2, k2).id ==> i1 == i2 && o1 == o2 && k1 == k2
    }

    /// Link ids are pairwise distinct.
    pub open spec fn link_ids_unique(self) -> bool {
        link_ids_distinct(self.links@)
    }

    /// Every id in use is below the counter that hands out the next one.
    pub closed spec fn ids_below_counters(self) -> bool {
        &&& 1 <= self.ids.next_node && 1 <= self.ids.next_pin && 1 <= self.ids.next_link
        &&& forall|i: int|
            0 <= i < self.nodes@.len() ==> (#[trigger] self.nodes@[i]).id.spec_get()
                < self.ids.next_node
        &&& forall|i: int, o: bool, k: int|
            self.valid_loc(i, o, k) ==> (#[trigger] self.pin_at(i, o, k)).id.spec_get()
                < self.ids.next_pin
        &&& forall|a: int|
            0 <= a < self.links@.len() ==> (#[trigger] self.links@[a]).id.spec_get()
                < self.ids.next_link
    }

    /// Well-formedness: ids are unique and every id in use was handed out by this graph.
    pub open spec fn wf(self) -> bool {
        &&& self.node_ids_unique()
        &&& self.pin_ids_unique()
        &&& self.link_ids_unique()
        &&& self.ids_below_counters()
    }

    /// Room for one more node with `n_pins` pins in the `u32` id spaces.
    pub open spec fn can_add_node(self, n_pins: nat) -> bool {
        self.next_node_raw() < u32::MAX && self.next_pin_raw() + n_pins <= u32::MAX
    }

    /// Room for one more link in the `u32` id space.
    pub open spec fn can_add_link(self) -> bool {
        self.next_link_raw() < u32::MAX
    }

    // ------------------------------------------------------------------
    // Operations
    // ------------------------------------------------------------------

    /// An empty graph; the first ids handed out are `1`.
    pub fn new() -> (g: Self)
        ensures
            g.wf(),
            g.nodes@.len() == 0,
            g.links@.len() == 0,
            g.next_node_raw() == 1,
            g.next_pin_raw() == 1,
            g.next_link_raw() == 1,
    {
        Graph {
            nodes: Vec::new(),
            links: Vec::new(),
            ids: IdCounters { next_node: 1, next_pin: 1, next_link: 1 },
        }
    }

    /// Whether the id spaces have room for one more node with `n_pins` pins.
    pub fn has_room_for_node(&self, n_pins: usize) -> (r: bool)
        ensures
            r == self.can_add_node(n_pins as nat),
    {
        self.ids.next_node < u32::MAX && n_pins as u64 <= (u32::MAX - self.ids.next_pin) as u64
    }

    /// How many more link ids the `u32` id space can hand out.
    pub fn link_ids_left(&self) -> (r: u32)
        ensures
            r == u32::MAX - self.next_link_raw(),
    {
        u32::MAX - self.ids.next_link
    }

    /// The node with id `id`, if any.
    pub fn node(&self, id: NodeId) -> (r: Option<&Node<N>>)
        ensures
            r is None <==> !self.has_node(id),
            r matches Some(n) ==> exists|i: int|
                0 <= i < self.nodes@.len() && self.nodes@[i] == *n && n.id == id,
    {
        let mut i: usize = 0;
        while i < self.nodes.len()
            invariant
                i <= self.nodes@.len(),
                forall|j: int| 0 <= j < i ==> self.nodes@[j].id != id,
            decreases self.nodes@.len() - i,
        {
            if self.nodes[i].id == id {
                return Some(&self.nodes[i]);
            }
            i += 1;
        }
        None
    }

    /// Mutable access to the node with id `id`, if any.
    pub fn node_mut(&mut self, id: NodeId) -> (r: Option<&mut Node<N>>)
        ensures
            r is None <==> !old(self).has_node(id),
            r is None ==> *final(self) == *old(self),
            r matches Some(n) ==> exists|i: int|
                0 <= i < old(self).nodes@.len() && old(self).nodes@[i] == *n && n.id == id
                    && final(self).nodes@ == old(self).nodes@.update(i, *final(n)),
            final(self).links@ == old(self).links@,
            final(self).next_node_raw() == old(self).next_node_raw(),
            final(self).next_pin_raw() == old(self).next_pin_raw(),
            final(self).next_link_raw() == old(self).next_link_raw(),
    {
        let mut i: usize = 0;
        while i < self.nodes.len()
            invariant
                *self == *old(self),
                i <= self.nodes@.len(),
                forall|j: int| 0 <= j < i ==> self.nodes@[j].id != id,
            decreases self.nodes@.len() - i,
        {
            if self.nodes[i].id == id {
                return Some(&mut self.nodes[i]);
            }
            i += 1;
        }
        None
    }

    /// All nodes, in insertion order.
    pub fn nodes_iter(&self) -> (r: &[Node<N>])
        ensures
            r@ == self.nodes@,
    {
        self.nodes.as_slice()
    }

    /// All links, in insertion order.
    pub fn links_iter(&self) -> (r: &[Link<E>])
        ensures
            r@ == self.links@,
    {
        self.links.as_slice()
    }

    /// Node, port index within its inputs or outputs, and `true` if this pin is an output.
    pub fn pin_port(&self, pin: PinId) -> (r: Option<(NodeId, usize, bool)>)
        ensures
            r is None <==> !self.has_pin(pin),
            r matches Some((n, port, out)) ==> exists|i: int|
                self.has_pin_at(pin, i, out, port as int) && (#[trigger] self.nodes@[i]).id == n,
            self.wf() ==> match r {
                Some((n, port, out)) => self.spec_pin_port(pin) == Some((n, port as int, out)),
                None => self.spec_pin_port(pin) is None,
            },
    {
        let found = self.find_pin(pin);
        match found {
            Some((i, out, k)) => {
                assert(self.has_pin_at(pin, i as int, out, k as int));
                Some((self.nodes[i].id, k, out))
            },
            None => None,
        }
    }

    /// Position `(node index, is_output, port)` of pin `pin`, if any node carries it.
    pub(crate) fn find_pin(&self, pin: PinId) -> (r: Option<(usize, bool, usize)>)
        ensures
            r is None <==> !self.has_pin(pin),
            r matches Some((i, out, k)) ==> self.has_pin_at(pin, i as int, out, k as int),
            self.wf() ==> (r matches Some((i, out, k)) ==> self.pin_loc(pin) == (
                i as int,
                out,
                k as int,
            )),
    {
        let mut i: usize = 0;
        while i < self.nodes.len()
            invariant
                i <= self.nodes@.len(),
                forall|j: int, o: bool, k: int| 0 <= j < i ==> !#[trigger] self.has_pin_at(pin, j, o, k),
            decreases self.nodes@.len() - i,
        {
            let node = &self.nodes[i];
            let mut k: usize = 0;
            while k < node.inputs.len()
                invariant
                    i < self.nodes@.len(),
                    node == self.nodes@[i as int],
                    k <= node.inputs@.len(),
                    forall|kk: int| 0 <= kk < k ==> !#[trigger] self.has_pin_at(pin, i as int, false, kk),
                decreases node.inputs@.len() - k,
            {
                if node.inputs[k].id == pin {
                    assert(self.has_pin_at(pin, i as int, false, k as int));
                    proof { self.lemma_pin_loc_unique(pin, i as int, false, k as int); }
                    return Some((i, false, k));
                }
                k += 1;
            }
            let mut k: usize = 0;
            while k < node.outputs.len()
                invariant
                    i < self.nodes@.len(),
                    node == self.nodes@[i as int],
                    k <= node.outputs@.len(),
                    forall|kk: int| 0 <= kk < k ==> !#[trigger] self.has_pin_at(pin, i as int, true, kk),
                decreases node.outputs@.len() - k,
            {
                if node.outputs[k].id == pin {
                    assert(self.has_pin_at(pin, i as int, true, k as int));
                    proof { self.lemma_pin_loc_unique(pin, i as int, true, k as int); }
                    return Some((i, true, k));
                }
                k += 1;
            }
            assert forall|j: int, o: bool, kk: int| 0 <= j < i + 1 implies !#[trigger] self.has_pin_at(pin, j, o, kk) by {
                if j == i && self.has_pin_at(pin, j, o, kk) {
                    if o {
                        assert(!self.has_pin_at(pin, i as int, true, kk));
                    } else {
                        assert(!self.has_pin_at(pin, i as int, false, kk));
                    }
                }
            }
            i += 1;
        }
        None
    }

    fn alloc_node_id(&mut self) -> (id: NodeId)
        requires
            1 <= old(self).next_node_raw() < u32::MAX,
        ensures
            id.spec_get() == old(self).next_node_raw(),
            final(self).next_node_raw() == old(self).next_node_raw() + 1,
            final(self).next_pin_raw() == old(self).next_pin_raw(),
            final(self).next_link_raw() == old(self).next_link_raw(),
            final(self).nodes@ == old(self).nodes@,
            final(self).links@ == old(self).links@,
    {
        let raw = self.ids.next_node;
        self.ids.next_node = raw + 1;
        match NodeId::from_raw(raw) {
            Some(id) => id,
            None => vstd::pervasive::unreached(),
        }
    }

    fn alloc_pin_id(&mut self) -> (id: PinId)
        requires
            1 <= old(self).next_pin_raw() < u32::MAX,
        ensures
            id.spec_get() == old(self).next_pin_raw(),
            final(self).next_pin_raw() == old(self).next_pin_raw() + 1,
            final(self).next_node_raw() == old(self).next_node_raw(),
            final(self).next_link_raw() == old(self).next_link_raw(),
            final(self).nodes@ == old(self).nodes@,
            final(self).links@ == old(self).links@,
    {
        let raw = self.ids.next_pin;
        self.ids.next_pin = raw + 1;
        match PinId::from_raw(raw) {
            Some(id) => id,
            None => vstd::pervasive::unreached(),
        }
    }

    fn alloc_link_id(&mut self) -> (id: LinkId)
        requires
            1 <= old(self).next_link_raw() < u32::MAX,
        ensures
            id.spec_get() == old(self).next_link_raw(),
            final(self).next_link_raw() == old(self).next_link_raw() + 1,
            final(self).next_node_raw() == old(self).next_node_raw(),
            final(self).next_pin_raw() == old(self).next_pin_raw(),
            final(self).nodes@ == old(self).nodes@,
            final(self).links@ == old(self).links@,
    {
        let raw = self.ids.next_link;
        self.ids.next_link = raw + 1;
        match LinkId::from_raw(raw) {
            Some(id) => id,
            None => vstd::pervasive::unreached(),
        }
    }

    /// Fresh pins, one per entry of `types`, numbered consecutively from the pin counter.
    fn make_pins(&mut self, types: &[PinType], kind: PinKind, prefix: &str) -> (pins: Vec<Pin>)
        requires
            1 <= old(self).next_pin_raw(),
            old(self).next_pin_raw() + types@.len() <= u32::MAX,
        ensures
            pins@.len() == types@.len(),
            forall|k: int|
                0 <= k < pins@.len() ==> {
                    &&& (#[trigger] pins@[k]).id.spec_get() == old(self).next_pin_raw() + k
                    &&& pins@[k].kind == kind
                    &&& pins@[k].ty == types@[k]
                    &&& pins@[k].label@ == prefix@ + decimal_digits(k as nat)
                },
            final(self).next_pin_raw() == old(self).next_pin_raw() + types@.len(),
            final(self).next_node_raw() == old(self).next_node_raw(),
            final(self).next_link_raw() == old(self).next_link_raw(),
            final(self).nodes@ == old(self).nodes@,
            final(self).links@ == old(self).links@,
    {
        let mut pins: Vec<Pin> = Vec::new();
        let mut i: usize = 0;
        while i < types.len()
            invariant
                i <= types@.len(),
                pins@.len() == i,
                self.next_pin_raw() == old(self).next_pin_raw() + i,
                old(self).next_pin_raw() + types@.len() <= u32::MAX,
                1 <= old(self).next_pin_raw(),
                self.next_node_raw() == old(self).next_node_raw(),
                self.next_link_raw() == old(self).next_link_raw(),
                self.nodes@ == old(self).nodes@,
                self.links@ == old(self).links@,
                forall|k: int|
                    0 <= k < pins@.len() ==> {
                        &&& (#[trigger] pins@[k]).id.spec_get() == old(self).next_pin_raw() + k
                        &&& pins@[k].kind == kind
                        &&& pins@[k].ty == types@[k]
                        &&& pins@[k].label@ == prefix@ + decimal_digits(k as nat)
                    },
            decreases types@.len() - i,
        {
            let pid = self.alloc_pin_id();
            let label = crate::text::numbered(prefix, i as u64);
            pins.push(Pin { id: pid, kind, label, ty: types[i] });
            i += 1;
        }
        pins
    }

    /// Add a node whose pins carry the given types; pin counts follow the slice lengths.
    /// The node is labelled `Node <id>`, its pins `in0…` and `out0…`; input pins get their ids
    /// first, then output pins, all consecutive.
    pub fn add_node_with_pin_types(
        &mut self,
        data: N,
        layout: Layout2d,
        input_types: &[PinType],
        output_types: &[PinType],
    ) -> (id: NodeId)
        requires
            old(self).wf(),
            old(self).can_add_node(input_types@.len() + output_types@.len()),
        ensures
            final(self).wf(),
            !old(self).has_node(id),
            id.spec_get() == old(self).next_node_raw(),
            final(self).nodes@ == old(self).nodes@.push(final(self).nodes@.last()),
            final(self).links@ == old(self).links@,
            Self::is_new_node(
                final(self).nodes@.last(),
                id,
                data,
                layout,
                input_types@,
                output_types@,
                old(self).next_pin_raw() as int,
            ),
            final(self).next_node_raw() == old(self).next_node_raw() + 1,
            final(self).next_pin_raw() == old(self).next_pin_raw() + input_types@.len()
                + output_types@.len(),
            final(self).next_link_raw() == old(self).next_link_raw(),
    {
        let ghost g0 = *self;
        let id = self.alloc_node_id();
        let label = crate::text::numbered("Node ", id.get() as u64);
        let in_pins = self.make_pins(input_types, PinKind::Input, "in");
        let out_pins = self.make_pins(output_types, PinKind::Output, "out");
        let node = Node {
            id,
            label,
            data,
            layout,
            collapsed: false,
            inputs: in_pins,
            outputs: out_pins,
        };
        self.nodes.push(node);
        proof {
            Self::lemma_push_new_node_wf(g0, *self, input_types@, output_types@);
        }
        id
    }

    /// `node` is what [`Self::add_node_with_pin_types`] builds for these arguments when the
    /// pin counter stands at `first_pin`.
    pub open spec fn is_new_node(
        node: Node<N>,
        id: NodeId,
        data: N,
        layout: Layout2d,
        input_types: Seq<PinType>,
        output_types: Seq<PinType>,
        first_pin: int,
    ) -> bool {
        &&& node.id == id
        &&& node.label@ == "Node "@ + decimal_digits(id.spec_get() as nat)
        &&& node.data == data
        &&& node.layout == layout
        &&& !node.collapsed
        &&& node.inputs@.len() == input_types.len()
        &&& node.outputs@.len() == output_types.len()
        &&& forall|k: int|
            0 <= k < input_types.len() ==> {
                &&& (#[trigger] node.inputs@[k]).id.spec_get() == first_pin + k
                &&& node.inputs@[k].kind == PinKind::Input
                &&& node.inputs@[k].ty == input_types[k]
                &&& node.inputs@[k].label@ == "in"@ + decimal_digits(k as nat)
            }
        &&& forall|k: int|
            0 <= k < output_types.len() ==> {
                &&& (#[trigger] node.outputs@[k]).id.spec_get() == first_pin + input_types.len()
                    + k
                &&& node.outputs@[k].kind == PinKind::Output
                &&& node.outputs@[k].ty == output_types[k]
                &&& node.outputs@[k].label@ == "out"@ + decimal_digits(k as nat)
            }
    }

    proof fn lemma_push_new_node_wf(
        g0: Self,
        g1: Self,
        input_types: Seq<PinType>,
        output_types: Seq<PinType>,
    )
        requires
            g0.wf(),
            g1.nodes@.len() == g0.nodes@.len() + 1,
            forall|i: int| 0 <= i < g0.nodes@.len() ==> g1.nodes@[i] == g0.nodes@[i],
            g1.links@ == g0.links@,
            g1.nodes@.last().id.spec_get() == g0.next_node_raw(),
            g1.nodes@.last().inputs@.len() == input_types.len(),
            g1.nodes@.last().outputs@.len() == output_types.len(),
            forall|k: int|
                0 <= k < input_types.len() ==> (#[trigger] g1.nodes@.last().inputs@[k]).id.spec_get()
                    == g0.next_pin_raw() + k,
            forall|k: int|
                0 <= k < output_types.len() ==> (#[trigger] g1.nodes@.last().outputs@[k]).id.spec_get()
                    == g0.next_pin_raw() + input_types.len() + k,
            g1.next_node_raw() == g0.next_node_raw() + 1,
            g1.next_pin_raw() == g0.next_pin_raw() + input_types.len() + output_types.len(),
            g1.next_link_raw() == g0.next_link_raw(),
        ensures
            g1.wf(),
    {
        broadcast use NodeId::lemma_id, PinId::lemma_id;
        let last = g0.nodes@.len() as int;
        assert forall|a: int, b: int|
            #![trigger g1.nodes@[a], g1.nodes@[b]]
            0 <= a < g1.nodes@.len() && 0 <= b < g1.nodes@.len() && g1.nodes@[a].id
                == g1.nodes@[b].id implies a == b by {
            if a < last && b < last {
                assert(g0.nodes@[a] == g1.nodes@[a]);
                assert(g0.nodes@[b] == g1.nodes@[b]);
            } else if a < last {
                assert(g0.nodes@[a].id.spec_get() < g0.next_node_raw());
            } else if b < last {
                assert(g0.nodes@[b].id.spec_get() < g0.next_node_raw());
            }
        }
        assert forall|i: int, o: bool, k: int|
            g1.valid_loc(i, o, k) implies (#[trigger] g1.pin_at(i, o, k)).id.spec_get()
            < g1.next_pin_raw() && (i < last ==> g1.pin_at(i, o, k) == g0.pin_at(i, o, k)
            && g0.valid_loc(i, o, k)) && (i == last ==> g1.pin_at(i, o, k).id.spec_get()
            >= g0.next_pin_raw() && (o ==> g1.pin_at(i, o, k).id.spec_get() == g0.next_pin_raw()
            + input_types.len() + k) && (!o ==> g1.pin_at(i, o, k).id.spec_get() == g0.next_pin_raw()
            + k)) by {
            if i < last {
                assert(g1.nodes@[i] == g0.nodes@[i]);
                assert(g0.valid_loc(i, o, k));
                assert(g0.pin_at(i, o, k).id.spec_get() < g0.next_pin_raw());
            } else if o {
                assert(g1.nodes@.last().outputs@[k].id.spec_get() == g0.next_pin_raw()
                    + input_types.len() + k);
            } else {
                assert(g1.nodes@.last().inputs@[k].id.spec_get() == g0.next_pin_raw() + k);
            }
        }
        assert forall|i1: int, o1: bool, k1: int, i2: int, o2: bool, k2: int|
            #![trigger g1.pin_at(i1, o1, k1), g1.pin_at(i2, o2, k2)]
            g1.valid_loc(i1, o1, k1) && g1.valid_loc(i2, o2, k2) && g1.pin_at(i1, o1, k1).id
                == g1.pin_at(i2, o2, k2).id implies i1 == i2 && o1 == o2 && k1 == k2 by {
            assert(g1.pin_at(i1, o1, k1).id.spec_get() == g1.pin_at(i2, o2, k2).id.spec_get());
            if i1 < last && i2 < last {
                assert(g0.pin_at(i1, o1, k1) == g1.pin_at(i1, o1, k1));
                assert(g0.pin_at(i2, o2, k2) == g1.pin_at(i2, o2, k2));
            }
        }
        assert forall|i: int|
            0 <= i < g1.nodes@.len() implies (#[trigger] g1.nodes@[i]).id.spec_get()
            < g1.next_node_raw() by {
            if i < last {
                assert(g1.nodes@[i] == g0.nodes@[i]);
            }
        }
        assert(g1.ids_below_counters()) by {
            reveal(Graph::ids_below_counters);
        }
    }

    /// Add a node with `inputs` / `outputs` pins of type [`PinType::Any`]; labels default to
    /// `in0…` / `out0…`.
    pub fn add_node(&mut self, data: N, layout: Layout2d, inputs: usize, outputs: usize) -> (id:
        NodeId)
        requires
            old(self).wf(),
            old(self).can_add_node((inputs + outputs) as nat),
        ensures
            final(self).wf(),
            !old(self).has_node(id),
            id.spec_get() == old(self).next_node_raw(),
            final(self).nodes@ == old(self).nodes@.push(final(self).nodes@.last()),
            final(self).links@ == old(self).links@,
            Self::is_new_node(
                final(self).nodes@.last(),
                id,
                data,
                layout,
                Seq::new(inputs as nat, |k: int| PinType::Any),
                Seq::new(outputs as nat, |k: int| PinType::Any),
                old(self).next_pin_raw() as int,
            ),
            final(self).next_node_raw() == old(self).next_node_raw() + 1,
            final(self).next_pin_raw() == old(self).next_pin_raw() + inputs + outputs,
            final(self).next_link_raw() == old(self).next_link_raw(),
    {
        let in_t = any_types(inputs);
        let out_t = any_types(outputs);
        let id = self.add_node_with_pin_types(data, layout, in_t.as_slice(), out_t.as_slice());
        assert(in_t@ == Seq::new(inputs as nat, |k: int| PinType::Any));
        assert(out_t@ == Seq::new(outputs as nat, |k: int| PinType::Any));
        id
    }

    /// Why [`Self::connect`] refuses `from → to`, checked in this order; `Ok` when it links them.
    pub open spec fn connect_check(self, from: PinId, to: PinId) -> Result<(), GraphError> {
        if from == to {
            Err(GraphError::SelfLoop)
        } else if !self.has_pin(from) {
            Err(GraphError::UnknownPin(from))
        } else if !self.pin_loc(from).1 {
            Err(GraphError::NotOutputPin(from))
        } else if !self.has_pin(to) {
            Err(GraphError::UnknownPin(to))
        } else if self.pin_loc(to).1 {
            Err(GraphError::NotInputPin(to))
        } else if !PinType::spec_compatible_link(self.pin_type_of(from), self.pin_type_of(to)) {
            Err(GraphError::PinTypeMismatch { from, to })
        } else if self.has_link_between(from, to) {
            Err(GraphError::DuplicateLink { from, to })
        } else {
            Ok(())
        }
    }

    /// Link output pin `from` to input pin `to`. On success the link gets the next link id and
    /// goes last in [`Graph::links`]; on error nothing changes.
    pub fn connect(&mut self, from: PinId, to: PinId, data: E) -> (r: Result<LinkId, GraphError>)
        requires
            old(self).wf(),
            old(self).can_add_link(),
        ensures
            final(self).wf(),
            final(self).nodes@ == old(self).nodes@,
            final(self).next_node_raw() == old(self).next_node_raw(),
            final(self).next_pin_raw() == old(self).next_pin_raw(),
            match old(self).connect_check(from, to) {
                Err(e) => r == Err::<LinkId, GraphError>(e) && final(self).links@
                    == old(self).links@ && final(self).next_link_raw()
                    == old(self).next_link_raw(),
                Ok(_) => r is Ok && r->Ok_0.spec_get() == old(self).next_link_raw()
                    && final(self).links@ == old(self).links@.push(
                    Link { id: r->Ok_0, from, to, data },
                ) && final(self).next_link_raw() == old(self).next_link_raw() + 1,
            },
            ({
                let (ft, tt) = (old(self).pin_type_of(from), old(self).pin_type_of(to));
                ft != tt && ft != PinType::Any && tt != PinType::Any ==> r is Err && final(self).links@
                    == old(self).links@ && (from != to && old(self).has_pin(from) && old(self).pin_loc(from).1
                    && old(self).has_pin(to) && !old(self).pin_loc(to).1 ==> r == Err::<LinkId, GraphError>(
                    GraphError::PinTypeMismatch { from, to },
                ))
            }),
    {
        proof {
            PinType::lemma_compatible_exactly(self.pin_type_of(from), self.pin_type_of(to));
        }
        if from == to {
            return Err(GraphError::SelfLoop);
        }
        let (fi, fo, fk) = match self.find_pin(from) {
            Some(loc) => loc,
            None => {
                return Err(GraphError::UnknownPin(from));
            },
        };
        if !fo {
            return Err(GraphError::NotOutputPin(from));
        }
        let (ti, to_out, tk) = match self.find_pin(to) {
            Some(loc) => loc,
            None => {
                return Err(GraphError::UnknownPin(to));
            },
        };
        if to_out {
            return Err(GraphError::NotInputPin(to));
        }
        let from_ty = self.nodes[fi].outputs[fk].ty;
        let to_ty = self.nodes[ti].inputs[tk].ty;
        assert(self.pin_loc(from) == (fi as int, true, fk as int));
        assert(self.pin_loc(to) == (ti as int, false, tk as int));
        assert(self.pin_type_of(from) == from_ty);
        assert(self.pin_type_of(to) == to_ty);
        if !PinType::compatible_link(from_ty, to_ty) {
            return Err(GraphError::PinTypeMismatch { from, to });
        }
        let mut a: usize = 0;
        while a < self.links.len()
            invariant
                *self == *old(self),
                self.wf(),
                from != to,
                self.has_pin(from),
                self.pin_loc(from).1,
                self.has_pin(to),
                !self.pin_loc(to).1,
                PinType::spec_compatible_link(self.pin_type_of(from), self.pin_type_of(to)),
                a <= self.links@.len(),
                forall|b: int|
                    0 <= b < a ==> !((#[trigger] self.links@[b]).from == from && self.links@[b].to
                        == to),
            decreases self.links@.len() - a,
        {
            if self.links[a].from == from && self.links[a].to == to {
                assert(self.has_link_between(from, to)) by {
                    assert(self.links@[a as int].from == from);
                }
                return Err(GraphError::DuplicateLink { from, to });
            }
            a += 1;
        }
        let ghost g0 = *self;
        let lid = self.alloc_link_id();
        self.links.push(Link { id: lid, from, to, data });
        proof {
            broadcast use LinkId::lemma_id;
            reveal(Graph::ids_below_counters);
            assert forall|x: int, y: int|
                #![trigger self.links@[x], self.links@[y]]
                0 <= x < self.links@.len() && 0 <= y < self.links@.len() && self.links@[x].id
                    == self.links@[y].id implies x == y by {
                if x < g0.links@.len() {
                    assert(self.links@[x] == g0.links@[x]);
                }
                if y < g0.links@.len() {
                    assert(self.links@[y] == g0.links@[y]);
                }
            }
            assert forall|x: int|
                0 <= x < self.links@.len() implies (#[trigger] self.links@[x]).id.spec_get()
                < self.next_link_raw() by {
                if x < g0.links@.len() {
                    assert(self.links@[x] == g0.links@[x]);
                }
            }
            assert forall|i: int, o: bool, k: int|
                self.valid_loc(i, o, k) implies (#[trigger] self.pin_at(i, o, k)).id.spec_get()
                < self.next_pin_raw() by {
                assert(g0.valid_loc(i, o, k));
                assert(g0.pin_at(i, o, k) == self.pin_at(i, o, k));
            }
            assert(self.pin_ids_unique()) by {
                assert forall|i1: int, o1: bool, k1: int, i2: int, o2: bool, k2: int|
                    #![trigger self.pin_at(i1, o1, k1), self.pin_at(i2, o2, k2)]
                    self.valid_loc(i1, o1, k1) && self.valid_loc(i2, o2, k2) && self.pin_at(i1, o1, k1).id
                        == self.pin_at(i2, o2, k2).id implies i1 == i2 && o1 == o2 && k1 == k2 by {
                    assert(g0.pin_at(i1, o1, k1) == self.pin_at(i1, o1, k1));
                    assert(g0.pin_at(i2, o2, k2) == self.pin_at(i2, o2, k2));
                }
            }
            assert(self.node_ids_unique()) by {
                assert forall|x: int, y: int|
                    #![trigger self.nodes@[x], self.nodes@[y]]
                    0 <= x < self.nodes@.len() && 0 <= y < self.nodes@.len() && self.nodes@[x].id
                        == self.nodes@[y].id implies x == y by {
                    assert(g0.nodes@[x] == self.nodes@[x]);
                    assert(g0.nodes@[y] == self.nodes@[y]);
                }
            }
            assert forall|i: int|
                0 <= i < self.nodes@.len() implies (#[trigger] self.nodes@[i]).id.spec_get()
                < self.next_node_raw() by {
                assert(g0.nodes@[i] == self.nodes@[i]);
            }
        }
        Ok(lid)
    }

    /// Remove the link with id `id` and hand it back.
    pub fn disconnect_link(&mut self, id: LinkId) -> (r: Option<Link<E>>)
        requires
            old(self).wf(),
        ensures
            final(self).wf(),
            final(self).nodes@ == old(self).nodes@,
            final(self).next_node_raw() == old(self).next_node_raw(),
            final(self).next_pin_raw() == old(self).next_pin_raw(),
            final(self).next_link_raw() == old(self).next_link_raw(),
            r is None <==> !old(self).has_link(id),
            r is None ==> final(self).links@ == old(self).links@,
            r matches Some(l) ==> exists|a: int|
                0 <= a < old(self).links@.len() && old(self).links@[a] == l && l.id == id
                    && final(self).links@ == old(self).links@.remove(a),
    {
        let mut a: usize = 0;
        while a < self.links.len()
            invariant
                *self == *old(self),
                self.wf(),
                a <= self.links@.len(),
                forall|b: int| 0 <= b < a ==> (#[trigger] self.links@[b]).id != id,
            decreases self.links@.len() - a,
        {
            if self.links[a].id == id {
                let ghost g0 = *self;
                let l = self.links.remove(a);
                proof {
                    Self::lemma_sublist_links_wf(g0, *self);
                }
                return Some(l);
            }
            a += 1;
        }
        None
    }

    /// Replacing the links of a well-formed graph by links taken from it keeps it well-formed.
    proof fn lemma_sublist_links_wf(g0: Self, g1: Self)
        requires
            g0.wf(),
            g1.nodes@ == g0.nodes@,
            g1.ids == g0.ids,
            link_ids_distinct(g1.links@),
            forall|x: int|
                0 <= x < g1.links@.len() ==> g0.links@.contains(#[trigger] g1.links@[x]),
        ensures
            g1.wf(),
    {
        reveal(Graph::ids_below_counters);
        assert forall|x: int|
            0 <= x < g1.links@.len() implies (#[trigger] g1.links@[x]).id.spec_get()
            < g1.next_link_raw() by {
            assert(g0.links@.contains(g1.links@[x]));
        }
        assert forall|i: int, o: bool, k: int|
            g1.valid_loc(i, o, k) implies (#[trigger] g1.pin_at(i, o, k)).id.spec_get()
            < g1.next_pin_raw() by {
            assert(g0.valid_loc(i, o, k));
            assert(g1.pin_at(i, o, k) == g0.pin_at(i, o, k));
        }
        assert forall|i: int|
            0 <= i < g1.nodes@.len() implies (#[trigger] g1.nodes@[i]).id.spec_get()
            < g1.next_node_raw() by {
            assert(g0.nodes@[i] == g1.nodes@[i]);
        }
        assert(g1.pin_ids_unique()) by {
            assert forall|i1: int, o1: bool, k1: int, i2: int, o2: bool, k2: int|
                #![trigger g1.pin_at(i1, o1, k1), g1.pin_at(i2, o2, k2)]
                g1.valid_loc(i1, o1, k1) && g1.valid_loc(i2, o2, k2) && g1.pin_at(i1, o1, k1).id
                    == g1.pin_at(i2, o2, k2).id implies i1 == i2 && o1 == o2 && k1 == k2 by {
                assert(g0.pin_at(i1, o1, k1) == g1.pin_at(i1, o1, k1));
                assert(g0.pin_at(i2, o2, k2) == g1.pin_at(i2, o2, k2));
            }
        }
        assert(g1.node_ids_unique()) by {
            assert forall|a: int, b: int|
                #![trigger g1.nodes@[a], g1.nodes@[b]]
                0 <= a < g1.nodes@.len() && 0 <= b < g1.nodes@.len() && g1.nodes@[a].id
                    == g1.nodes@[b].id implies a == b by {
                assert(g0.nodes@[a] == g1.nodes@[a]);
                assert(g0.nodes@[b] == g1.nodes@[b]);
            }
        }
    }

    /// Remove a node and every link touching one of its pins; the other links keep their order.
    pub fn remove_node(&mut self, id: NodeId) -> (r: Option<Node<N>>)
        requires
            old(self).wf(),
        ensures
            final(self).wf(),
            final(self).next_node_raw() == old(self).next_node_raw(),
            final(self).next_pin_raw() == old(self).next_pin_raw(),
            final(self).next_link_raw() == old(self).next_link_raw(),
            r is None <==> !old(self).has_node(id),
            r is None ==> final(self).nodes@ == old(self).nodes@ && final(self).links@
                == old(self).links@,
            r matches Some(n) ==> exists|i: int|
                0 <= i < old(self).nodes@.len() && old(self).nodes@[i] == n && n.id == id
                    && final(self).nodes@ == old(self).nodes@.remove(i),
            r matches Some(n) ==> final(self).links@ == old(self).links@.filter(
                |l: Link<E>| link_avoids_node(n, l),
            ),
    {
        let mut i: usize = 0;
        while i < self.nodes.len()
            invariant
                *self == *old(self),
                self.wf(),
                i <= self.nodes@.len(),
                forall|j: int| 0 <= j < i ==> (#[trigger] self.nodes@[j]).id != id,
            decreases self.nodes@.len() - i,
        {
            if self.nodes[i].id == id {
                let ghost g0 = *self;
                let node = self.nodes.remove(i);
                let ghost pred = |l: Link<E>| link_avoids_node(node, l);
                let ghost old_links = self.links@;
                let mut kept: usize = 0;
                let ghost mut j: int = 0;
                while kept < self.links.len()
                    invariant
                        0 <= j <= old_links.len(),
                        g0.wf(),
                        old_links == g0.links@,
                        pred == (|l: Link<E>| link_avoids_node(node, l)),
                        self.links@ == old_links.take(j).filter(pred) + old_links.skip(j),
                        kept == old_links.take(j).filter(pred).len(),
                        self.nodes@ == g0.nodes@.remove(i as int),
                        self.ids == g0.ids,
                    decreases old_links.len() - j,
                {
                    proof {
                        lemma_filter_step(old_links, pred, j);
                        assert(self.links@[kept as int] == old_links[j]);
                    }
                    let l = &self.links[kept];
                    let keep = !node_carries_pin(&node, l.from) && !node_carries_pin(&node, l.to);
                    assert(keep == pred(old_links[j]));
                    if keep {
                        kept += 1;
                    } else {
                        self.links.remove(kept);
                    }
                    proof {
                        assert(self.links@ =~= old_links.take(j + 1).filter(pred) + old_links.skip(j + 1));
                        j = j + 1;
                    }
                }
                proof {
                    assert(old_links.take(j) =~= old_links);
                    assert(self.links@ =~= old_links.filter(pred));
                    lemma_filter_links(old_links, pred);
                    Self::lemma_remove_node_wf(g0, *self, i as int);
                }
                return Some(node);
            }
            i += 1;
        }
        None
    }

    /// Removing node `i` and keeping only links taken from the old graph keeps it well-formed.
    proof fn lemma_remove_node_wf(g0: Self, g1: Self, idx: int)
        requires
            g0.wf(),
            0 <= idx < g0.nodes@.len(),
            g1.nodes@ == g0.nodes@.remove(idx),
            g1.ids == g0.ids,
            link_ids_distinct(g1.links@),
            forall|x: int|
                0 <= x < g1.links@.len() ==> g0.links@.contains(#[trigger] g1.links@[x]),
        ensures
            g1.wf(),
    {
        reveal(Graph::ids_below_counters);
        assert forall|x: int|
            0 <= x < g1.links@.len() implies (#[trigger] g1.links@[x]).id.spec_get()
            < g1.next_link_raw() by {
            assert(g0.links@.contains(g1.links@[x]));
        }
        assert forall|i: int, o: bool, k: int|
            g1.valid_loc(i, o, k) implies (#[trigger] g1.pin_at(i, o, k)).id.spec_get()
            < g1.next_pin_raw() by {
            let i0 = if i < idx { i } else { i + 1 };
            assert(g1.nodes@[i] == g0.nodes@[i0]);
            assert(g0.valid_loc(i0, o, k));
            assert(g1.pin_at(i, o, k) == g0.pin_at(i0, o, k));
        }
        assert forall|i: int|
            0 <= i < g1.nodes@.len() implies (#[trigger] g1.nodes@[i]).id.spec_get()
            < g1.next_node_raw() by {
            let i0 = if i < idx { i } else { i + 1 };
            assert(g1.nodes@[i] == g0.nodes@[i0]);
        }
        assert(g1.pin_ids_unique()) by {
            assert forall|i1: int, o1: bool, k1: int, i2: int, o2: bool, k2: int|
                #![trigger g1.pin_at(i1, o1, k1), g1.pin_at(i2, o2, k2)]
                g1.valid_loc(i1, o1, k1) && g1.valid_loc(i2, o2, k2) && g1.pin_at(i1, o1, k1).id
                    == g1.pin_at(i2, o2, k2).id implies i1 == i2 && o1 == o2 && k1 == k2 by {
                let j1 = if i1 < idx { i1 } else { i1 + 1 };
                let j2 = if i2 < idx { i2 } else { i2 + 1 };
                assert(g1.nodes@[i1] == g0.nodes@[j1]);
                assert(g1.nodes@[i2] == g0.nodes@[j2]);
                assert(g0.pin_at(j1, o1, k1) == g1.pin_at(i1, o1, k1));
                assert(g0.pin_at(j2, o2, k2) == g1.pin_at(i2, o2, k2));
            }
        }
        assert(g1.node_ids_unique()) by {
            assert forall|a: int, b: int|
                #![trigger g1.nodes@[a], g1.nodes@[b]]
                0 <= a < g1.nodes@.len() && 0 <= b < g1.nodes@.len() && g1.nodes@[a].id
                    == g1.nodes@[b].id implies a == b by {
                let a0 = if a < idx { a } else { a + 1 };
                let b0 = if b < idx { b } else { b + 1 };
                assert(g1.nodes@[a] == g0.nodes@[a0]);
                assert(g1.nodes@[b] == g0.nodes@[b0]);
            }
        }
    }

    /// Remove links whose endpoint pins are missing; the other links keep their order.
    pub fn prune_stale_links(&mut self)
        ensures
            old(self).wf() ==> final(self).wf(),
            final(self).nodes@ == old(self).nodes@,
            final(self).next_node_raw() == old(self).next_node_raw(),
            final(self).next_pin_raw() == old(self).next_pin_raw(),
            final(self).next_link_raw() == old(self).next_link_raw(),
            final(self).links@ == old(self).links@.filter(
                |l: Link<E>| old(self).has_pin(l.from) && old(self).has_pin(l.to),
            ),
    {
        let ghost g0 = *self;
        let ghost pred = |l: Link<E>| g0.has_pin(l.from) && g0.has_pin(l.to);
        let mut links: Vec<Link<E>> = Vec::new();
        std::mem::swap(&mut links, &mut self.links);
        let ghost old_links = links@;
        let mut kept: usize = 0;
        let ghost mut j: int = 0;
        while kept < links.len()
            invariant
                0 <= j <= old_links.len(),
                old_links == g0.links@,
                pred == (|l: Link<E>| g0.has_pin(l.from) && g0.has_pin(l.to)),
                links@ == old_links.take(j).filter(pred) + old_links.skip(j),
                kept == old_links.take(j).filter(pred).len(),
                self.nodes@ == g0.nodes@,
                self.ids == g0.ids,
            decreases old_links.len() - j,
        {
            proof {
                lemma_filter_step(old_links, pred, j);
            }
            proof {
                assert(links@[kept as int] == old_links[j]);
                Self::lemma_same_nodes_same_pins(*self, g0, old_links[j].from);
                Self::lemma_same_nodes_same_pins(*self, g0, old_links[j].to);
            }
            let keep = self.find_pin(links[kept].from).is_some() && self.find_pin(
                links[kept].to,
            ).is_some();
            assert(keep == pred(old_links[j]));
            if keep {
                kept += 1;
            } else {
                links.remove(kept);
            }
            proof {
                assert(links@ =~= old_links.take(j + 1).filter(pred) + old_links.skip(j + 1));
                j = j + 1;
            }
        }
        std::mem::swap(&mut links, &mut self.links);
        proof {
            assert(old_links.take(j) =~= old_links);
            assert(self.links@ =~= old_links.filter(pred));
            if g0.wf() {
                lemma_filter_links(old_links, pred);
                Self::lemma_sublist_links_wf(g0, *self);
            }
        }
    }

    /// Keep only the links whose `(from, to)` `keys` lists; the kept links keep their order.
    pub(crate) fn retain_links_keyed(&mut self, keys: &Vec<(PinId, PinId)>)
        requires
            old(self).wf(),
        ensures
            final(self).wf(),
            final(self).nodes@ == old(self).nodes@,
            final(self).next_node_raw() == old(self).next_node_raw(),
            final(self).next_pin_raw() == old(self).next_pin_raw(),
            final(self).next_link_raw() == old(self).next_link_raw(),
            final(self).links@ == old(self).links@.filter(|l: Link<E>| keys@.contains((l.from, l.to))),
    {
        let ghost g0 = *self;
        let ghost pred = |l: Link<E>| keys@.contains((l.from, l.to));
        let mut links: Vec<Link<E>> = Vec::new();
        std::mem::swap(&mut links, &mut self.links);
        let ghost old_links = links@;
        let mut kept: usize = 0;
        let ghost mut j: int = 0;
        while kept < links.len()
            invariant
                0 <= j <= old_links.len(),
                old_links == g0.links@,
                g0.wf(),
                pred == (|l: Link<E>| keys@.contains((l.from, l.to))),
                links@ == old_links.take(j).filter(pred) + old_links.skip(j),
                kept == old_links.take(j).filter(pred).len(),
                self.nodes@ == g0.nodes@,
                self.ids == g0.ids,
            decreases old_links.len() - j,
        {
            proof {
                lemma_filter_step(old_links, pred, j);
                assert(links@[kept as int] == old_links[j]);
            }
            let keep = has_pin_pair(keys, (links[kept].from, links[kept].to));
            assert(keep == pred(old_links[j]));
            if keep {
                kept += 1;
            } else {
                links.remove(kept);
            }
            proof {
                assert(links@ =~= old_links.take(j + 1).filter(pred) + old_links.skip(j + 1));
                j = j + 1;
            }
        }
        std::mem::swap(&mut links, &mut self.links);
        proof {
            assert(old_links.take(j) =~= old_links);
            assert(self.links@ =~= old_links.filter(pred));
            lemma_filter_links(old_links, pred);
            Self::lemma_sublist_links_wf(g0, *self);
        }
    }

    /// `(from, to)` of every link, in link order.
    pub fn link_key_set(&self) -> (r: Vec<(PinId, PinId)>)
        ensures
            r@ == self.links@.map_values(|l: Link<E>| (l.from, l.to)),
    {
        let mut r: Vec<(PinId, PinId)> = Vec::new();
        let mut a: usize = 0;
        while a < self.links.len()
            invariant
                a <= self.links@.len(),
                r@ == self.links@.take(a as int).map_values(|l: Link<E>| (l.from, l.to)),
            decreases self.links@.len() - a,
        {
            r.push((self.links[a].from, self.links[a].to));
            a += 1;
            assert(self.links@.take(a as int).drop_last() =~= self.links@.take(a - 1));
        }
        assert(self.links@.take(a as int) =~= self.links@);
        r
    }

    /// Every link id in use is below the link counter.
    pub proof fn lemma_link_ids_below(self)
        requires
            self.wf(),
        ensures
            forall|a: int| 0 <= a < self.links@.len() ==> (#[trigger] self.links@[a]).id.spec_get() < self.next_link_raw(),
    {
        reveal(Graph::ids_below_counters);
    }

    /// Every node, pin and link id in use is below the counter that hands out the next one of
    /// its kind; each operation hands out the counter's value and none lowers a counter, so
    /// ids are never reused.
    pub proof fn lemma_ids_below_counters(self)
        requires
            self.wf(),
        ensures
            forall|i: int| 0 <= i < self.nodes@.len() ==> (#[trigger] self.nodes@[i]).id.spec_get() < self.next_node_raw(),
            forall|pin: PinId| #[trigger] self.has_pin(pin) ==> pin.spec_get() < self.next_pin_raw(),
            forall|a: int| 0 <= a < self.links@.len() ==> (#[trigger] self.links@[a]).id.spec_get() < self.next_link_raw(),
    {
        reveal(Graph::ids_below_counters);
        assert forall|pin: PinId| #[trigger] self.has_pin(pin) implies pin.spec_get() < self.next_pin_raw() by {
            let (i, o, k) = choose|i: int, o: bool, k: int| #[trigger] self.has_pin_at(pin, i, o, k);
            assert(self.pin_at(i, o, k).id == pin);
        }
    }

    /// Ids are never reused: every node id in use is below the node counter, so the id handed
    /// out by a later [`Graph::add_node`] (the counter's value then) differs from it, as long as
    /// the counter has not gone down in between (no operation lowers it).
    pub proof fn lemma_node_id_not_reused(g0: Self, g1: Self, id: NodeId, fresh: NodeId)
        requires
            g0.wf(),
            g0.has_node(id),
            g0.next_node_raw() <= g1.next_node_raw(),
            fresh.spec_get() == g1.next_node_raw(),
        ensures
            fresh != id,
    {
        reveal(Graph::ids_below_counters);
        let i = choose|i: int| 0 <= i < g0.nodes@.len() && #[trigger] g0.nodes@[i].id == id;
    }

    /// Changing node payloads, labels, layout or collapse state keeps a graph well-formed.
    pub proof fn lemma_wf_same_shape(g0: Self, g1: Self)
        requires
            g0.wf(),
            g1.links@ == g0.links@,
            g1.next_node_raw() == g0.next_node_raw(),
            g1.next_pin_raw() == g0.next_pin_raw(),
            g1.next_link_raw() == g0.next_link_raw(),
            g1.nodes@.len() == g0.nodes@.len(),
            forall|i: int|
                0 <= i < g0.nodes@.len() ==> (#[trigger] g1.nodes@[i]).id == g0.nodes@[i].id
                    && g1.nodes@[i].inputs@ == g0.nodes@[i].inputs@ && g1.nodes@[i].outputs@ == g0.nodes@[i].outputs@,
        ensures
            g1.wf(),
    {
        reveal(Graph::ids_below_counters);
        assert forall|i: int, o: bool, k: int| g1.valid_loc(i, o, k) implies #[trigger] g1.pin_at(i, o, k) == g0.pin_at(i, o, k) && g0.valid_loc(i, o, k) by {
            assert(g1.nodes@[i].id == g0.nodes@[i].id);
        }
        assert forall|i: int, o: bool, k: int| g0.valid_loc(i, o, k) implies g1.valid_loc(i, o, k) by {
            assert(g1.nodes@[i].id == g0.nodes@[i].id);
        }
        assert(g1.pin_ids_unique()) by {
            assert forall|i1: int, o1: bool, k1: int, i2: int, o2: bool, k2: int|
                #![trigger g1.pin_at(i1, o1, k1), g1.pin_at(i2, o2, k2)]
                g1.valid_loc(i1, o1, k1) && g1.valid_loc(i2, o2, k2) && g1.pin_at(i1, o1, k1).id
                    == g1.pin_at(i2, o2, k2).id implies i1 == i2 && o1 == o2 && k1 == k2 by {
                assert(g0.pin_at(i1, o1, k1) == g1.pin_at(i1, o1, k1));
                assert(g0.pin_at(i2, o2, k2) == g1.pin_at(i2, o2, k2));
            }
        }
        assert(g1.node_ids_unique()) by {
            assert forall|a: int, b: int|
                #![trigger g1.nodes@[a], g1.nodes@[b]]
                0 <= a < g1.nodes@.len() && 0 <= b < g1.nodes@.len() && g1.nodes@[a].id
                    == g1.nodes@[b].id implies a == b by {
                assert(g1.nodes@[a].id == g0.nodes@[a].id);
                assert(g1.nodes@[b].id == g0.nodes@[b].id);
                assert(g0.nodes@[a] == g0.nodes@[a] && g0.nodes@[b] == g0.nodes@[b]);
            }
        }
        assert forall|i: int| 0 <= i < g1.nodes@.len() implies (#[trigger] g1.nodes@[i]).id.spec_get() < g1.next_node_raw() by {
            assert(g0.nodes@[i] == g0.nodes@[i]);
        }
        assert forall|i: int, o: bool, k: int| g1.valid_loc(i, o, k) implies (#[trigger] g1.pin_at(i, o, k)).id.spec_get() < g1.next_pin_raw() by {
            assert(g0.valid_loc(i, o, k));
        }
    }

    /// Which pins exist depends on the nodes alone.
    pub proof fn lemma_same_nodes_same_pins(g1: Self, g2: Self, pin: PinId)
        requires
            g1.nodes@ == g2.nodes@,
        ensures
            g1.has_pin(pin) == g2.has_pin(pin),
            g1.wf() && g2.wf() ==> g1.spec_pin_port(pin) == g2.spec_pin_port(pin),
            g1.wf() && g2.wf() && g1.has_pin(pin) ==> g1.pin_loc(pin) == g2.pin_loc(pin)
                && g1.pin_type_of(pin) == g2.pin_type_of(pin),
    {
        if g1.has_pin(pin) {
            let (i, o, k) = g1.pin_loc(pin);
            assert(g2.has_pin_at(pin, i, o, k));
            g1.lemma_pin_loc_unique(pin, i, o, k);
            g2.lemma_pin_loc_unique(pin, i, o, k);
        }
        if g2.has_pin(pin) {
            let (i, o, k) = g2.pin_loc(pin);
            assert(g1.has_pin_at(pin, i, o, k));
        }
    }

    /// In a well-formed graph a pin sits at exactly one position.
    pub proof fn lemma_pin_loc_unique(self, pin: PinId, i: int, out: bool, k: int)
        requires
            self.has_pin_at(pin, i, out, k),
        ensures
            self.has_pin(pin),
            self.wf() ==> self.pin_loc(pin) == (i, out, k),
    {
        assert(self.has_pin_at(pin, i, out, k));
        if self.wf() {
            let (i2, o2, k2) = self.pin_loc(pin);
            assert(self.has_pin_at(pin, i2, o2, k2));
            assert(self.pin_at(i, out, k).id == self.pin_at(i2, o2, k2).id);
        }
    }
}

/// `n` copies of [`PinType::Any`].
pub(crate) fn any_types(n: usize) -> (r: Vec<PinType>)
    ensures
        r@ == Seq::new(n as nat, |k: int| PinType::Any),
{
    let mut r: Vec<PinType> = Vec::new();
    let mut i: usize = 0;
    while i < n
        invariant
            i <= n,
            r@ == Seq::new(i as nat, |k: int| PinType::Any),
        decreases n - i,
    {
        r.push(PinType::Any);
        i += 1;
    }
    r
}


impl<N, E> Default for Graph<N, E> {
    /// An empty graph; the first ids handed out are `1`.
    fn default() -> (g: Self)
        ensures
            g.wf(),
            g.nodes@.len() == 0,
            g.links@.len() == 0,
            g.next_node_raw() == 1,
            g.next_pin_raw() == 1,
            g.next_link_raw() == 1,
    {
        Self::new()
    }
}

impl<N, E> Graph<N, E> {
    /// Disconnecting the link that [`Graph::connect`] just added gives back the links from
    /// before the connection.
    pub proof fn lemma_disconnect_link_undoes_connect(g0: Self, g1: Self, g2: Self, l: Link<E>, a: int)
        requires
            g0.wf(),
            g1.links@ == g0.links@.push(l),
            l.id.spec_get() == g0.next_link_raw(),
            0 <= a < g1.links@.len(),
            g1.links@[a].id == l.id,
            g2.links@ == g1.links@.remove(a),
        ensures
            g2.links@ == g0.links@,
    {
        g0.lemma_link_ids_below();
        if a < g0.links@.len() {
            assert(g1.links@[a] == g0.links@[a]);
        }
        assert(g2.links@ =~= g0.links@);
    }
}

} // verus!
