//! The editor view: an `egui_snarl::Snarl` whose cells each show one node of a graph of this
//! crate. A cell holds the number of the node it shows; the node's data stays in the graph.
//!
//! The view's contents are described by two names: its cells (by slab index: the node number,
//! the bit patterns of the cell's position, and whether the cell is open) and its wires.

use vstd::prelude::*;

use egui_snarl::Snarl;

use crate::id_map::IdKey;
use crate::layout::Layout2d;

verus! {

#[verifier::external_type_specification]
#[verifier::external_body]
#[verifier::reject_recursive_types(T)]
pub struct ExSnarl<T>(Snarl<T>);

/// Index of a cell in the editor view (the view's slab index).
#[derive(Clone, Copy, Debug, PartialEq, Eq, Hash, PartialOrd, Ord, Structural)]
pub struct ViewNodeId(pub usize);

impl IdKey for ViewNodeId {
    open spec fn key(self) -> u64 {
        self.0 as u64
    }

    fn raw_key(&self) -> (r: u64) {
        self.0 as u64
    }

    proof fn lemma_key_injective(a: Self, b: Self) {
    }
}

/// The cells of a view by slab index: node number, position bits `(x, y)`, open flag.
pub uninterp spec fn snarl_cells(s: Snarl<u64>) -> Map<usize, (u64, u32, u32, bool)>;

/// The wires of a view: (output cell, output index, input cell, input index).
pub uninterp spec fn snarl_wires(s: Snarl<u64>) -> Set<(usize, usize, usize, usize)>;

/// Wires that leave `w` in place when cell `idx` is removed.
pub open spec fn wires_without_cell(ws: Set<(usize, usize, usize, usize)>, idx: usize) -> Set<(usize, usize, usize, usize)> {
    ws.filter(|w: (usize, usize, usize, usize)| w.0 != idx && w.2 != idx)
}

/// A view without cells.
pub open spec fn no_cells() -> Map<usize, (u64, u32, u32, bool)> {
    Map::empty()
}

/// A view without wires.
pub open spec fn no_wires() -> Set<(usize, usize, usize, usize)> {
    Set::empty()
}

/// `Snarl::new`: an empty view.
#[verifier::external_body]
pub(crate) fn snarl_new() -> (view: Snarl<u64>)
    ensures
        snarl_cells(view) == no_cells(),
        snarl_wires(view) == no_wires(),
{
    Snarl::new()
}

/// `Snarl::insert_node`: adds an open cell for `value` at a slab index no cell had, and
/// returns that index. The cell's position has the coordinates whose bit patterns `at` holds
/// (the bits are reinterpreted with `bytemuck::cast`, not rounded).
#[verifier::external_body]
pub(crate) fn snarl_insert_node(s: &mut Snarl<u64>, at: Layout2d, value: u64) -> (r: usize)
    ensures
        !snarl_cells(*old(s)).dom().contains(r),
        snarl_cells(*final(s)).dom() == snarl_cells(*old(s)).dom().insert(r),
        snarl_cells(*final(s))[r] == (value, at.x_bits, at.y_bits, true),
        forall|i: usize| #[trigger] snarl_cells(*old(s)).dom().contains(i) ==> snarl_cells(*final(s))[i] == snarl_cells(*old(s))[i],
        snarl_wires(*final(s)) == snarl_wires(*old(s)),
{
    s.insert_node(egui::pos2(bytemuck::cast(at.x_bits), bytemuck::cast(at.y_bits)), value).0
}

/// `Snarl::insert_node_collapsed`: as [`snarl_insert_node`], with the cell collapsed.
#[verifier::external_body]
pub(crate) fn snarl_insert_node_collapsed(s: &mut Snarl<u64>, at: Layout2d, value: u64) -> (r: usize)
    ensures
        !snarl_cells(*old(s)).dom().contains(r),
        snarl_cells(*final(s)).dom() == snarl_cells(*old(s)).dom().insert(r),
        snarl_cells(*final(s))[r] == (value, at.x_bits, at.y_bits, false),
        forall|i: usize| #[trigger] snarl_cells(*old(s)).dom().contains(i) ==> snarl_cells(*final(s))[i] == snarl_cells(*old(s))[i],
        snarl_wires(*final(s)) == snarl_wires(*old(s)),
{
    s.insert_node_collapsed(egui::pos2(bytemuck::cast(at.x_bits), bytemuck::cast(at.y_bits)), value).0
}

/// `Snarl::remove_node`: removes cell `idx` and every wire at it; returns the cell's value.
/// The outside function panics when there is no such cell.
#[verifier::external_body]
pub(crate) fn snarl_remove_node(s: &mut Snarl<u64>, idx: usize) -> (r: u64)
    requires
        snarl_cells(*old(s)).dom().contains(idx),
    ensures
        r == snarl_cells(*old(s))[idx].0,
        snarl_cells(*final(s)) == snarl_cells(*old(s)).remove(idx),
        snarl_wires(*final(s)) == wires_without_cell(snarl_wires(*old(s)), idx),
{
    s.remove_node(egui_snarl::NodeId(idx))
}

/// `Snarl::connect`: adds the wire; `false` when it was there already. The outside function
/// panics when either cell is missing.
#[verifier::external_body]
pub(crate) fn snarl_connect(s: &mut Snarl<u64>, out_node: usize, output: usize, in_node: usize, input: usize) -> (r: bool)
    requires
        snarl_cells(*old(s)).dom().contains(out_node),
        snarl_cells(*old(s)).dom().contains(in_node),
    ensures
        r == !snarl_wires(*old(s)).contains((out_node, output, in_node, input)),
        snarl_wires(*final(s)) == snarl_wires(*old(s)).insert((out_node, output, in_node, input)),
        snarl_cells(*final(s)) == snarl_cells(*old(s)),
{
    s.connect(
        egui_snarl::OutPinId { node: egui_snarl::NodeId(out_node), output },
        egui_snarl::InPinId { node: egui_snarl::NodeId(in_node), input },
    )
}

/// `Snarl::disconnect`: removes the wire; `false` when it was not there. The outside function
/// panics when either cell is missing.
#[verifier::external_body]
pub(crate) fn snarl_disconnect(s: &mut Snarl<u64>, out_node: usize, output: usize, in_node: usize, input: usize) -> (r: bool)
    requires
        snarl_cells(*old(s)).dom().contains(out_node),
        snarl_cells(*old(s)).dom().contains(in_node),
    ensures
        r == snarl_wires(*old(s)).contains((out_node, output, in_node, input)),
        snarl_wires(*final(s)) == snarl_wires(*old(s)).remove((out_node, output, in_node, input)),
        snarl_cells(*final(s)) == snarl_cells(*old(s)),
{
    s.disconnect(
        egui_snarl::OutPinId { node: egui_snarl::NodeId(out_node), output },
        egui_snarl::InPinId { node: egui_snarl::NodeId(in_node), input },
    )
}

/// `Snarl::get_node_info`: the value, position (as the bit patterns of its coordinates) and
/// open flag of cell `idx`, if there is one.
#[verifier::external_body]
pub(crate) fn snarl_node_info(s: &Snarl<u64>, idx: usize) -> (r: Option<(u64, Layout2d, bool)>)
    ensures
        r is Some <==> snarl_cells(*s).dom().contains(idx),
        r matches Some(c) ==> snarl_cells(*s)[idx] == (c.0, c.1.x_bits, c.1.y_bits, c.2),
{
    match s.get_node_info(egui_snarl::NodeId(idx)) {
        Some(n) => Some((n.value, Layout2d { x_bits: n.pos.x.to_bits(), y_bits: n.pos.y.to_bits() }, n.open)),
        None => None,
    }
}

/// `Snarl::get_node_info_mut`, used to set the open flag of cell `idx`; `false` when there
/// is no such cell.
#[verifier::external_body]
pub(crate) fn snarl_set_open(s: &mut Snarl<u64>, idx: usize, open: bool) -> (r: bool)
    ensures
        r == snarl_cells(*old(s)).dom().contains(idx),
        r ==> snarl_cells(*final(s)) == snarl_cells(*old(s)).insert(
            idx,
            (snarl_cells(*old(s))[idx].0, snarl_cells(*old(s))[idx].1, snarl_cells(*old(s))[idx].2, open),
        ),
        !r ==> snarl_cells(*final(s)) == snarl_cells(*old(s)),
        snarl_wires(*final(s)) == snarl_wires(*old(s)),
{
    match s.get_node_info_mut(egui_snarl::NodeId(idx)) {
        Some(n) => {
            n.open = open;
            true
        },
        None => false,
    }
}

/// `Snarl::wires`: every wire once, in the view's (unspecified) iteration order.
#[verifier::external_body]
pub(crate) fn snarl_wire_list(s: &Snarl<u64>) -> (r: Vec<(usize, usize, usize, usize)>)
    ensures
        r@.no_duplicates(),
        r@.to_set() == snarl_wires(*s),
{
    s.wires().map(|(o, i)| (o.node.0, o.output, i.node.0, i.input)).collect()
}

/// Number of wires of the view (what the sync functions' bounds on the link and edge id
/// spaces count).
pub fn wire_count(s: &Snarl<u64>) -> (r: usize)
    ensures
        snarl_wires(*s).finite(),
        r == snarl_wires(*s).len(),
{
    let ws = snarl_wire_list(s);
    proof {
        ws@.unique_seq_to_set();
    }
    ws.len()
}

} // verus!
