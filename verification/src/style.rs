//! Style choices of the canvas that are plain values: how the background grid is drawn, how a
//! node arranges its parts, and the default stroke hooks.

use vstd::prelude::*;

verus! {

/// How the background grid is drawn.
#[derive(Clone, Copy, Debug, PartialEq, Eq, Structural)]
pub enum GridRenderMode {
    /// Full vertical and horizontal line segments.
    Lines,
    /// Filled circles only at grid line intersections.
    Dots,
}

impl Default for GridRenderMode {
    /// [`GridRenderMode::Lines`].
    fn default() -> (r: Self)
        ensures
            r == GridRenderMode::Lines,
    {
        GridRenderMode::Lines
    }
}

/// How header, pins, body and footer are placed in a node.
#[derive(Clone, Copy, Debug, PartialEq, Eq, Structural)]
pub enum NodeLayoutKind {
    /// Input pins, body and output pins side by side, header on top and footer at the bottom.
    Coil,
    /// A vertical stack: header, input pins, body, output pins, footer.
    Sandwich,
    /// A vertical stack: header, output pins, body, input pins, footer.
    FlippedSandwich,
}

impl Default for NodeLayoutKind {
    /// [`NodeLayoutKind::Coil`].
    fn default() -> (r: Self)
        ensures
            r == NodeLayoutKind::Coil,
    {
        NodeLayoutKind::Coil
    }
}

/// How a node's elements are laid out.
#[derive(Clone, Copy, Debug, PartialEq, Eq, Structural)]
pub struct NodeLayout {
    /// How the elements are arranged.
    pub kind: NodeLayoutKind,
    /// Minimal height of a pin row: the IEEE-754 bit pattern of a single-precision number
    /// (all bits zero is `0.0`).
    pub min_pin_row_height_bits: u32,
    /// Whether all pin rows get the height of the tallest one (not by default).
    pub equal_pin_row_heights: bool,
}

impl NodeLayout {
    /// The layout of `kind` with flexible pin rows of no minimal height.
    pub open spec fn plain(kind: NodeLayoutKind) -> NodeLayout {
        NodeLayout { kind, min_pin_row_height_bits: 0, equal_pin_row_heights: false }
    }

    /// [`NodeLayoutKind::Coil`] with flexible pin heights.
    pub fn coil() -> (r: Self)
        ensures
            r == Self::plain(NodeLayoutKind::Coil),
    {
        NodeLayout { kind: NodeLayoutKind::Coil, min_pin_row_height_bits: 0, equal_pin_row_heights: false }
    }

    /// [`NodeLayoutKind::Sandwich`] with flexible pin heights.
    pub fn sandwich() -> (r: Self)
        ensures
            r == Self::plain(NodeLayoutKind::Sandwich),
    {
        NodeLayout { kind: NodeLayoutKind::Sandwich, min_pin_row_height_bits: 0, equal_pin_row_heights: false }
    }

    /// [`NodeLayoutKind::FlippedSandwich`] with flexible pin heights.
    pub fn flipped_sandwich() -> (r: Self)
        ensures
            r == Self::plain(NodeLayoutKind::FlippedSandwich),
    {
        NodeLayout {
            kind: NodeLayoutKind::FlippedSandwich,
            min_pin_row_height_bits: 0,
            equal_pin_row_heights: false,
        }
    }

    /// The same layout with all pin rows as tall as the tallest.
    pub fn with_equal_pin_rows(self) -> (r: Self)
        ensures
            r == (NodeLayout { equal_pin_row_heights: true, ..self }),
    {
        NodeLayout {
            kind: self.kind,
            min_pin_row_height_bits: self.min_pin_row_height_bits,
            equal_pin_row_heights: true,
        }
    }

    /// The same layout with the given minimal pin row height (its bit pattern).
    pub fn with_min_pin_row_height(self, min_pin_row_height_bits: u32) -> (r: Self)
        ensures
            r == (NodeLayout { min_pin_row_height_bits, ..self }),
    {
        NodeLayout {
            kind: self.kind,
            min_pin_row_height_bits,
            equal_pin_row_heights: self.equal_pin_row_heights,
        }
    }
}

impl From<NodeLayoutKind> for NodeLayout {
    /// The layout of `kind` with flexible pin rows of no minimal height.
    fn from(kind: NodeLayoutKind) -> (r: Self) {
        NodeLayout { kind, min_pin_row_height_bits: 0, equal_pin_row_heights: false }
    }
}

impl vstd::std_specs::convert::FromSpecImpl<NodeLayoutKind> for NodeLayout {
    open spec fn obeys_from_spec() -> bool {
        true
    }

    open spec fn from_spec(v: NodeLayoutKind) -> NodeLayout {
        NodeLayout::plain(v)
    }
}

impl Default for NodeLayout {
    /// [`NodeLayout::coil`].
    fn default() -> (r: Self)
        ensures
            r == NodeLayout::plain(NodeLayoutKind::Coil),
    {
        NodeLayout::coil()
    }
}

/// Default node stroke hook: emphasizes the stroke of a selected node.
#[derive(Clone, Copy, Debug, Default)]
pub struct DefaultNodeStyleHook;

/// Default edge stroke hook: recolors the stroke of a selected edge.
#[derive(Clone, Copy, Debug, Default)]
pub struct DefaultEdgeStyleHook;

/// Channel-wise midpoint of two premultiplied RGBA colors, rounding down: the color of a wire
/// drawn between pins of two colors.
pub fn mix_colors(a: [u8; 4], b: [u8; 4]) -> (r: [u8; 4])
    ensures
        forall|i: int| 0 <= i < 4 ==> #[trigger] r@[i] == (a@[i] + b@[i]) / 2,
{
    let r = [
        ((a[0] as u16 + b[0] as u16) / 2) as u8,
        ((a[1] as u16 + b[1] as u16) / 2) as u8,
        ((a[2] as u16 + b[2] as u16) / 2) as u8,
        ((a[3] as u16 + b[3] as u16) / 2) as u8,
    ];
    assert(forall|i: int| 0 <= i < 4 ==> #[trigger] r@[i] == (a@[i] + b@[i]) / 2) by {
        assert(r@[0] == (a@[0] + b@[0]) / 2);
        assert(r@[1] == (a@[1] + b@[1]) / 2);
        assert(r@[2] == (a@[2] + b@[2]) / 2);
        assert(r@[3] == (a@[3] + b@[3]) / 2);
    }
    r
}

} // verus!
