//! Editor position of a node in graph space.

use vstd::prelude::*;

verus! {

/// 2D position in graph space. Each coordinate is the IEEE-754 bit pattern of an `f32`;
/// the library only stores and compares positions, it never computes with them. Two
/// positions are equal (`==`) when their coordinates are equal as numbers: a NaN coordinate
/// equals nothing, and `+0.0` equals `-0.0`.
#[derive(Clone, Copy, Debug)]
pub struct Layout2d {
    pub x_bits: u32,
    pub y_bits: u32,
}

impl Layout2d {
    /// Position from the bit patterns of its two `f32` coordinates.
    pub fn from_bits(x_bits: u32, y_bits: u32) -> (r: Layout2d)
        ensures
            r.x_bits == x_bits,
            r.y_bits == y_bits,
    {
        Layout2d { x_bits, y_bits }
    }
}

/// The single-precision number with bit pattern `b` is a NaN (all exponent bits set, and a
/// nonzero fraction).
pub open spec fn is_nan_bits(b: u32) -> bool {
    (b & 0x7f80_0000u32) == 0x7f80_0000u32 && (b & 0x007f_ffffu32) != 0
}

/// The single-precision numbers with bit patterns `a` and `b` are equal as numbers: neither is
/// a NaN, and the patterns are the same or both are zeros (of either sign).
pub open spec fn float_bits_eq(a: u32, b: u32) -> bool {
    !is_nan_bits(a) && !is_nan_bits(b) && (a == b || ((a & 0x7fff_ffffu32) == 0 && (b & 0x7fff_ffffu32) == 0))
}

/// Whether the numbers with bit patterns `a` and `b` are equal, as [`float_bits_eq`].
fn float_bits_equal(a: u32, b: u32) -> (r: bool)
    ensures
        r == float_bits_eq(a, b),
{
    let a_nan = (a & 0x7f80_0000u32) == 0x7f80_0000u32 && (a & 0x007f_ffffu32) != 0;
    let b_nan = (b & 0x7f80_0000u32) == 0x7f80_0000u32 && (b & 0x007f_ffffu32) != 0;
    !a_nan && !b_nan && (a == b || ((a & 0x7fff_ffffu32) == 0 && (b & 0x7fff_ffffu32) == 0))
}

impl Layout2d {
    /// The two positions are equal coordinate by coordinate, as numbers.
    pub open spec fn same_position(self, other: Layout2d) -> bool {
        float_bits_eq(self.x_bits, other.x_bits) && float_bits_eq(self.y_bits, other.y_bits)
    }
}

impl PartialEq for Layout2d {
    /// Equality as numbers of both coordinates ([`Layout2d::same_position`]).
    fn eq(&self, other: &Self) -> (r: bool) {
        float_bits_equal(self.x_bits, other.x_bits) && float_bits_equal(self.y_bits, other.y_bits)
    }
}

impl vstd::std_specs::cmp::PartialEqSpecImpl for Layout2d {
    open spec fn obeys_eq_spec() -> bool {
        true
    }

    open spec fn eq_spec(&self, other: &Self) -> bool {
        self.same_position(*other)
    }
}

impl Default for Layout2d {
    /// The origin (both coordinates `0.0`, whose bit pattern is zero).
    fn default() -> (r: Layout2d)
        ensures
            r.x_bits == 0,
            r.y_bits == 0,
    {
        Layout2d { x_bits: 0, y_bits: 0 }
    }
}

} // verus!
