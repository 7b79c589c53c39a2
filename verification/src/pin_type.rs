//! Logical datatype of a pin, checked when two pins are linked.

use vstd::prelude::*;

verus! {

/// Data-type tag for a pin. [`PinType::Any`] is a wildcard on either end of a link.
#[derive(Clone, Copy, Debug, PartialEq, Eq, Hash, Structural)]
pub enum PinType {
    Any,
    Bool,
    Int,
    Float,
    Bang,
    Symbol,
    List,
}

impl PinType {
    /// An output of type `from_output` may feed an input of type `to_input` exactly when the
    /// types are equal or either side is [`PinType::Any`].
    pub open spec fn spec_compatible_link(from_output: PinType, to_input: PinType) -> bool {
        from_output == to_input || from_output == PinType::Any || to_input == PinType::Any
    }

    /// Whether an output of type `from_output` may connect to an input of type `to_input`.
    pub fn compatible_link(from_output: PinType, to_input: PinType) -> (r: bool)
        ensures
            r == Self::spec_compatible_link(from_output, to_input),
            from_output == to_input ==> r,
            from_output == PinType::Any || to_input == PinType::Any ==> r,
            from_output != to_input && from_output != PinType::Any && to_input != PinType::Any ==> !r,
    {
        from_output == to_input || from_output == PinType::Any || to_input == PinType::Any
    }

    /// Two pins of different types, neither of them [`PinType::Any`], can never be linked;
    /// equal types, or [`PinType::Any`] on either end, always can.
    pub proof fn lemma_compatible_exactly(from_output: PinType, to_input: PinType)
        ensures
            from_output != to_input && from_output != PinType::Any && to_input != PinType::Any
                ==> !Self::spec_compatible_link(from_output, to_input),
            from_output == to_input ==> Self::spec_compatible_link(from_output, to_input),
            from_output == PinType::Any ==> Self::spec_compatible_link(from_output, to_input),
            to_input == PinType::Any ==> Self::spec_compatible_link(from_output, to_input),
    {
    }
}

impl Default for PinType {
    fn default() -> (r: PinType)
        ensures
            r == PinType::Any,
    {
        PinType::Any
    }
}

} // verus!
