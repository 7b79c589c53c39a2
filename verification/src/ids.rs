//! Stable identifiers handed out by the graphs of this crate.

use vstd::prelude::*;

use crate::id_map::IdKey;

verus! {

/// Identifier of a node in a [`crate::model::Graph`]; never zero.
#[derive(Clone, Copy, Debug, PartialEq, Eq, Hash, PartialOrd, Ord, Structural)]
pub struct NodeId {
    raw: u32,
}

/// Identifier of a pin in a [`crate::model::Graph`]; never zero.
#[derive(Clone, Copy, Debug, PartialEq, Eq, Hash, PartialOrd, Ord, Structural)]
pub struct PinId {
    raw: u32,
}

/// Identifier of a link in a [`crate::model::Graph`]; never zero.
#[derive(Clone, Copy, Debug, PartialEq, Eq, Hash, PartialOrd, Ord, Structural)]
pub struct LinkId {
    raw: u32,
}

impl NodeId {
    #[verifier::type_invariant]
    spec fn nonzero(self) -> bool {
        self.raw != 0
    }

    /// The raw number behind this id.
    pub closed spec fn spec_get(self) -> u32 {
        self.raw
    }

    /// Every id is nonzero, and ids are equal exactly when their numbers are.
    pub broadcast proof fn lemma_id(a: NodeId, b: NodeId)
        ensures
            (#[trigger] a.spec_get() == #[trigger] b.spec_get()) <==> a == b,
    {
    }

    /// `Some` id for a nonzero number, `None` for zero.
    pub fn from_raw(raw: u32) -> (r: Option<NodeId>)
        ensures
            r is None <==> raw == 0,
            r matches Some(id) ==> id.spec_get() == raw,
    {
        if raw == 0 {
            None
        } else {
            Some(NodeId { raw })
        }
    }

    /// The raw number behind this id (never zero).
    #[verifier::when_used_as_spec(spec_get)]
    pub fn get(self) -> (r: u32)
        ensures
            r == self.spec_get(),
            r != 0,
    {
        proof {
            use_type_invariant(&self);
        }
        self.raw
    }
}

impl PinId {
    #[verifier::type_invariant]
    spec fn nonzero(self) -> bool {
        self.raw != 0
    }

    /// The raw number behind this id.
    pub closed spec fn spec_get(self) -> u32 {
        self.raw
    }

    /// Every id is nonzero, and ids are equal exactly when their numbers are.
    pub broadcast proof fn lemma_id(a: PinId, b: PinId)
        ensures
            (#[trigger] a.spec_get() == #[trigger] b.spec_get()) <==> a == b,
    {
    }

    /// `Some` id for a nonzero number, `None` for zero.
    pub fn from_raw(raw: u32) -> (r: Option<PinId>)
        ensures
            r is None <==> raw == 0,
            r matches Some(id) ==> id.spec_get() == raw,
    {
        if raw == 0 {
            None
        } else {
            Some(PinId { raw })
        }
    }

    /// The raw number behind this id (never zero).
    #[verifier::when_used_as_spec(spec_get)]
    pub fn get(self) -> (r: u32)
        ensures
            r == self.spec_get(),
            r != 0,
    {
        proof {
            use_type_invariant(&self);
        }
        self.raw
    }
}

impl LinkId {
    #[verifier::type_invariant]
    spec fn nonzero(self) -> bool {
        self.raw != 0
    }

    /// The raw number behind this id.
    pub closed spec fn spec_get(self) -> u32 {
        self.raw
    }

    /// Every id is nonzero, and ids are equal exactly when their numbers are.
    pub broadcast proof fn lemma_id(a: LinkId, b: LinkId)
        ensures
            (#[trigger] a.spec_get() == #[trigger] b.spec_get()) <==> a == b,
    {
    }

    /// `Some` id for a nonzero number, `None` for zero.
    pub fn from_raw(raw: u32) -> (r: Option<LinkId>)
        ensures
            r is None <==> raw == 0,
            r matches Some(id) ==> id.spec_get() == raw,
    {
        if raw == 0 {
            None
        } else {
            Some(LinkId { raw })
        }
    }

    /// The raw number behind this id (never zero).
    #[verifier::when_used_as_spec(spec_get)]
    pub fn get(self) -> (r: u32)
        ensures
            r == self.spec_get(),
            r != 0,
    {
        proof {
            use_type_invariant(&self);
        }
        self.raw
    }
}

/// Identifier of a node in a [`crate::semantic::SemanticGraph`].
#[derive(Clone, Copy, Debug, PartialEq, Eq, Hash, PartialOrd, Ord, Structural)]
pub struct SemanticNodeId(pub u64);

/// Identifier of an edge in a [`crate::semantic::SemanticGraph`].
#[derive(Clone, Copy, Debug, PartialEq, Eq, Hash, PartialOrd, Ord, Structural)]
pub struct SemanticEdgeId(pub u64);

impl IdKey for SemanticNodeId {
    open spec fn key(self) -> u64 {
        self.0
    }

    fn raw_key(&self) -> (r: u64) {
        self.0
    }

    proof fn lemma_key_injective(a: Self, b: Self) {
    }
}

impl IdKey for SemanticEdgeId {
    open spec fn key(self) -> u64 {
        self.0
    }

    fn raw_key(&self) -> (r: u64) {
        self.0
    }

    proof fn lemma_key_injective(a: Self, b: Self) {
    }
}

impl IdKey for NodeId {
    open spec fn key(self) -> u64 {
        self.spec_get() as u64
    }

    fn raw_key(&self) -> (r: u64) {
        self.get() as u64
    }

    proof fn lemma_key_injective(a: Self, b: Self) {
    }
}

} // verus!
