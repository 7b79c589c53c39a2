//! Errors of the pin-level [`crate::model::Graph`].

use vstd::prelude::*;

use crate::ids::{LinkId, NodeId, PinId};
use crate::model::decimal_digits;
use crate::text::numbered;

verus! {

/// Headless graph errors.
#[derive(Clone, Copy, Debug, PartialEq, Eq, Structural)]
pub enum GraphError {
    UnknownNode(NodeId),
    UnknownPin(PinId),
    UnknownLink(LinkId),
    PinKindMismatch { pin: PinId, expected_input: bool },
    NotOutputPin(PinId),
    NotInputPin(PinId),
    PinTypeMismatch { from: PinId, to: PinId },
    DuplicateLink { from: PinId, to: PinId },
    SelfLoop,
}

/// The message of a graph error.
pub open spec fn graph_error_text(e: GraphError) -> Seq<char> {
    match e {
        GraphError::UnknownNode(id) => "unknown node "@ + decimal_digits(id.spec_get() as nat),
        GraphError::UnknownPin(id) => "unknown pin "@ + decimal_digits(id.spec_get() as nat),
        GraphError::UnknownLink(id) => "unknown link "@ + decimal_digits(id.spec_get() as nat),
        GraphError::PinKindMismatch { .. } => "pin kind mismatch"@,
        GraphError::NotOutputPin(id) => "expected output pin, got "@ + decimal_digits(id.spec_get() as nat),
        GraphError::NotInputPin(id) => "expected input pin, got "@ + decimal_digits(id.spec_get() as nat),
        GraphError::PinTypeMismatch { .. } => "pin type mismatch"@,
        GraphError::DuplicateLink { .. } => "duplicate link"@,
        GraphError::SelfLoop => "cannot link a pin to itself"@,
    }
}

impl GraphError {
    /// The message shown for this error.
    pub fn to_string(&self) -> (r: String)
        ensures
            r@ == graph_error_text(*self),
    {
        match self {
            GraphError::UnknownNode(id) => numbered("unknown node ", id.get() as u64),
            GraphError::UnknownPin(id) => numbered("unknown pin ", id.get() as u64),
            GraphError::UnknownLink(id) => numbered("unknown link ", id.get() as u64),
            GraphError::PinKindMismatch { .. } => "pin kind mismatch".to_owned(),
            GraphError::NotOutputPin(id) => numbered("expected output pin, got ", id.get() as u64),
            GraphError::NotInputPin(id) => numbered("expected input pin, got ", id.get() as u64),
            GraphError::PinTypeMismatch { .. } => "pin type mismatch".to_owned(),
            GraphError::DuplicateLink { .. } => "duplicate link".to_owned(),
            GraphError::SelfLoop => "cannot link a pin to itself".to_owned(),
        }
    }
}

} // verus!
