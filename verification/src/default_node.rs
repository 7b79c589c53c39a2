//! The preset node kinds of the editor (button, integer, string, float, sink): their pins on
//! the headless graph and what the canvas shows for them.

use vstd::prelude::*;

use crate::pin_type::PinType;

verus! {

/// The preset node kinds, without their values.
#[derive(Clone, Copy, Debug, PartialEq, Eq, Structural)]
pub enum DefaultNodeKind {
    Button,
    Int,
    Str,
    Float,
    Sink,
}

/// The input and output pin types of a preset node kind.
pub open spec fn default_pin_types(kind: DefaultNodeKind) -> (Seq<PinType>, Seq<PinType>) {
    match kind {
        DefaultNodeKind::Button => (seq![], seq![PinType::Bang]),
        DefaultNodeKind::Int => (seq![], seq![PinType::Int]),
        DefaultNodeKind::Str => (seq![], seq![PinType::Symbol]),
        DefaultNodeKind::Float => (seq![], seq![PinType::Float]),
        DefaultNodeKind::Sink => (seq![PinType::Any], seq![]),
    }
}

/// Pin types on the headless graph for each preset node kind: sources have one typed output,
/// the sink one input of any type.
pub fn pin_types_for_default_node(kind: DefaultNodeKind) -> (r: (Vec<PinType>, Vec<PinType>))
    ensures
        (r.0@, r.1@) == default_pin_types(kind),
        kind == DefaultNodeKind::Button ==> r.0@.len() == 0 && r.1@ == seq![PinType::Bang],
        kind == DefaultNodeKind::Int ==> r.0@.len() == 0 && r.1@ == seq![PinType::Int],
        kind == DefaultNodeKind::Str ==> r.0@.len() == 0 && r.1@ == seq![PinType::Symbol],
        kind == DefaultNodeKind::Float ==> r.0@.len() == 0 && r.1@ == seq![PinType::Float],
        kind == DefaultNodeKind::Sink ==> r.0@ == seq![PinType::Any] && r.1@.len() == 0,
{
    match kind {
        DefaultNodeKind::Button => (Vec::new(), vec![PinType::Bang]),
        DefaultNodeKind::Int => (Vec::new(), vec![PinType::Int]),
        DefaultNodeKind::Str => (Vec::new(), vec![PinType::Symbol]),
        DefaultNodeKind::Float => (Vec::new(), vec![PinType::Float]),
        DefaultNodeKind::Sink => (vec![PinType::Any], Vec::new()),
    }
}

/// The title the canvas shows for a preset node kind.
pub open spec fn default_title(kind: DefaultNodeKind) -> Seq<char> {
    match kind {
        DefaultNodeKind::Button => "Button"@,
        DefaultNodeKind::Int => "Int"@,
        DefaultNodeKind::Str => "String"@,
        DefaultNodeKind::Float => "Float"@,
        DefaultNodeKind::Sink => "Sink"@,
    }
}

impl DefaultNodeKind {
    /// The title the canvas shows.
    pub fn title(self) -> (r: String)
        ensures
            r@ == default_title(self),
            self == DefaultNodeKind::Button ==> r@ == "Button"@,
            self == DefaultNodeKind::Int ==> r@ == "Int"@,
            self == DefaultNodeKind::Str ==> r@ == "String"@,
            self == DefaultNodeKind::Float ==> r@ == "Float"@,
            self == DefaultNodeKind::Sink ==> r@ == "Sink"@,
    {
        match self {
            DefaultNodeKind::Button => "Button".to_owned(),
            DefaultNodeKind::Int => "Int".to_owned(),
            DefaultNodeKind::Str => "String".to_owned(),
            DefaultNodeKind::Float => "Float".to_owned(),
            DefaultNodeKind::Sink => "Sink".to_owned(),
        }
    }

    /// Number of input pins the canvas shows: one for the sink, none otherwise.
    pub fn inputs(self) -> (r: usize)
        ensures
            r == (if self == DefaultNodeKind::Sink { 1usize } else { 0usize }),
    {
        match self {
            DefaultNodeKind::Sink => 1,
            _ => 0,
        }
    }

    /// Number of output pins the canvas shows: none for the sink, one otherwise.
    pub fn outputs(self) -> (r: usize)
        ensures
            r == (if self == DefaultNodeKind::Sink { 0usize } else { 1usize }),
    {
        match self {
            DefaultNodeKind::Sink => 0,
            _ => 1,
        }
    }

    /// Each source kind has no input and one output typed after its value (a button sends a
    /// bang, an integer an `Int`, a string a `Symbol`, a float a `Float`); the sink has one
    /// input of any type and no output.
    pub proof fn lemma_pin_types_follow_values(kind: DefaultNodeKind)
        ensures
            kind == DefaultNodeKind::Button ==> default_pin_types(kind).0.len() == 0
                && default_pin_types(kind).1 == seq![PinType::Bang],
            kind == DefaultNodeKind::Int ==> default_pin_types(kind).0.len() == 0
                && default_pin_types(kind).1 == seq![PinType::Int],
            kind == DefaultNodeKind::Str ==> default_pin_types(kind).0.len() == 0
                && default_pin_types(kind).1 == seq![PinType::Symbol],
            kind == DefaultNodeKind::Float ==> default_pin_types(kind).0.len() == 0
                && default_pin_types(kind).1 == seq![PinType::Float],
            kind == DefaultNodeKind::Sink ==> default_pin_types(kind).0 == seq![PinType::Any]
                && default_pin_types(kind).1.len() == 0,
    {
    }

    /// The canvas shows as many pins as the headless graph gives the node.
    pub proof fn lemma_pin_counts_agree(kind: DefaultNodeKind)
        ensures
            default_pin_types(kind).0.len() == (if kind == DefaultNodeKind::Sink { 1nat } else { 0nat }),
            default_pin_types(kind).1.len() == (if kind == DefaultNodeKind::Sink { 0nat } else { 1nat }),
    {
    }
}

} // verus!
