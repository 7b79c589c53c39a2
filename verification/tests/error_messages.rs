use graph_lib::bridge::BridgeError;
use graph_lib::editor::NodesEditorError;
use graph_lib::error::GraphError;
use graph_lib::ids::{LinkId, NodeId, PinId, SemanticEdgeId, SemanticNodeId};
use graph_lib::semantic::GraphError as SemanticError;
use graph_lib::snarl::ViewNodeId;

fn node(n: u32) -> NodeId {
    NodeId::from_raw(n).unwrap()
}

fn pin(n: u32) -> PinId {
    PinId::from_raw(n).unwrap()
}

#[test]
fn graph_error_messages() {
    assert_eq!(GraphError::UnknownNode(node(7)).to_string(), "unknown node 7");
    assert_eq!(GraphError::UnknownPin(pin(12)).to_string(), "unknown pin 12");
    assert_eq!(GraphError::UnknownLink(LinkId::from_raw(4294967295).unwrap()).to_string(), "unknown link 4294967295");
    assert_eq!(GraphError::PinKindMismatch { pin: pin(1), expected_input: true }.to_string(), "pin kind mismatch");
    assert_eq!(GraphError::NotOutputPin(pin(3)).to_string(), "expected output pin, got 3");
    assert_eq!(GraphError::NotInputPin(pin(30)).to_string(), "expected input pin, got 30");
    assert_eq!(GraphError::PinTypeMismatch { from: pin(1), to: pin(2) }.to_string(), "pin type mismatch");
    assert_eq!(GraphError::DuplicateLink { from: pin(1), to: pin(2) }.to_string(), "duplicate link");
    assert_eq!(GraphError::SelfLoop.to_string(), "cannot link a pin to itself");
}

#[test]
fn semantic_error_messages() {
    assert_eq!(SemanticError::UnknownNode(SemanticNodeId(0)).to_string(), "unknown semantic node 0");
    assert_eq!(SemanticError::UnknownEdge(SemanticEdgeId(u64::MAX)).to_string(), "unknown semantic edge 18446744073709551615");
    let dup = SemanticError::DuplicateEdge { from: SemanticNodeId(1), out_port: 0, to: SemanticNodeId(20), in_port: 3 };
    assert_eq!(dup.to_string(), "duplicate edge 1:0 -> 20:3");
    assert_eq!(SemanticError::SelfConnection { node: SemanticNodeId(9) }.to_string(), "cannot connect node 9 to itself");
}

#[test]
fn bridge_and_editor_error_messages() {
    assert_eq!(BridgeError::Graph(SemanticError::UnknownNode(SemanticNodeId(5))).to_string(), "unknown semantic node 5");
    assert_eq!(BridgeError::UnmappedSemantic(SemanticNodeId(8)).to_string(), "no Snarl node for semantic id 8");
    assert_eq!(BridgeError::UnmappedSnarl(ViewNodeId(2)).to_string(), "no semantic id for Snarl node index 2");
    assert_eq!(BridgeError::SnarlRejectedWire.to_string(), "Snarl rejected wire (duplicate or invalid)");
    assert_eq!(NodesEditorError::Graph(GraphError::SelfLoop).to_string(), "cannot link a pin to itself");
    assert_eq!(NodesEditorError::UnmappedNode(node(41)).to_string(), "node 41 not mapped to NodeGraph");
    assert_eq!(NodesEditorError::UnmappedViewNode(ViewNodeId(0)).to_string(), "view node 0 not mapped");
    assert_eq!(NodesEditorError::ViewRejectedWire.to_string(), "node graph rejected wire");
    assert_eq!(NodesEditorError::from(GraphError::SelfLoop), NodesEditorError::Graph(GraphError::SelfLoop));
    assert_eq!(
        BridgeError::from(SemanticError::UnknownEdge(SemanticEdgeId(1))),
        BridgeError::Graph(SemanticError::UnknownEdge(SemanticEdgeId(1)))
    );
}
