use crate::graph::node_id::NodeID;
use vstd::prelude::*;

verus! {

/// The ways in which an operation on the graph can fail.
#[derive(Clone, Copy, PartialEq, Eq, Debug)]
pub enum GraphError {
    /// The node has no output at this index, or the node does not exist.
    OutputTypeUnavailable(NodeID, usize),
    /// The node has no input at this index, or the node does not exist.
    InputTypeUnavailable(NodeID, usize),
    /// The output and the input that an edge would connect carry different types:
    /// `(from_node, from_output, to_node, to_input)`.
    NodeTypeMismatch((NodeID, usize, NodeID, usize)),
    /// No buffer was allocated for this output.
    OutputBufferNotFound(NodeID, usize),
    /// The graph holds a cycle through this node.
    NodeCycle(NodeID),
}

} // verus!
