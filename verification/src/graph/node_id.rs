use vstd::prelude::*;

verus! {

/// The identifier of a node inside a graph.
#[derive(Clone, Copy, Default, PartialEq, Eq, Structural, PartialOrd, Ord, Hash, Debug)]
pub struct NodeID(pub u64);

} // verus!
