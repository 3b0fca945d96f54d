//! The interface that every processing node of the graph offers to it.

pub mod builtin;
mod ports;

pub use ports::{port_type, NodePorts};

use crate::data_types::TypeInfo;
use vstd::prelude::*;

verus! {

/// A processing node of the graph, as far as the graph reads it: how many
/// inputs and outputs it has, and the type of the data on each of them.
///
/// The spec functions describe the node to the verifier; each node verified
/// against this trait gives them, and its methods meet them.
pub trait Node {
    /// The number of inputs of the node.
    spec fn spec_input_len(&self) -> nat;

    /// The number of outputs of the node.
    spec fn spec_output_len(&self) -> nat;

    /// The type of the input at `index`, if the node has one there.
    spec fn spec_input_type(&self, index: int) -> Option<TypeInfo>;

    /// The type of the output at `index`, if the node has one there.
    spec fn spec_output_type(&self, index: int) -> Option<TypeInfo>;

    /// The node `self` is what `before` may become when its types are refreshed.
    spec fn refreshes(&self, before: &Self) -> bool;

    fn get_input_len(&self) -> (len: usize)
        ensures
            len == self.spec_input_len(),
    ;

    fn get_output_len(&self) -> (len: usize)
        ensures
            len == self.spec_output_len(),
    ;

    fn get_input_type(&self, index: usize) -> (info: Option<&TypeInfo>)
        ensures
            match info {
                Some(t) => self.spec_input_type(index as int) == Some(*t),
                None => self.spec_input_type(index as int) is None,
            },
    ;

    fn get_output_type(&self, index: usize) -> (info: Option<&TypeInfo>)
        ensures
            match info {
                Some(t) => self.spec_output_type(index as int) == Some(*t),
                None => self.spec_output_type(index as int) is None,
            },
    ;

    /// Refreshes the types of the inputs and outputs.
    fn update_type_info(&mut self)
        ensures
            final(self).refreshes(old(self)),
    ;
}

} // verus!
