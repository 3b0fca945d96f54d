use crate::data_types::TypeInfo;
use crate::node::Node;
use vstd::prelude::*;

verus! {

/// The ports of a node as plain values: the type of each of its inputs and
/// outputs, `None` where the node gives that port no type.
///
/// A graph over `NodePorts` describes nodes that live elsewhere: whoever owns
/// a node refreshes its types and writes them here again.
#[derive(Clone, Debug, PartialEq, Eq)]
pub struct NodePorts {
    pub inputs: Vec<Option<TypeInfo>>,
    pub outputs: Vec<Option<TypeInfo>>,
}

impl NodePorts {
    pub fn new(inputs: Vec<Option<TypeInfo>>, outputs: Vec<Option<TypeInfo>>) -> (ports: Self)
        ensures
            ports.inputs@ == inputs@,
            ports.outputs@ == outputs@,
    {
        NodePorts { inputs, outputs }
    }
}

/// The entry `index` of `types`, none past its ends.
pub open spec fn port_type(types: Seq<Option<TypeInfo>>, index: int) -> Option<TypeInfo> {
    if 0 <= index < types.len() {
        types[index]
    } else {
        None
    }
}

fn port_at(types: &Vec<Option<TypeInfo>>, index: usize) -> (info: Option<&TypeInfo>)
    ensures
        match info {
            Some(t) => port_type(types@, index as int) == Some(*t),
            None => port_type(types@, index as int) is None,
        },
{
    if index < types.len() {
        match &types[index] {
            Some(t) => Some(t),
            None => None,
        }
    } else {
        None
    }
}

impl Node for NodePorts {
    open spec fn spec_input_len(&self) -> nat {
        self.inputs@.len()
    }

    open spec fn spec_output_len(&self) -> nat {
        self.outputs@.len()
    }

    open spec fn spec_input_type(&self, index: int) -> Option<TypeInfo> {
        port_type(self.inputs@, index)
    }

    open spec fn spec_output_type(&self, index: int) -> Option<TypeInfo> {
        port_type(self.outputs@, index)
    }

    /// The ports are refreshed by whoever owns the node; here they stay as they are.
    open spec fn refreshes(&self, before: &Self) -> bool {
        &&& self.inputs@ == before.inputs@
        &&& self.outputs@ == before.outputs@
    }

    fn get_input_len(&self) -> usize {
        self.inputs.len()
    }

    fn get_output_len(&self) -> usize {
        self.outputs.len()
    }

    fn get_input_type(&self, index: usize) -> Option<&TypeInfo> {
        port_at(&self.inputs, index)
    }

    fn get_output_type(&self, index: usize) -> Option<&TypeInfo> {
        port_at(&self.outputs, index)
    }

    fn update_type_info(&mut self) {
    }
}

} // verus!
