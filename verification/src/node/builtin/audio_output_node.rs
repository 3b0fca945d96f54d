use crate::data_types::TypeInfo;
use crate::node::Node;
use crate::MAX_CHANNELS;
use vstd::prelude::*;

verus! {

/// The size in bytes of one multichannel sample: `MAX_CHANNELS` values of 4 bytes.
pub const SAMPLE_SIZE: usize = MAX_CHANNELS * 4;

/// The alignment in bytes of one multichannel sample.
pub const SAMPLE_ALIGN: usize = 4;

/// An empty node that just writes the `process` input to the node output.
#[derive(Default, Clone, Copy, Debug)]
pub struct AudioOutputNode {
    data_type: TypeInfo,
}

impl AudioOutputNode {
    /// The type of the single audio input.
    pub closed spec fn data_type(&self) -> TypeInfo {
        self.data_type
    }

    pub fn new() -> (node: Self)
        ensures
            node.data_type() == (TypeInfo { sample_size: 0, align: 0 }),
    {
        AudioOutputNode { data_type: TypeInfo { sample_size: 0, align: 0 } }
    }
}

impl Node for AudioOutputNode {
    open spec fn spec_input_len(&self) -> nat {
        1
    }

    open spec fn spec_output_len(&self) -> nat {
        0
    }

    open spec fn spec_input_type(&self, index: int) -> Option<TypeInfo> {
        if index == 0 {
            Some(self.data_type())
        } else {
            None
        }
    }

    open spec fn spec_output_type(&self, index: int) -> Option<TypeInfo> {
        None
    }

    open spec fn refreshes(&self, before: &Self) -> bool {
        self.data_type() == (TypeInfo { sample_size: SAMPLE_SIZE, align: SAMPLE_ALIGN })
    }

    fn get_input_len(&self) -> usize {
        1
    }

    fn get_output_len(&self) -> usize {
        0
    }

    fn get_input_type(&self, index: usize) -> Option<&TypeInfo> {
        if index == 0 {
            Some(&self.data_type)
        } else {
            None
        }
    }

    fn get_output_type(&self, _index: usize) -> Option<&TypeInfo> {
        None
    }

    fn update_type_info(&mut self)
        ensures
            final(self).data_type() == (TypeInfo { sample_size: SAMPLE_SIZE, align: SAMPLE_ALIGN }),
    {
        self.data_type = TypeInfo::new(SAMPLE_SIZE, SAMPLE_ALIGN);
    }
}

} // verus!
