use vstd::prelude::*;

verus! {

/// Represents the size and alignment of a type in memory.
/// `sample_size` represents the size of the value for a single sample, so you need to multiply it by the buffer size
/// to get the actual size of the buffer.
#[derive(Default, Clone, Copy, PartialEq, Eq, Structural, Debug)]
pub struct TypeInfo {
    pub sample_size: usize,
    pub align: usize,
}

impl TypeInfo {
    pub fn new(sample_size: usize, align: usize) -> (info: Self)
        ensures
            info.sample_size == sample_size,
            info.align == align,
    {
        Self { sample_size, align }
    }

    /// Returns the actual size of the buffer, given the buffer size.
    pub fn actual_size(&self, buffer_size: usize) -> (size: usize)
        requires
            self.sample_size * buffer_size <= usize::MAX,
        ensures
            size == self.sample_size * buffer_size,
    {
        self.sample_size * buffer_size
    }
}

} // verus!
