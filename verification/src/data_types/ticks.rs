use vstd::prelude::*;

verus! {

/// A musical position or duration measured in ticks, the finest subdivision of a beat.
#[derive(Clone, Copy, Default, PartialEq, Eq, Structural, Hash, Debug)]
pub struct Ticks(pub i64);

} // verus!
