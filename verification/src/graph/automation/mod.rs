//! Cursors that find, for a sample, the keyframe or gradient that applies to it,
//! remembering where the last search ended.

mod constant;
mod float;

pub use constant::{
    cursor_after, holds_at, is_holding_value, keyframe_step, lemma_holding_keyframe_unique, lemma_remembered_keyframe_is_searched,
    remembered_keyframe,
    sample_split, samples_sorted, searched_keyframe, ConstantAutomationCursor,
};
pub use float::{
    covers, end_split, ends_of, ends_sorted, lemma_covering_range_unique, remembered_range, searched_range,
    FloatAutomationCursor,
};

use crate::data_types::Ticks;
use vstd::prelude::*;

verus! {

/// A value that an automated input takes from a tick on.
#[derive(Debug, Clone, Copy)]
pub struct Keyframe<T> {
    pub ticks: Ticks,
    pub value: T,
}

} // verus!
