//! Index arithmetic of automation tracks: which keyframes lie around a range
//! of ticks, and which segment between keyframes a sample falls in.

mod float;
mod track;

pub use float::{remembered_segment, FloatAutomationCursor, KeyframeSegment};
pub use track::{before_in_tick_order, keyframe_partition_point, keyframes_around_range, stable_tick_order, ticks_sorted};
