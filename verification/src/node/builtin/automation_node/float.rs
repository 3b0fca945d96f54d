use crate::graph::automation::samples_sorted;
use vstd::prelude::*;

verus! {

/// Where a sample falls among the keyframes of a track.
#[derive(Debug, Clone, Copy, PartialEq, Eq, Structural)]
pub enum KeyframeSegment {
    /// The track has no keyframes.
    Empty,
    /// The sample takes the value of this keyframe as it is.
    Hold(usize),
    /// The sample lies between this keyframe and the next one.
    Interpolate(usize),
}

/// The segment that the remembered index `current` still gives at `target`:
/// the segment from it to the next keyframe while `target` lies inside it, or
/// the remembered last keyframe from its sample on; `None` when the segment is
/// to be found anew.
pub open spec fn remembered_segment(samples: Seq<usize>, current: Option<usize>, target: usize) -> Option<KeyframeSegment> {
    match current {
        Some(c) => if c + 1 < samples.len() {
            if samples[c as int] <= target < samples[c + 1] {
                Some(KeyframeSegment::Interpolate(c))
            } else {
                None
            }
        } else if target >= samples[c as int] {
            Some(KeyframeSegment::Hold(c))
        } else {
            None
        },
        None => None,
    }
}

/// An automation cursor that keeps track of the current segment between
/// keyframes. This is solely used to interpolate between **float** keyframes,
/// not integer or boolean keyframes.
#[derive(Debug, Clone, Copy, Default)]
pub struct FloatAutomationCursor {
    /// Currently processing index in the keyframes.
    pub current_index: Option<usize>,
}

impl FloatAutomationCursor {
    pub fn clear_cache(&mut self)
        ensures
            final(self).current_index is None,
    {
        self.current_index = None;
    }

    /// The segment in which `target_sample` falls, where `keyframe_samples`
    /// are the sorted samples at which the keyframes start. A sample up to the
    /// first keyframe holds the first value, one from the last keyframe on
    /// holds the last value, and one in between is interpolated between the
    /// keyframe at or before it and the next one. The remembered segment is
    /// used while it still contains the sample.
    pub fn locate(&mut self, keyframe_samples: &[usize], target_sample: usize) -> (segment: KeyframeSegment)
        requires
            samples_sorted(keyframe_samples@),
            old(self).current_index matches Some(i) ==> i < keyframe_samples.len(),
        ensures
            final(self).current_index matches Some(i) ==> i < keyframe_samples.len(),
            keyframe_samples.len() == 0 ==> segment == KeyframeSegment::Empty && *final(self) == *old(self),
            keyframe_samples.len() == 1 ==> segment == KeyframeSegment::Hold(0) && *final(self) == *old(self),
            keyframe_samples.len() >= 2 ==> match segment {
                KeyframeSegment::Empty => false,
                KeyframeSegment::Hold(i) => {
                    &&& final(self).current_index == Some(i)
                    &&& (i == 0 && target_sample <= keyframe_samples@[0]) || (i + 1 == keyframe_samples.len()
                        && target_sample >= keyframe_samples@[i as int])
                },
                KeyframeSegment::Interpolate(i) => {
                    &&& final(self).current_index == Some(i)
                    &&& i + 1 < keyframe_samples.len()
                    &&& keyframe_samples@[i as int] <= target_sample < keyframe_samples@[i + 1]
                },
            },
            keyframe_samples.len() >= 2 ==> match remembered_segment(keyframe_samples@, old(self).current_index, target_sample) {
                Some(remembered) => segment == remembered,
                None => {
                    &&& target_sample <= keyframe_samples@[0] ==> segment == KeyframeSegment::Hold(0)
                    &&& target_sample > keyframe_samples@[0] && target_sample >= keyframe_samples@.last()
                        ==> segment == KeyframeSegment::Hold((keyframe_samples.len() - 1) as usize)
                },
            },
    {
        let len = keyframe_samples.len();
        // If there are no keyframes, there is nothing to hold
        if len == 0 {
            return KeyframeSegment::Empty;
        }
        // If there's only one keyframe, its value holds everywhere
        if len == 1 {
            return KeyframeSegment::Hold(0);
        }
        // Check if the current index is valid and if the target sample falls within the range of the cached segment
        if let Some(idx) = self.current_index {
            let start_sample = keyframe_samples[idx];
            if idx + 1 < len {
                let end_sample = keyframe_samples[idx + 1];
                if target_sample >= start_sample && target_sample < end_sample {
                    return KeyframeSegment::Interpolate(idx);
                }
            } else if target_sample >= start_sample {
                return KeyframeSegment::Hold(idx);
            }
        }
        // If the target sample is before the first keyframe, hold the first keyframe's value
        if target_sample <= keyframe_samples[0] {
            self.current_index = Some(0);
            return KeyframeSegment::Hold(0);
        }
        // If the target sample is beyond the last keyframe, hold the last keyframe's value
        if target_sample >= keyframe_samples[len - 1] {
            self.current_index = Some(len - 1);
            return KeyframeSegment::Hold(len - 1);
        }
        // The cache is out of date, so we need to find the correct segment for interpolation
        let mut lo: usize = 0;
        let mut hi: usize = len;
        while lo < hi
            invariant
                lo <= hi <= len,
                len == keyframe_samples.len(),
                samples_sorted(keyframe_samples@),
                forall|j: int| 0 <= j < lo ==> #[trigger] keyframe_samples@[j] <= target_sample,
                forall|j: int| hi <= j < len ==> #[trigger] keyframe_samples@[j] > target_sample,
            decreases hi - lo,
        {
            let mid = lo + (hi - lo) / 2;
            if keyframe_samples[mid] <= target_sample {
                assert forall|j: int| 0 <= j < mid + 1 implies #[trigger] keyframe_samples@[j] <= target_sample by {
                    assert(keyframe_samples@[j] <= keyframe_samples@[mid as int]);
                }
                lo = mid + 1;
            } else {
                assert forall|j: int| mid <= j < len implies #[trigger] keyframe_samples@[j] > target_sample by {
                    assert(keyframe_samples@[mid as int] <= keyframe_samples@[j]);
                }
                hi = mid;
            }
        }
        let idx = if lo > 0 {
            lo - 1
        } else {
            0
        };
        self.current_index = Some(idx);
        KeyframeSegment::Interpolate(idx)
    }
}

} // verus!
