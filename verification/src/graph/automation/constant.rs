use crate::graph::automation::Keyframe;
use vstd::prelude::*;

verus! {

/// The samples never decrease.
pub open spec fn samples_sorted(samples: Seq<usize>) -> bool {
    forall|i: int, j: int| 0 <= i <= j < samples.len() ==> #[trigger] samples[i] <= #[trigger] samples[j]
}

/// Keyframe `k` holds at `target`: it has started there, unless it is the
/// first one, and the next keyframe does not start before `target`.
pub open spec fn holds_at(samples: Seq<usize>, target: usize, k: int) -> bool {
    &&& 0 <= k < samples.len()
    &&& (k == 0 || samples[k] <= target)
    &&& (k + 1 == samples.len() || target <= samples[k + 1])
}

/// `value` is the value of a keyframe that holds at `target`.
pub open spec fn is_holding_value<T>(keyframes: Seq<Keyframe<T>>, samples: Seq<usize>, target: usize, value: T) -> bool {
    exists|k: int|
        0 <= k < keyframes.len() && #[trigger] keyframes[k].value == value && (samples_sorted(samples) ==> holds_at(
            samples,
            target,
            k,
        ))
}

/// The samples before index `p` lie before `target`, and the others at `target` or after it.
pub open spec fn sample_split(samples: Seq<usize>, target: usize, p: int) -> bool {
    &&& 0 <= p <= samples.len()
    &&& forall|j: int| 0 <= j < p ==> #[trigger] samples[j] < target
    &&& forall|j: int| p <= j < samples.len() ==> #[trigger] samples[j] >= target
}

/// The keyframe that a search finds at `target` among sorted samples: the
/// first one that starts at `target`, or else the last one before it, or the
/// first keyframe.
pub open spec fn searched_keyframe(samples: Seq<usize>, target: usize) -> int {
    let p = choose|p: int| #[trigger] sample_split(samples, target, p);
    if p < samples.len() && samples[p] == target {
        p
    } else if p > 0 {
        p - 1
    } else {
        0
    }
}

/// The keyframe that the remembered index `current` still gives at `target`:
/// the first keyframe while `target` lies before it, the remembered one while
/// `target` lies from its sample up to, but not including, the next keyframe's
/// sample, or from its sample on when it is the last one; `None` when the
/// keyframes are to be searched. The value thus changes at a keyframe's own
/// sample, whatever the cursor remembers.
pub open spec fn remembered_keyframe(samples: Seq<usize>, current: Option<usize>, target: usize) -> Option<usize> {
    match current {
        Some(c) => if c == 0 && target < samples[0] {
            Some(0usize)
        } else if c + 1 < samples.len() {
            if samples[c as int] <= target < samples[c + 1] {
                Some(c)
            } else {
                None
            }
        } else if target >= samples[c as int] {
            Some(c)
        } else {
            None
        },
        None => None,
    }
}

/// The keyframe that the cursor takes at `target`: the remembered one while it
/// still applies, and else the searched one.
pub open spec fn keyframe_step(samples: Seq<usize>, current: Option<usize>, target: usize) -> int {
    match remembered_keyframe(samples, current, target) {
        Some(c) => c as int,
        None => searched_keyframe(samples, target),
    }
}

/// What the cursor remembers after taking `m` samples from `playhead` on,
/// starting from `start`.
pub open spec fn cursor_after(samples: Seq<usize>, start: Option<usize>, playhead: usize, m: nat) -> Option<usize>
    decreases m,
{
    if m == 0 {
        start
    } else {
        let prev = cursor_after(samples, start, playhead, (m - 1) as nat);
        Some(keyframe_step(samples, prev, (playhead + m - 1) as usize) as usize)
    }
}

/// Among sorted samples the split is unique, so the search finds the keyframe given by it.
proof fn lemma_sample_split(samples: Seq<usize>, target: usize, p: int)
    requires
        samples_sorted(samples),
        sample_split(samples, target, p),
    ensures
        searched_keyframe(samples, target) == if p < samples.len() && samples[p] == target {
            p
        } else if p > 0 {
            p - 1
        } else {
            0
        },
{
    let q = choose|q: int| #[trigger] sample_split(samples, target, q);
    assert(sample_split(samples, target, q));
    if q < p {
        assert(samples[q] >= target);
    } else if q > p {
        assert(samples[p] >= target);
    }
}

/// An automation cursor that remembers the index of the keyframe whose value is
/// the current constant value.
#[derive(Debug, Clone, Copy, Default)]
pub struct ConstantAutomationCursor {
    pub current_index: Option<usize>,
}

/// The first index whose sample is `target` or more, when the samples are sorted.
fn lower_bound(samples: &[usize], target: usize) -> (index: usize)
    ensures
        index <= samples.len(),
        samples_sorted(samples@) ==> forall|j: int| 0 <= j < index ==> #[trigger] samples@[j] < target,
        samples_sorted(samples@) ==> forall|j: int| index <= j < samples.len() ==> #[trigger] samples@[j] >= target,
{
    let mut lo: usize = 0;
    let mut hi: usize = samples.len();
    while lo < hi
        invariant
            lo <= hi <= samples.len(),
            samples_sorted(samples@) ==> forall|j: int| 0 <= j < lo ==> #[trigger] samples@[j] < target,
            samples_sorted(samples@) ==> forall|j: int| hi <= j < samples.len() ==> #[trigger] samples@[j] >= target,
        decreases hi - lo,
    {
        let mid = lo + (hi - lo) / 2;
        if samples[mid] < target {
            proof {
                if samples_sorted(samples@) {
                    assert forall|j: int| 0 <= j < mid + 1 implies #[trigger] samples@[j] < target by {
                        assert(samples@[j] <= samples@[mid as int]);
                    }
                }
            }
            lo = mid + 1;
        } else {
            proof {
                if samples_sorted(samples@) {
                    assert forall|j: int| mid <= j < samples.len() implies #[trigger] samples@[j] >= target by {
                        assert(samples@[mid as int] <= samples@[j]);
                    }
                }
            }
            hi = mid;
        }
    }
    lo
}

impl ConstantAutomationCursor {
    pub fn clear_cache(&mut self)
        ensures
            final(self).current_index is None,
    {
        self.current_index = None;
    }

    /// The index of the keyframe that holds at `target_sample`, where
    /// `keyframe_samples` are the samples at which the keyframes start.
    /// With no keyframes there is none, with one it is the first. Otherwise
    /// the remembered keyframe is used when it still holds, and else the
    /// keyframes are searched and the one found is remembered.
    pub fn get_constant_keyframe_index(&mut self, keyframe_samples: &[usize], target_sample: usize) -> (index: Option<usize>)
        requires
            old(self).current_index matches Some(i) ==> i < keyframe_samples.len(),
        ensures
            keyframe_samples.len() == 0 ==> index is None && *final(self) == *old(self),
            keyframe_samples.len() == 1 ==> index == Some(0usize) && *final(self) == *old(self),
            keyframe_samples.len() >= 2 ==> (index matches Some(k) && k < keyframe_samples.len() && final(self).current_index
                == Some(k) && (samples_sorted(keyframe_samples@) ==> holds_at(keyframe_samples@, target_sample, k as int))),
            keyframe_samples.len() >= 2 && remembered_keyframe(keyframe_samples@, old(self).current_index, target_sample)
                is Some ==> index == remembered_keyframe(keyframe_samples@, old(self).current_index, target_sample),
            keyframe_samples.len() >= 2 && samples_sorted(keyframe_samples@) ==> (index matches Some(k) && k
                == keyframe_step(keyframe_samples@, old(self).current_index, target_sample)),
    {
        if keyframe_samples.len() == 0 {
            return None;
        }
        if keyframe_samples.len() == 1 {
            return Some(0);
        }
        // Get the sample of the current keyframe
        if let Some(current_index) = self.current_index {
            let keyframe_sample = keyframe_samples[current_index];
            // If the target sample is before the first keyframe, use the first keyframe
            if current_index == 0 && target_sample < keyframe_sample {
                return Some(0);
            }
            if current_index + 1 < keyframe_samples.len() {
                let next_keyframe_sample = keyframe_samples[current_index + 1];
                if target_sample >= keyframe_sample && target_sample < next_keyframe_sample {
                    return Some(current_index);
                }
            } else {
                // If there is no next keyframe (which means that the current keyframe is the last one),
                // use the current keyframe
                if target_sample >= keyframe_sample {
                    return Some(current_index);
                }
            }
        }
        Some(self.calculate_keyframe_index(keyframe_samples, target_sample))
    }

    /// The value of the keyframe that holds at `target_sample`, or the default
    /// value when there are no keyframes.
    pub fn get_constant_keyframe_value<T: Default + Copy>(
        &mut self,
        keyframes: &[Keyframe<T>],
        keyframe_samples: &[usize],
        target_sample: usize,
    ) -> (value: T)
        requires
            keyframes.len() == keyframe_samples.len(),
            old(self).current_index matches Some(i) ==> i < keyframes.len(),
        ensures
            keyframes.len() == 0 ==> call_ensures(T::default, (), value) && *final(self) == *old(self),
            keyframes.len() == 1 ==> value == keyframes@[0].value && *final(self) == *old(self),
            keyframes.len() >= 2 ==> (final(self).current_index matches Some(k) && k < keyframes.len()
                && value == keyframes@[k as int].value && (samples_sorted(keyframe_samples@) ==> holds_at(
                keyframe_samples@,
                target_sample,
                k as int,
            ))),
            keyframes.len() >= 2 && remembered_keyframe(keyframe_samples@, old(self).current_index, target_sample)
                is Some ==> final(self).current_index == remembered_keyframe(
                keyframe_samples@,
                old(self).current_index,
                target_sample,
            ),
            keyframes.len() >= 2 && samples_sorted(keyframe_samples@) ==> (final(self).current_index matches Some(k)
                && k == keyframe_step(keyframe_samples@, old(self).current_index, target_sample)),
    {
        match self.get_constant_keyframe_index(keyframe_samples, target_sample) {
            Some(index) => keyframes[index].value,
            None => T::default(),
        }
    }

    /// The values of a track of constant keyframes at each sample of the block
    /// `playhead..playhead + len`, read one sample after the other so that the
    /// cursor follows the playhead.
    pub fn values_in_block<T: Default + Copy>(
        &mut self,
        keyframes: &[Keyframe<T>],
        keyframe_samples: &[usize],
        playhead: usize,
        len: usize,
    ) -> (values: Vec<T>)
        requires
            keyframes.len() == keyframe_samples.len(),
            old(self).current_index matches Some(i) ==> i < keyframes.len(),
            playhead + len <= usize::MAX,
        ensures
            values@.len() == len,
            final(self).current_index matches Some(i) ==> i < keyframes.len(),
            keyframes.len() == 0 ==> *final(self) == *old(self) && forall|i: int|
                0 <= i < len ==> call_ensures(T::default, (), #[trigger] values@[i]),
            keyframes.len() == 1 ==> *final(self) == *old(self) && forall|i: int|
                0 <= i < len ==> #[trigger] values@[i] == keyframes@[0].value,
            keyframes.len() >= 2 ==> forall|i: int|
                0 <= i < len ==> is_holding_value(
                    keyframes@,
                    keyframe_samples@,
                    (playhead + i) as usize,
                    #[trigger] values@[i],
                ),
            keyframes.len() >= 2 && samples_sorted(keyframe_samples@) ==> {
                &&& forall|i: int|
                    0 <= i < len ==> #[trigger] values@[i] == keyframes@[keyframe_step(
                        keyframe_samples@,
                        cursor_after(keyframe_samples@, old(self).current_index, playhead, i as nat),
                        (playhead + i) as usize,
                    )].value
                &&& final(self).current_index == cursor_after(
                    keyframe_samples@,
                    old(self).current_index,
                    playhead,
                    len as nat,
                )
            },
    {
        let mut values: Vec<T> = Vec::new();
        let mut i: usize = 0;
        while i < len
            invariant
                keyframes.len() == keyframe_samples.len(),
                self.current_index matches Some(j) ==> j < keyframes.len(),
                playhead + len <= usize::MAX,
                i <= len,
                values@.len() == i,
                keyframes.len() <= 1 ==> *self == *old(self),
                keyframes.len() == 0 ==> forall|m: int|
                    0 <= m < i ==> call_ensures(T::default, (), #[trigger] values@[m]),
                keyframes.len() == 1 ==> forall|m: int| 0 <= m < i ==> #[trigger] values@[m] == keyframes@[0].value,
                keyframes.len() >= 2 ==> forall|m: int|
                    0 <= m < i ==> is_holding_value(
                        keyframes@,
                        keyframe_samples@,
                        (playhead + m) as usize,
                        #[trigger] values@[m],
                    ),
                keyframes.len() >= 2 && samples_sorted(keyframe_samples@) ==> {
                    &&& forall|m: int|
                        0 <= m < i ==> #[trigger] values@[m] == keyframes@[keyframe_step(
                            keyframe_samples@,
                            cursor_after(keyframe_samples@, old(self).current_index, playhead, m as nat),
                            (playhead + m) as usize,
                        )].value
                    &&& self.current_index == cursor_after(
                        keyframe_samples@,
                        old(self).current_index,
                        playhead,
                        i as nat,
                    )
                },
            decreases len - i,
        {
            let ghost cursor_before = self.current_index;
            let value = self.get_constant_keyframe_value(keyframes, keyframe_samples, playhead + i);
            let ghost before = values@;
            values.push(value);
            proof {
                assert forall|m: int| 0 <= m < i implies values@[m] == before[m] by {}
                if keyframes.len() >= 2 {
                    let k = self.current_index->Some_0 as int;
                    assert(values@[i as int] == keyframes@[k].value);
                    if samples_sorted(keyframe_samples@) {
                        assert((playhead + (i + 1) - 1) as usize == playhead + i);
                        assert(cursor_after(keyframe_samples@, old(self).current_index, playhead, (i + 1) as nat)
                            == Some(keyframe_step(keyframe_samples@, cursor_before, (playhead + i) as usize) as usize));
                    }
                }
            }
            i = i + 1;
        }
        values
    }

    /// Calculates the keyframe index for the given target sample and remembers it.
    fn calculate_keyframe_index(&mut self, keyframe_samples: &[usize], target_sample: usize) -> (index: usize)
        requires
            keyframe_samples.len() >= 1,
        ensures
            final(self).current_index == Some(index),
            index < keyframe_samples.len(),
            samples_sorted(keyframe_samples@) ==> holds_at(keyframe_samples@, target_sample, index as int),
            samples_sorted(keyframe_samples@) ==> index == searched_keyframe(keyframe_samples@, target_sample),
    {
        // The search gives the keyframe at the target sample when there is one,
        // and otherwise the one right before it, or the first.
        let p = lower_bound(keyframe_samples, target_sample);
        proof {
            if samples_sorted(keyframe_samples@) {
                lemma_sample_split(keyframe_samples@, target_sample, p as int);
            }
        }
        let index = if p < keyframe_samples.len() && keyframe_samples[p] == target_sample {
            p
        } else if p > 0 {
            p - 1
        } else {
            0
        };
        self.current_index = Some(index);
        index
    }
}

/// Where no two keyframes start at the same sample, what the cursor
/// remembers never changes the keyframe it takes: it is the one that a fresh
/// search finds.
pub proof fn lemma_remembered_keyframe_is_searched(samples: Seq<usize>, current: Option<usize>, target: usize)
    requires
        forall|i: int, j: int| 0 <= i < j < samples.len() ==> #[trigger] samples[i] < #[trigger] samples[j],
        samples.len() >= 1,
        current matches Some(c) ==> c < samples.len(),
    ensures
        keyframe_step(samples, current, target) == searched_keyframe(samples, target),
{
    assert(samples_sorted(samples)) by {
        assert forall|i: int, j: int| 0 <= i <= j < samples.len() implies #[trigger] samples[i]
            <= #[trigger] samples[j] by {
            if i < j {
                assert(samples[i] < samples[j]);
            }
        }
    }
    if remembered_keyframe(samples, current, target) is Some {
        let c = current->Some_0 as int;
        if c == 0 && target < samples[0] {
            assert(sample_split(samples, target, 0)) by {
                assert forall|j: int| 0 <= j < samples.len() implies #[trigger] samples[j] >= target by {
                    if j > 0 {
                        assert(samples[0] < samples[j]);
                    }
                }
            }
            lemma_sample_split(samples, target, 0);
        } else {
            let p = if samples[c] == target {
                c
            } else {
                c + 1
            };
            assert(sample_split(samples, target, p)) by {
                assert forall|j: int| 0 <= j < p implies #[trigger] samples[j] < target by {
                    if j < c {
                        assert(samples[j] < samples[c]);
                    }
                }
                assert forall|j: int| p <= j < samples.len() implies #[trigger] samples[j] >= target by {
                    if j > c + 1 {
                        assert(samples[c + 1] < samples[j]);
                    }
                    if j > c {
                        assert(samples[c] < samples[j]);
                    }
                }
            }
            lemma_sample_split(samples, target, p);
        }
    }
}

/// Where the target sample lies strictly between keyframe samples, the
/// keyframe that holds there is unique: the remembered index gives the same
/// value as a fresh search.
pub proof fn lemma_holding_keyframe_unique(samples: Seq<usize>, target: usize, k1: int, k2: int)
    requires
        samples_sorted(samples),
        !samples.contains(target),
        holds_at(samples, target, k1),
        holds_at(samples, target, k2),
    ensures
        k1 == k2,
{
    if k1 < k2 {
        assert(samples[k1 + 1] <= samples[k2]);
        assert(samples[k2] == target);
    } else if k2 < k1 {
        assert(samples[k2 + 1] <= samples[k1]);
        assert(samples[k1] == target);
    }
}

} // verus!
