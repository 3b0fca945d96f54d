use vstd::prelude::*;

verus! {

/// The end samples of the gradient ranges.
pub open spec fn ends_of<G>(gradient_vals: Seq<(usize, G)>) -> Seq<usize> {
    gradient_vals.map_values(|e: (usize, G)| e.0)
}

/// The end samples never decrease.
pub open spec fn ends_sorted(ends: Seq<usize>) -> bool {
    forall|i: int, j: int| 0 <= i <= j < ends.len() ==> #[trigger] ends[i] <= #[trigger] ends[j]
}

/// The gradient range `k` covers `target`: it starts where the range before
/// it ends (or at zero) and ends at `target` or later.
pub open spec fn covers(ends: Seq<usize>, target: usize, k: int) -> bool {
    &&& 0 <= k < ends.len()
    &&& (k == 0 || ends[k - 1] <= target)
    &&& target <= ends[k]
}

/// The ends before index `p` lie before `target`, and the others at `target` or after it.
pub open spec fn end_split(ends: Seq<usize>, target: usize, p: int) -> bool {
    &&& 0 <= p <= ends.len()
    &&& forall|j: int| 0 <= j < p ==> #[trigger] ends[j] < target
    &&& forall|j: int| p <= j < ends.len() ==> #[trigger] ends[j] >= target
}

/// The range that a search finds at `target` among sorted ends: the first
/// one that ends at `target` or later.
pub open spec fn searched_range(ends: Seq<usize>, target: usize) -> int {
    choose|p: int| #[trigger] end_split(ends, target, p)
}

/// The range that the remembered index `current` still covers at `target`:
/// it starts where the range before it ends (or at zero) and ends at `target`
/// or later; `None` when the ranges are to be searched.
pub open spec fn remembered_range(ends: Seq<usize>, current: Option<usize>, target: usize) -> Option<usize> {
    match current {
        Some(c) => {
            let start = if c > 0 {
                ends[c - 1]
            } else {
                0
            };
            if start <= target <= ends[c as int] {
                Some(c)
            } else {
                None
            }
        },
        None => None,
    }
}

/// Among sorted ends the split is unique, so the search finds the range given by it.
proof fn lemma_end_split(ends: Seq<usize>, target: usize, p: int)
    requires
        ends_sorted(ends),
        end_split(ends, target, p),
    ensures
        searched_range(ends, target) == p,
{
    let q = searched_range(ends, target);
    assert(end_split(ends, target, q));
    if q < p {
        assert(ends[q] >= target);
    } else if q > p {
        assert(ends[p] >= target);
    }
}

/// An automation cursor that keeps track of the current index in a list of gradient values.
/// This is solely used to interpolate between **float** keyframes, not integer or boolean keyframes.
#[derive(Debug, Clone, Copy, Default)]
pub struct FloatAutomationCursor {
    pub current_index: Option<usize>,
}

/// The first index whose range ends at `target` or later, when the ends are sorted.
fn lower_bound_end<G>(gradient_vals: &[(usize, G)], target: usize) -> (index: usize)
    ensures
        index <= gradient_vals.len(),
        ends_sorted(ends_of(gradient_vals@)) ==> forall|j: int|
            0 <= j < index ==> #[trigger] gradient_vals@[j].0 < target,
        ends_sorted(ends_of(gradient_vals@)) ==> forall|j: int|
            index <= j < gradient_vals.len() ==> #[trigger] gradient_vals@[j].0 >= target,
{
    let ghost ends = ends_of(gradient_vals@);
    let mut lo: usize = 0;
    let mut hi: usize = gradient_vals.len();
    while lo < hi
        invariant
            lo <= hi <= gradient_vals.len(),
            ends == ends_of(gradient_vals@),
            ends_sorted(ends) ==> forall|j: int| 0 <= j < lo ==> #[trigger] gradient_vals@[j].0 < target,
            ends_sorted(ends) ==> forall|j: int|
                hi <= j < gradient_vals.len() ==> #[trigger] gradient_vals@[j].0 >= target,
        decreases hi - lo,
    {
        let mid = lo + (hi - lo) / 2;
        if gradient_vals[mid].0 < target {
            proof {
                if ends_sorted(ends) {
                    assert forall|j: int| 0 <= j < mid + 1 implies #[trigger] gradient_vals@[j].0 < target by {
                        assert(ends[j] <= ends[mid as int]);
                    }
                }
            }
            lo = mid + 1;
        } else {
            proof {
                if ends_sorted(ends) {
                    assert forall|j: int| mid <= j < gradient_vals.len() implies #[trigger] gradient_vals@[j].0
                        >= target by {
                        assert(ends[mid as int] <= ends[j]);
                    }
                }
            }
            hi = mid;
        }
    }
    lo
}

impl FloatAutomationCursor {
    pub fn clear_cache(&mut self)
        ensures
            final(self).current_index is None,
    {
        self.current_index = None;
    }

    /// The gradient that applies at `target_sample`: the one of the range
    /// that covers it, or the default (zero) gradient when there are no ranges
    /// or the target lies after the last one. The remembered range is used
    /// when it still covers the target, and else the ranges are searched.
    pub fn get_gradient_at<G: Default + Copy>(&mut self, gradient_vals: &[(usize, G)], target_sample: usize) -> (gradient: G)
        requires
            old(self).current_index matches Some(i) ==> i < gradient_vals.len(),
        ensures
            final(self).current_index matches Some(i) ==> i < gradient_vals.len(),
            gradient_vals.len() == 0 ==> call_ensures(G::default, (), gradient) && *final(self) == *old(self),
            gradient_vals.len() > 0 && ends_sorted(ends_of(gradient_vals@)) ==> if target_sample
                > gradient_vals@.last().0 {
                call_ensures(G::default, (), gradient) && *final(self) == *old(self)
            } else {
                final(self).current_index matches Some(k) && covers(ends_of(gradient_vals@), target_sample, k as int)
                    && gradient == gradient_vals@[k as int].1
            },
            gradient_vals.len() > 0 ==> match remembered_range(ends_of(gradient_vals@), old(self).current_index, target_sample) {
                Some(c) => gradient == gradient_vals@[c as int].1 && *final(self) == *old(self),
                None => ends_sorted(ends_of(gradient_vals@)) && target_sample <= gradient_vals@.last().0 ==> {
                    &&& final(self).current_index == Some(searched_range(ends_of(gradient_vals@), target_sample) as usize)
                    &&& gradient == gradient_vals@[searched_range(ends_of(gradient_vals@), target_sample)].1
                },
            },
    {
        if gradient_vals.len() == 0 {
            return G::default();
        }
        if let Some(current_index) = self.current_index {
            let (current_end_sample, current_gradient) = gradient_vals[current_index];
            // Get the start sample of the current gradient range based on the end index of the previous range
            let current_start_sample = if current_index > 0 {
                gradient_vals[current_index - 1].0
            } else {
                0
            };
            // If the target sample is within the current gradient range, return the current gradient value
            if target_sample >= current_start_sample && target_sample <= current_end_sample {
                proof {
                    if ends_sorted(ends_of(gradient_vals@)) {
                        let ends = ends_of(gradient_vals@);
                        assert(ends[current_index as int] <= ends[ends.len() - 1]);
                    }
                }
                return current_gradient;
            }
        }
        // If the target sample is greater than the last gradient range, return zero
        let last_end_sample = gradient_vals[gradient_vals.len() - 1].0;
        if target_sample > last_end_sample {
            return G::default();
        }
        // Recalculate the gradient index and get the corresponding gradient value if the target sample is outside the current range
        self.calculate_grad_index_and_get_gradient(gradient_vals, target_sample)
    }

    /// Calculates the gradient index for the given target sample and returns the corresponding gradient value.
    /// Uses the newly calculated index to get the gradient value, or return zero if no new index was found.
    fn calculate_grad_index_and_get_gradient<G: Default + Copy>(&mut self, gradient_vals: &[(usize, G)], target_sample: usize) -> (gradient: G)
        ensures
            final(self).current_index matches Some(i) ==> i < gradient_vals.len(),
            final(self).current_index matches Some(k) ==> gradient == gradient_vals@[k as int].1,
            final(self).current_index is None ==> call_ensures(G::default, (), gradient),
            ends_sorted(ends_of(gradient_vals@)) && gradient_vals.len() > 0 && target_sample <= gradient_vals@.last().0
                ==> (final(self).current_index matches Some(k) && covers(ends_of(gradient_vals@), target_sample, k as int)),
            ends_sorted(ends_of(gradient_vals@)) && gradient_vals.len() > 0 && target_sample <= gradient_vals@.last().0
                ==> final(self).current_index == Some(searched_range(ends_of(gradient_vals@), target_sample) as usize),
            ends_sorted(ends_of(gradient_vals@)) && gradient_vals.len() > 0 && target_sample <= gradient_vals@.last().0
                ==> 0 <= searched_range(ends_of(gradient_vals@), target_sample) < gradient_vals.len(),
    {
        self.calculate_grad_index(gradient_vals, target_sample);
        if let Some(new_index) = self.current_index {
            let (_, new_gradient) = gradient_vals[new_index];
            new_gradient
        } else {
            G::default()
        }
    }

    /// Calculates the gradient index for the given target sample: the first
    /// range that ends at the target or later, or none after the last range.
    pub fn calculate_grad_index<G>(&mut self, gradient_vals: &[(usize, G)], target_sample: usize)
        ensures
            final(self).current_index matches Some(i) ==> i < gradient_vals.len(),
            gradient_vals.len() == 0 ==> final(self).current_index is None,
            ends_sorted(ends_of(gradient_vals@)) && gradient_vals.len() > 0 ==> if target_sample
                > gradient_vals@.last().0 {
                final(self).current_index is None
            } else {
                final(self).current_index matches Some(k) && covers(ends_of(gradient_vals@), target_sample, k as int)
                    && k == searched_range(ends_of(gradient_vals@), target_sample)
            },
    {
        if gradient_vals.len() == 0 {
            self.current_index = None;
            return;
        }
        let p = lower_bound_end(gradient_vals, target_sample);
        proof {
            let ends = ends_of(gradient_vals@);
            if ends_sorted(ends) {
                assert(end_split(ends, target_sample, p as int));
                lemma_end_split(ends, target_sample, p as int);
            }
        }
        // An index past the last range means that the target lies after it
        self.current_index = if p < gradient_vals.len() {
            Some(p)
        } else {
            None
        };
    }
}

/// Where the target sample is no range's end, one range at most covers it:
/// the remembered index gives the same gradient as a fresh search.
pub proof fn lemma_covering_range_unique(ends: Seq<usize>, target: usize, k1: int, k2: int)
    requires
        ends_sorted(ends),
        !ends.contains(target),
        covers(ends, target, k1),
        covers(ends, target, k2),
    ensures
        k1 == k2,
{
    if k1 < k2 {
        assert(ends[k1] <= ends[k2 - 1]);
        assert(ends[k1] == target);
    } else if k2 < k1 {
        assert(ends[k2] <= ends[k1 - 1]);
        assert(ends[k2] == target);
    }
}

} // verus!
