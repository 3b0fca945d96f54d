use crate::data_types::Ticks;
use vstd::prelude::*;

verus! {

/// The ticks never decrease.
pub open spec fn ticks_sorted(ticks: Seq<Ticks>) -> bool {
    forall|i: int, j: int| 0 <= i <= j < ticks.len() ==> #[trigger] ticks[i].0 <= #[trigger] ticks[j].0
}

/// The index of the first keyframe whose tick is not before `tick`, for
/// keyframes sorted by tick; new keyframes are inserted there.
pub fn keyframe_partition_point(ticks: &[Ticks], tick: Ticks) -> (index: usize)
    requires
        ticks_sorted(ticks@),
    ensures
        index <= ticks.len(),
        forall|j: int| 0 <= j < index ==> #[trigger] ticks@[j].0 < tick.0,
        forall|j: int| index <= j < ticks.len() ==> #[trigger] ticks@[j].0 >= tick.0,
{
    let mut lo: usize = 0;
    let mut hi: usize = ticks.len();
    while lo < hi
        invariant
            lo <= hi <= ticks.len(),
            ticks_sorted(ticks@),
            forall|j: int| 0 <= j < lo ==> #[trigger] ticks@[j].0 < tick.0,
            forall|j: int| hi <= j < ticks.len() ==> #[trigger] ticks@[j].0 >= tick.0,
        decreases hi - lo,
    {
        let mid = lo + (hi - lo) / 2;
        if ticks[mid].0 < tick.0 {
            assert forall|j: int| 0 <= j < mid + 1 implies #[trigger] ticks@[j].0 < tick.0 by {
                assert(ticks@[j].0 <= ticks@[mid as int].0);
            }
            lo = mid + 1;
        } else {
            assert forall|j: int| mid <= j < ticks.len() implies #[trigger] ticks@[j].0 >= tick.0 by {
                assert(ticks@[mid as int].0 <= ticks@[j].0);
            }
            hi = mid;
        }
    }
    lo
}

/// The keyframe at `a` comes before the one at `b` in a stable sort by tick:
/// its tick is earlier, or the ticks are equal and it came first.
pub open spec fn before_in_tick_order(ticks: Seq<Ticks>, a: int, b: int) -> bool {
    ticks[a].0 < ticks[b].0 || (ticks[a].0 == ticks[b].0 && a < b)
}

/// The order in which a stable sort by tick puts the keyframes: each index of
/// `ticks` once, the ticks never decreasing, and keyframes at the same tick in
/// the order they had.
pub fn stable_tick_order(ticks: &[Ticks]) -> (order: Vec<usize>)
    ensures
        order@.len() == ticks.len(),
        forall|i: int| 0 <= i < order@.len() ==> #[trigger] order@[i] < ticks.len(),
        forall|x: usize| x < ticks.len() ==> #[trigger] order@.contains(x),
        forall|i: int, j: int|
            0 <= i < j < order@.len() ==> before_in_tick_order(
                ticks@,
                #[trigger] order@[i] as int,
                #[trigger] order@[j] as int,
            ),
{
    let mut order: Vec<usize> = Vec::new();
    let mut k: usize = 0;
    while k < ticks.len()
        invariant
            k <= ticks.len(),
            order@.len() == k,
            forall|i: int| 0 <= i < order@.len() ==> #[trigger] order@[i] < k,
            forall|x: usize| x < k ==> #[trigger] order@.contains(x),
            forall|i: int, j: int|
                0 <= i < j < order@.len() ==> before_in_tick_order(
                    ticks@,
                    #[trigger] order@[i] as int,
                    #[trigger] order@[j] as int,
                ),
        decreases ticks.len() - k,
    {
        // Every entry so far comes before `k` exactly when its tick is not later
        let mut p: usize = 0;
        while p < order.len() && ticks[order[p]].0 <= ticks[k].0
            invariant
                k < ticks.len(),
                p <= order@.len(),
                order@.len() == k,
                forall|i: int| 0 <= i < order@.len() ==> #[trigger] order@[i] < k,
                forall|i: int, j: int|
                    0 <= i < j < order@.len() ==> before_in_tick_order(
                        ticks@,
                        #[trigger] order@[i] as int,
                        #[trigger] order@[j] as int,
                    ),
                forall|i: int| 0 <= i < p ==> ticks@[#[trigger] order@[i] as int].0 <= ticks@[k as int].0,
            decreases order@.len() - p,
        {
            p = p + 1;
        }
        proof {
            if p < order@.len() {
                assert(ticks@[order@[p as int] as int].0 > ticks@[k as int].0);
                assert forall|i: int| p <= i < order@.len() implies ticks@[#[trigger] order@[i] as int].0
                    > ticks@[k as int].0 by {
                    if i > p {
                        assert(before_in_tick_order(ticks@, order@[p as int] as int, order@[i] as int));
                    }
                }
            }
        }
        let ghost old_order = order@;
        order.insert(p, k);
        proof {
            assert forall|i: int| 0 <= i < order@.len() implies #[trigger] order@[i] < k + 1 by {
                if i < p {
                    assert(order@[i] == old_order[i]);
                } else if i > p {
                    assert(order@[i] == old_order[i - 1]);
                }
            }
            assert forall|x: usize| x < k + 1 implies #[trigger] order@.contains(x) by {
                if x == k {
                    assert(order@[p as int] == k);
                } else {
                    assert(old_order.contains(x));
                    let i = choose|i: int| 0 <= i < old_order.len() && old_order[i] == x;
                    if i < p {
                        assert(order@[i] == old_order[i]);
                    } else {
                        assert(order@[i + 1] == old_order[i]);
                    }
                }
            }
            assert forall|i: int, j: int| 0 <= i < j < order@.len() implies before_in_tick_order(
                ticks@,
                #[trigger] order@[i] as int,
                #[trigger] order@[j] as int,
            ) by {
                let oi = if i < p { i } else { i - 1 };
                let oj = if j < p { j } else { j - 1 };
                if i != p && j != p {
                    assert(order@[i] == old_order[oi]);
                    assert(order@[j] == old_order[oj]);
                } else if i == p {
                    assert(order@[j] == old_order[j - 1]);
                    assert(old_order[j - 1] < k);
                } else {
                    assert(order@[i] == old_order[i]);
                    assert(old_order[i] < k);
                }
            }
        }
        k = k + 1;
    }
    order
}

/// The keyframes in the tick range `[start, end)` together with the last
/// keyframe before it and the first one after it, as the index range
/// `(first, last)` of the keyframes sorted by tick (`last` excluded). The
/// range is empty or inverted only when `end` lies before `start`.
pub fn keyframes_around_range(ticks: &[Ticks], start: Ticks, end: Ticks) -> (range: (usize, usize))
    requires
        ticks_sorted(ticks@),
    ensures
        range.1 <= ticks.len(),
        ticks.len() == 0 ==> range == (0usize, 0usize),
        ticks.len() > 0 ==> range.0 < ticks.len() && range.1 >= 1,
        start.0 <= end.0 ==> range.0 <= range.1,
        // every keyframe inside the range is included
        forall|j: int| 0 <= j < ticks.len() && start.0 <= #[trigger] ticks@[j].0 < end.0 ==> range.0 <= j < range.1,
        // the keyframe right before the range is included, and nothing before it
        ticks.len() > 0 ==> (range.0 == 0 || ticks@[range.0 as int].0 < start.0) && (range.0 + 1 >= ticks.len()
            || ticks@[range.0 + 1].0 >= start.0),
        // the keyframe right after the range is included, and nothing after it
        ticks.len() > 0 ==> (range.1 == ticks.len() || ticks@[range.1 - 1].0 >= end.0) && (range.1 <= 1
            || ticks@[range.1 - 2].0 < end.0),
{
    // Return if there are no keyframes
    if ticks.len() == 0 {
        return (0, 0);
    }
    let first = keyframe_partition_point(ticks, start);
    let first_index = if first > 0 {
        first - 1
    } else {
        0
    };
    let last = keyframe_partition_point(ticks, end);
    let last_index = if last < ticks.len() {
        last + 1
    } else {
        ticks.len()
    };
    proof {
        if start.0 <= end.0 && first > last {
            assert(ticks@[last as int].0 >= end.0);
            assert(ticks@[last as int].0 < start.0);
        }
    }
    (first_index, last_index)
}

} // verus!
