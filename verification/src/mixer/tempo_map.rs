use crate::data_types::{AudioContext, PlaybackContext, Ticks};
use crate::mixer::tempo_event::{
    spec_event_ticks_to_samples, spec_samples_per_tick_fp, TempoEvent,
};
use vstd::prelude::*;

verus! {

/// Each event lies at a later tick than the one before it.
pub open spec fn ticks_increasing(events: Seq<TempoEvent>) -> bool {
    forall|i: int, j: int| 0 <= i < j < events.len() ==> #[trigger] events[i].ticks.0 < #[trigger] events[j].ticks.0
}

/// The samples from `prev` to `cur` at the tempo of `prev`, with the fraction dropped.
pub open spec fn section_samples(prev: TempoEvent, cur: TempoEvent, sample_rate: u64, resolution: u64) -> int {
    (60 * (cur.ticks.0 - prev.ticks.0) * sample_rate) / (resolution * prev.bpm)
}

/// The event `i` caches the factor for its own bpm, and starts at sample zero
/// when it is the first, or else where the section before it ends.
pub open spec fn offset_ok(events: Seq<TempoEvent>, i: int, sample_rate: u64, resolution: u64) -> bool {
    &&& events[i].factor() == spec_samples_per_tick_fp(sample_rate, resolution, events[i].bpm)
    &&& i == 0 ==> events[i].sample_offset == 0
    &&& i > 0 ==> events[i].sample_offset == events[i - 1].sample_offset + (section_samples(
        events[i - 1],
        events[i],
        sample_rate,
        resolution,
    ) as usize)
}

/// Every event's offset and factor agree with the ticks and bpms.
pub open spec fn offsets_consistent(events: Seq<TempoEvent>, sample_rate: u64, resolution: u64) -> bool {
    forall|i: int| 0 <= i < events.len() ==> #[trigger] offset_ok(events, i, sample_rate, resolution)
}

/// The sample at which the event `i` starts, computed from the ticks and bpms alone.
pub open spec fn planned_offset(events: Seq<TempoEvent>, i: int, sample_rate: u64, resolution: u64) -> int
    decreases i,
{
    if i <= 0 {
        0
    } else {
        planned_offset(events, i - 1, sample_rate, resolution) + (section_samples(
            events[i - 1],
            events[i],
            sample_rate,
            resolution,
        ) as usize)
    }
}

/// The offset of the event `i` can be computed from the one before it without overflow.
pub open spec fn step_computable(events: Seq<TempoEvent>, i: int, sample_rate: u64, resolution: u64) -> bool {
    &&& events[i].ticks.0 - events[i - 1].ticks.0 <= i64::MAX
    &&& 60 * (events[i].ticks.0 - events[i - 1].ticks.0) * sample_rate <= u128::MAX
    &&& planned_offset(events, i, sample_rate, resolution) <= usize::MAX
}

/// The sample offsets of the events can be computed without an arithmetic
/// fault: no division by zero and no overflow.
pub open spec fn offsets_computable(events: Seq<TempoEvent>, sample_rate: u64, resolution: u64) -> bool {
    &&& resolution > 0
    &&& forall|i: int| 0 <= i < events.len() ==> #[trigger] events[i].bpm > 0
    &&& forall|i: int| 0 < i < events.len() ==> #[trigger] step_computable(events, i, sample_rate, resolution)
}

/// The events before index `i` lie before tick `t`, and the others at `t` or after it.
pub open spec fn splits_before(events: Seq<TempoEvent>, t: i64, i: int) -> bool {
    &&& 0 <= i <= events.len()
    &&& forall|j: int| 0 <= j < i ==> #[trigger] events[j].ticks.0 < t
    &&& forall|j: int| i <= j < events.len() ==> #[trigger] events[j].ticks.0 >= t
}

/// The events before index `p` lie at tick `t` or before it, and the others after it.
pub open spec fn splits_after(events: Seq<TempoEvent>, t: i64, p: int) -> bool {
    &&& 0 <= p <= events.len()
    &&& forall|j: int| 0 <= j < p ==> #[trigger] events[j].ticks.0 <= t
    &&& forall|j: int| p <= j < events.len() ==> #[trigger] events[j].ticks.0 > t
}

/// Where an event at tick `t` goes among sorted events: after every event at an earlier tick.
pub open spec fn insertion_index(events: Seq<TempoEvent>, t: i64) -> int {
    choose|i: int| #[trigger] splits_before(events, t, i)
}

/// The events with `event` added: it replaces the event at its tick, or goes
/// between the events before and after its tick.
pub open spec fn spec_with_event(events: Seq<TempoEvent>, event: TempoEvent) -> Seq<TempoEvent> {
    let i = insertion_index(events, event.ticks.0);
    if i < events.len() && events[i].ticks.0 == event.ticks.0 {
        events.update(i, event)
    } else {
        events.insert(i, event)
    }
}

/// The tick and bpm of each event, which are what the user sets.
pub open spec fn tempo_changes(events: Seq<TempoEvent>) -> Seq<(Ticks, u64)> {
    events.map_values(|e: TempoEvent| (e.ticks, e.bpm))
}

/// The index of the last event at or before `t`, or zero when there is none.
pub open spec fn governing_index(events: Seq<TempoEvent>, t: i64) -> int {
    let p = choose|p: int| #[trigger] splits_after(events, t, p);
    if p > 0 {
        p - 1
    } else {
        0
    }
}

/// The sample that the tick `t` falls on under the tempo map's events.
pub open spec fn spec_ticks_to_samples(events: Seq<TempoEvent>, t: Ticks) -> int {
    if events.len() == 0 || t.0 < events[0].ticks.0 {
        0
    } else {
        spec_event_ticks_to_samples(events[governing_index(events, t.0)], t)
    }
}

proof fn lemma_insertion_index(events: Seq<TempoEvent>, t: i64, i: int)
    requires
        ticks_increasing(events),
        0 <= i <= events.len(),
        forall|j: int| 0 <= j < i ==> #[trigger] events[j].ticks.0 < t,
        forall|j: int| i <= j < events.len() ==> #[trigger] events[j].ticks.0 >= t,
    ensures
        insertion_index(events, t) == i,
{
    assert(splits_before(events, t, i));
    let k = insertion_index(events, t);
    if k < i {
        assert(events[k].ticks.0 >= t);
    } else if k > i {
        assert(events[i].ticks.0 >= t);
    }
}

proof fn lemma_governing_index(events: Seq<TempoEvent>, t: i64, p: int)
    requires
        ticks_increasing(events),
        0 <= p <= events.len(),
        forall|j: int| 0 <= j < p ==> #[trigger] events[j].ticks.0 <= t,
        forall|j: int| p <= j < events.len() ==> #[trigger] events[j].ticks.0 > t,
    ensures
        governing_index(events, t) == if p > 0 {
            p - 1
        } else {
            0
        },
{
    assert(splits_after(events, t, p));
    let q = choose|q: int| #[trigger] splits_after(events, t, q);
    if q < p {
        assert(events[q].ticks.0 > t);
    } else if q > p {
        assert(events[p].ticks.0 > t);
    }
}

/// A consistent prefix of the events holds the planned offsets.
proof fn lemma_consistent_prefix_planned(events: Seq<TempoEvent>, n: int, sample_rate: u64, resolution: u64)
    requires
        0 <= n <= events.len(),
        forall|i: int| 0 <= i < n ==> #[trigger] offset_ok(events, i, sample_rate, resolution),
    ensures
        forall|i: int| #![trigger events[i]] 0 <= i < n ==> events[i].sample_offset == planned_offset(events, i, sample_rate, resolution),
    decreases n,
{
    if n > 0 {
        lemma_consistent_prefix_planned(events, n - 1, sample_rate, resolution);
        assert(offset_ok(events, n - 1, sample_rate, resolution));
        if n > 1 {
            assert(events[n - 2].sample_offset == planned_offset(events, n - 2, sample_rate, resolution));
        }
    }
}

/// A prefix of consistent events that is kept as it was stays consistent.
proof fn lemma_prefix_kept(old_events: Seq<TempoEvent>, events: Seq<TempoEvent>, n: int, sample_rate: u64, resolution: u64)
    requires
        offsets_consistent(old_events, sample_rate, resolution),
        0 <= n <= old_events.len(),
        n <= events.len(),
        forall|i: int| 0 <= i < n ==> #[trigger] events[i] == old_events[i],
    ensures
        forall|i: int| 0 <= i < n ==> #[trigger] offset_ok(events, i, sample_rate, resolution),
{
    assert forall|i: int| 0 <= i < n implies #[trigger] offset_ok(events, i, sample_rate, resolution) by {
        assert(offset_ok(old_events, i, sample_rate, resolution));
        assert(events[i] == old_events[i]);
        if i > 0 {
            assert(events[i - 1] == old_events[i - 1]);
        }
    }
}

/// Adding an event keeps the events ordered by tick.
proof fn lemma_with_event_increasing(events: Seq<TempoEvent>, event: TempoEvent)
    requires
        ticks_increasing(events),
    ensures
        ticks_increasing(spec_with_event(events, event)),
{
    let index = insertion_index(events, event.ticks.0);
    let exists_split = choose|i: int| #[trigger] splits_before(events, event.ticks.0, i);
    assert(splits_before(events, event.ticks.0, exists_split)) by {
        lemma_splits_before_exists(events, event.ticks.0);
    }
    let r = spec_with_event(events, event);
    assert forall|i: int, j: int| 0 <= i < j < r.len() implies #[trigger] r[i].ticks.0
        < #[trigger] r[j].ticks.0 by {
        if r.len() == events.len() {
            if i != index && j != index {
                assert(r[i] == events[i] && r[j] == events[j]);
            } else if i == index {
                assert(events[j].ticks.0 > events[i].ticks.0);
            } else {
                assert(r[i] == events[i]);
            }
        } else {
            if j < index {
                assert(r[i] == events[i] && r[j] == events[j]);
            } else if j == index {
                assert(r[i] == events[i]);
            } else if i == index {
                assert(r[j] == events[j - 1]);
            } else if i < index {
                assert(r[i] == events[i] && r[j] == events[j - 1]);
            } else {
                assert(r[i] == events[i - 1] && r[j] == events[j - 1]);
            }
        }
    }
}

/// Sorted events split at some index around any tick.
proof fn lemma_splits_before_exists(events: Seq<TempoEvent>, t: i64)
    requires
        ticks_increasing(events),
    ensures
        exists|i: int| #[trigger] splits_before(events, t, i),
    decreases events.len(),
{
    if events.len() == 0 {
        assert(splits_before(events, t, 0));
    } else {
        let rest = events.drop_last();
        assert(ticks_increasing(rest)) by {
            assert forall|i: int, j: int| 0 <= i < j < rest.len() implies #[trigger] rest[i].ticks.0
                < #[trigger] rest[j].ticks.0 by {
                assert(rest[i] == events[i] && rest[j] == events[j]);
            }
        }
        lemma_splits_before_exists(rest, t);
        let i = choose|i: int| #[trigger] splits_before(rest, t, i);
        if events.last().ticks.0 < t {
            assert(splits_before(events, t, events.len() as int)) by {
                assert forall|j: int| 0 <= j < events.len() implies #[trigger] events[j].ticks.0 < t by {
                    if j < events.len() - 1 {
                        assert(events[j].ticks.0 < events[events.len() - 1].ticks.0);
                    }
                }
            }
        } else {
            assert(splits_before(events, t, i)) by {
                assert forall|j: int| i <= j < events.len() implies #[trigger] events[j].ticks.0 >= t by {
                    if j < events.len() - 1 {
                        assert(events[j] == rest[j]);
                    }
                }
                assert forall|j: int| 0 <= j < i implies #[trigger] events[j].ticks.0 < t by {
                    assert(events[j] == rest[j]);
                }
            }
        }
    }
}

/// Adding an event keeps the events sorted by tick; the event is then the one
/// event at its tick; an event that was at that tick is replaced, and any other
/// event is kept.
pub proof fn lemma_add_event_keeps_events(events: Seq<TempoEvent>, event: TempoEvent)
    requires
        ticks_increasing(events),
    ensures
        ticks_increasing(spec_with_event(events, event)),
        spec_with_event(events, event).contains(event),
        forall|j: int|
            0 <= j < spec_with_event(events, event).len() && #[trigger] spec_with_event(events, event)[j].ticks.0
                == event.ticks.0 ==> spec_with_event(events, event)[j] == event,
        spec_with_event(events, event).len() == events.len() + if (exists|k: int|
            0 <= k < events.len() && #[trigger] events[k].ticks.0 == event.ticks.0) {
            0int
        } else {
            1int
        },
        forall|k: int|
            0 <= k < events.len() && #[trigger] events[k].ticks.0 != event.ticks.0 ==> spec_with_event(
                events,
                event,
            ).contains(events[k]),
{
    lemma_with_event_increasing(events, event);
    lemma_splits_before_exists(events, event.ticks.0);
    let i = insertion_index(events, event.ticks.0);
    assert(splits_before(events, event.ticks.0, i));
    let r = spec_with_event(events, event);
    assert(r[i] == event);
    assert forall|j: int| 0 <= j < r.len() && #[trigger] r[j].ticks.0 == event.ticks.0 implies r[j] == event by {
        if j < i {
            assert(r[j].ticks.0 < r[i].ticks.0);
        } else if j > i {
            assert(r[i].ticks.0 < r[j].ticks.0);
        }
    }
    if exists|k: int| 0 <= k < events.len() && #[trigger] events[k].ticks.0 == event.ticks.0 {
        let k = choose|k: int| 0 <= k < events.len() && #[trigger] events[k].ticks.0 == event.ticks.0;
        assert(k >= i);
        if k > i {
            assert(events[i].ticks.0 < events[k].ticks.0);
        }
        assert(i < events.len() && events[i].ticks.0 == event.ticks.0);
    } else {
        if i < events.len() {
            assert(events[i].ticks.0 != event.ticks.0);
        }
    }
    assert forall|k: int| 0 <= k < events.len() && #[trigger] events[k].ticks.0 != event.ticks.0 implies r.contains(
        events[k],
    ) by {
        if i < events.len() && events[i].ticks.0 == event.ticks.0 {
            assert(k != i);
            assert(r[k] == events[k]);
        } else if k < i {
            assert(r[k] == events[k]);
        } else {
            assert(r[k + 1] == events[k]);
        }
    }
}

/// What adding an event makes of the tempo changes, whatever sample offsets
/// follow: the ticks stay increasing, the event's tick occurs once and carries
/// the event's bpm, every other tick keeps its bpm, and there is one tempo
/// change more unless the event's tick had one.
pub proof fn lemma_added_event_tempo_changes(events: Seq<TempoEvent>, event: TempoEvent, after: Seq<TempoEvent>)
    requires
        ticks_increasing(events),
        tempo_changes(after) == tempo_changes(spec_with_event(events, event)),
    ensures
        ticks_increasing(after),
        exists|j: int| 0 <= j < after.len() && #[trigger] after[j].ticks == event.ticks && after[j].bpm == event.bpm,
        forall|j: int|
            0 <= j < after.len() && #[trigger] after[j].ticks.0 == event.ticks.0 ==> after[j].bpm == event.bpm,
        after.len() == events.len() + if (exists|k: int|
            0 <= k < events.len() && #[trigger] events[k].ticks.0 == event.ticks.0) {
            0int
        } else {
            1int
        },
        forall|k: int|
            0 <= k < events.len() && #[trigger] events[k].ticks.0 != event.ticks.0 ==> exists|j: int|
                0 <= j < after.len() && #[trigger] after[j].ticks == events[k].ticks && after[j].bpm == events[k].bpm,
{
    lemma_add_event_keeps_events(events, event);
    let r = spec_with_event(events, event);
    assert(after.len() == r.len()) by {
        assert(tempo_changes(after).len() == tempo_changes(r).len());
    }
    assert forall|j: int| 0 <= j < after.len() implies #[trigger] after[j].ticks == r[j].ticks && after[j].bpm
        == r[j].bpm by {
        assert(tempo_changes(after)[j] == tempo_changes(r)[j]);
    }
    assert(ticks_increasing(after)) by {
        assert forall|i: int, j: int| 0 <= i < j < after.len() implies #[trigger] after[i].ticks.0
            < #[trigger] after[j].ticks.0 by {
            assert(after[i].ticks == r[i].ticks && after[j].ticks == r[j].ticks);
            assert(r[i].ticks.0 < r[j].ticks.0);
        }
    }
    assert(r.contains(event));
    let i = choose|i: int| 0 <= i < r.len() && r[i] == event;
    assert(0 <= i < r.len());
    assert(after[i].ticks == r[i].ticks);
    assert(after[i].bpm == r[i].bpm);
    assert forall|j: int| 0 <= j < after.len() && #[trigger] after[j].ticks.0 == event.ticks.0 implies after[j].bpm
        == event.bpm by {
        assert(after[j].ticks == r[j].ticks);
        assert(r[j].ticks.0 == event.ticks.0);
        assert(r[j] == event);
    }
    assert forall|k: int| 0 <= k < events.len() && #[trigger] events[k].ticks.0 != event.ticks.0 implies exists|j: int|
        0 <= j < after.len() && #[trigger] after[j].ticks == events[k].ticks && after[j].bpm == events[k].bpm by {
        assert(r.contains(events[k]));
        let j = choose|j: int| 0 <= j < r.len() && r[j] == events[k];
        assert(after[j].ticks == r[j].ticks);
    }
}

/// Removing the event just added at a tick where no event was gives back the
/// events from before; the added event sits after the first event when its
/// tick is later than the first event's, so that it can be removed.
pub proof fn lemma_remove_undoes_add(events: Seq<TempoEvent>, event: TempoEvent)
    requires
        ticks_increasing(events),
        forall|k: int| 0 <= k < events.len() ==> #[trigger] events[k].ticks.0 != event.ticks.0,
    ensures
        0 <= insertion_index(events, event.ticks.0) <= events.len(),
        spec_with_event(events, event)[insertion_index(events, event.ticks.0)] == event,
        spec_with_event(events, event).remove(insertion_index(events, event.ticks.0)) == events,
        events.len() > 0 && event.ticks.0 > events[0].ticks.0 ==> insertion_index(events, event.ticks.0) > 0,
{
    lemma_splits_before_exists(events, event.ticks.0);
    let i = insertion_index(events, event.ticks.0);
    assert(splits_before(events, event.ticks.0, i));
    assert(spec_with_event(events, event) == events.insert(i, event));
    assert(events.insert(i, event).remove(i) =~= events);
    if events.len() > 0 && event.ticks.0 > events[0].ticks.0 {
        if i == 0 {
            assert(events[0].ticks.0 >= event.ticks.0);
        }
    }
}

/// Events with the ticks and bpms of sorted, computable events, whose offsets
/// and factors all agree with them, form a prepared tempo map.
proof fn lemma_recalculated(old_events: Seq<TempoEvent>, events: Seq<TempoEvent>, sample_rate: u64, resolution: u64)
    requires
        events.len() == old_events.len(),
        ticks_increasing(old_events),
        offsets_computable(old_events, sample_rate, resolution),
        forall|k: int| #![trigger events[k]] 0 <= k < events.len() ==> events[k].ticks == old_events[k].ticks
            && events[k].bpm == old_events[k].bpm,
        forall|k: int| 0 <= k < events.len() ==> #[trigger] offset_ok(events, k, sample_rate, resolution),
    ensures
        ticks_increasing(events),
        offsets_computable(events, sample_rate, resolution),
        offsets_consistent(events, sample_rate, resolution),
        tempo_changes(events) == tempo_changes(old_events),
{
    assert forall|i: int, j: int| 0 <= i < j < events.len() implies #[trigger] events[i].ticks.0
        < #[trigger] events[j].ticks.0 by {
        assert(events[i].ticks == old_events[i].ticks && events[j].ticks == old_events[j].ticks);
    }
    assert forall|k: int| 0 <= k < events.len() implies #[trigger] events[k].bpm > 0 by {
        assert(events[k].bpm == old_events[k].bpm);
        assert(old_events[k].bpm > 0);
    }
    assert forall|k: int| 0 < k < events.len() implies #[trigger] step_computable(events, k, sample_rate, resolution) by {
        assert(step_computable(old_events, k, sample_rate, resolution));
        lemma_planned_same(events, old_events, k, sample_rate, resolution);
        assert(old_events[k].ticks == events[k].ticks && old_events[k - 1].ticks == events[k - 1].ticks);
    }
    assert(tempo_changes(events) =~= tempo_changes(old_events)) by {
        assert forall|k: int| 0 <= k < events.len() implies #[trigger] tempo_changes(events)[k]
            == tempo_changes(old_events)[k] by {
            assert(events[k].ticks == old_events[k].ticks && events[k].bpm == old_events[k].bpm);
        }
    }
}

/// The planned offsets read only the ticks and bpms of the events.
proof fn lemma_planned_same(events: Seq<TempoEvent>, other: Seq<TempoEvent>, k: int, sample_rate: u64, resolution: u64)
    requires
        events.len() == other.len(),
        0 <= k < other.len(),
        forall|j: int| #![trigger events[j]] 0 <= j < other.len() ==> events[j].ticks == other[j].ticks
            && events[j].bpm == other[j].bpm,
    ensures
        planned_offset(events, k, sample_rate, resolution) == planned_offset(other, k, sample_rate, resolution),
    decreases k,
{
    if k > 0 {
        lemma_planned_same(events, other, k - 1, sample_rate, resolution);
        assert(events[k - 1].ticks == other[k - 1].ticks && events[k - 1].bpm == other[k - 1].bpm);
        assert(events[k].ticks == other[k].ticks);
    }
}

/// The first index whose event lies at `t` or later.
fn lower_bound_ticks(events: &Vec<TempoEvent>, t: i64) -> (index: usize)
    requires
        ticks_increasing(events@),
    ensures
        index <= events.len(),
        forall|j: int| 0 <= j < index ==> #[trigger] events@[j].ticks.0 < t,
        forall|j: int| index <= j < events.len() ==> #[trigger] events@[j].ticks.0 >= t,
{
    let mut lo: usize = 0;
    let mut hi: usize = events.len();
    while lo < hi
        invariant
            lo <= hi <= events.len(),
            ticks_increasing(events@),
            forall|j: int| 0 <= j < lo ==> #[trigger] events@[j].ticks.0 < t,
            forall|j: int| hi <= j < events.len() ==> #[trigger] events@[j].ticks.0 >= t,
        decreases hi - lo,
    {
        let mid = lo + (hi - lo) / 2;
        if events[mid].ticks.0 < t {
            assert forall|j: int| 0 <= j < mid + 1 implies #[trigger] events@[j].ticks.0 < t by {
                if j < mid {
                    assert(events@[j].ticks.0 < events@[mid as int].ticks.0);
                }
            }
            lo = mid + 1;
        } else {
            assert forall|j: int| mid <= j < events.len() implies #[trigger] events@[j].ticks.0 >= t by {
                if j > mid {
                    assert(events@[mid as int].ticks.0 < events@[j].ticks.0);
                }
            }
            hi = mid;
        }
    }
    lo
}

/// The number of events at `t` or before it.
fn partition_point_ticks(events: &Vec<TempoEvent>, t: i64) -> (index: usize)
    requires
        ticks_increasing(events@),
    ensures
        index <= events.len(),
        forall|j: int| 0 <= j < index ==> #[trigger] events@[j].ticks.0 <= t,
        forall|j: int| index <= j < events.len() ==> #[trigger] events@[j].ticks.0 > t,
{
    let mut lo: usize = 0;
    let mut hi: usize = events.len();
    while lo < hi
        invariant
            lo <= hi <= events.len(),
            ticks_increasing(events@),
            forall|j: int| 0 <= j < lo ==> #[trigger] events@[j].ticks.0 <= t,
            forall|j: int| hi <= j < events.len() ==> #[trigger] events@[j].ticks.0 > t,
        decreases hi - lo,
    {
        let mid = lo + (hi - lo) / 2;
        if events[mid].ticks.0 <= t {
            assert forall|j: int| 0 <= j < mid + 1 implies #[trigger] events@[j].ticks.0 <= t by {
                if j < mid {
                    assert(events@[j].ticks.0 < events@[mid as int].ticks.0);
                }
            }
            lo = mid + 1;
        } else {
            assert forall|j: int| mid <= j < events.len() implies #[trigger] events@[j].ticks.0 > t by {
                if j > mid {
                    assert(events@[mid as int].ticks.0 < events@[j].ticks.0);
                }
            }
            hi = mid;
        }
    }
    lo
}

/// The sample at which `cur` starts when `prev` is the event before it.
fn next_sample_offset(prev: &TempoEvent, cur: &TempoEvent, sample_rate: u64, resolution: u64) -> (offset: usize)
    requires
        prev.ticks.0 < cur.ticks.0,
        cur.ticks.0 - prev.ticks.0 <= i64::MAX,
        60 * (cur.ticks.0 - prev.ticks.0) * sample_rate <= u128::MAX,
        resolution > 0,
        prev.bpm > 0,
        prev.sample_offset + (section_samples(*prev, *cur, sample_rate, resolution) as usize) <= usize::MAX,
    ensures
        offset == prev.sample_offset + (section_samples(*prev, *cur, sample_rate, resolution) as usize),
{
    let tick_diff = (cur.ticks.0 - prev.ticks.0) as u128;
    let res = resolution as u128;
    let bpm = prev.bpm as u128;
    assert(res * bpm <= u128::MAX) by (nonlinear_arith)
        requires
            res <= u64::MAX,
            bpm <= u64::MAX,
    ;
    assert(res * bpm > 0) by (nonlinear_arith)
        requires
            res > 0,
            bpm > 0,
    ;
    // Calculate as u128 to avoid wrapping around to avoid calculation error
    // when the ticks difference is large enough
    let samples = (60u128 * tick_diff * (sample_rate as u128)) / (res * bpm);
    prev.sample_offset + samples as usize
}

/// The tick of an event falls on the event's own sample offset.
pub proof fn lemma_event_tick_falls_on_its_offset(events: Seq<TempoEvent>, i: int)
    requires
        ticks_increasing(events),
        0 <= i < events.len(),
    ensures
        spec_ticks_to_samples(events, events[i].ticks) == events[i].sample_offset,
{
    let t = events[i].ticks.0;
    assert(splits_after(events, t, i + 1)) by {
        assert forall|j: int| 0 <= j < i + 1 implies #[trigger] events[j].ticks.0 <= t by {
            if j < i {
                assert(events[j].ticks.0 < events[i].ticks.0);
            }
        }
        assert forall|j: int| i + 1 <= j < events.len() implies #[trigger] events[j].ticks.0 > t by {
            assert(events[i].ticks.0 < events[j].ticks.0);
        }
    }
    lemma_governing_index(events, t, i + 1);
    if i > 0 {
        assert(events[0].ticks.0 < events[i].ticks.0);
    }
}

/// Every factor is stored without being cut to 64 bits, and every section's
/// sample count without being cut to the machine word.
pub open spec fn no_truncation(events: Seq<TempoEvent>, sample_rate: u64, resolution: u64) -> bool {
    &&& forall|i: int|
        0 <= i < events.len() ==> (60 * sample_rate * (crate::mixer::FACTOR_SCALE as int)) / (resolution
            * #[trigger] events[i].bpm) <= u64::MAX
    &&& forall|i: int|
        0 < i < events.len() ==> section_samples(events[i - 1], #[trigger] events[i], sample_rate, resolution)
            <= usize::MAX
}

/// The samples that `t` lies past the event `e`, before they are cut to the machine word.
pub open spec fn elapsed_samples(e: TempoEvent, t: Ticks) -> int {
    ((t.0 - e.ticks.0) * e.factor()) / (crate::mixer::FACTOR_SCALE as int)
}

proof fn lemma_governing_monotone(events: Seq<TempoEvent>, t1: i64, t2: i64)
    requires
        ticks_increasing(events),
        events.len() > 0,
        t1 <= t2,
    ensures
        governing_index(events, t1) <= governing_index(events, t2),
        0 <= governing_index(events, t1) < events.len(),
        0 <= governing_index(events, t2) < events.len(),
        t1 >= events[0].ticks.0 ==> events[governing_index(events, t1)].ticks.0 <= t1,
        governing_index(events, t1) + 1 < events.len() ==> t1 < events[governing_index(events, t1) + 1].ticks.0,
        t2 >= events[0].ticks.0 ==> events[governing_index(events, t2)].ticks.0 <= t2,
{
    lemma_split_after_exists(events, t1);
    lemma_split_after_exists(events, t2);
    let p1 = choose|p: int| #[trigger] splits_after(events, t1, p);
    let p2 = choose|p: int| #[trigger] splits_after(events, t2, p);
    lemma_governing_index(events, t1, p1);
    lemma_governing_index(events, t2, p2);
    if p1 > p2 {
        assert(events[p2].ticks.0 <= t1);
        assert(events[p2].ticks.0 > t2);
    }
    if t1 >= events[0].ticks.0 && p1 == 0 {
        assert(events[0].ticks.0 > t1);
    }
    if t2 >= events[0].ticks.0 && p2 == 0 {
        assert(events[0].ticks.0 > t2);
    }
    if p1 == 0 && events.len() > 1 {
        assert(events[0].ticks.0 < events[1].ticks.0);
    }
}

/// Sorted events split at some index after any tick.
proof fn lemma_split_after_exists(events: Seq<TempoEvent>, t: i64)
    requires
        ticks_increasing(events),
    ensures
        exists|p: int| #[trigger] splits_after(events, t, p),
    decreases events.len(),
{
    if events.len() == 0 {
        assert(splits_after(events, t, 0));
    } else {
        let rest = events.drop_last();
        assert(ticks_increasing(rest)) by {
            assert forall|i: int, j: int| 0 <= i < j < rest.len() implies #[trigger] rest[i].ticks.0
                < #[trigger] rest[j].ticks.0 by {
                assert(rest[i] == events[i] && rest[j] == events[j]);
            }
        }
        lemma_split_after_exists(rest, t);
        let p = choose|p: int| #[trigger] splits_after(rest, t, p);
        if events.last().ticks.0 <= t {
            assert(splits_after(events, t, events.len() as int)) by {
                assert forall|j: int| 0 <= j < events.len() implies #[trigger] events[j].ticks.0 <= t by {
                    if j < events.len() - 1 {
                        assert(events[j].ticks.0 < events[events.len() - 1].ticks.0);
                    }
                }
            }
        } else {
            assert(splits_after(events, t, p)) by {
                assert forall|j: int| p <= j < events.len() implies #[trigger] events[j].ticks.0 > t by {
                    if j < events.len() - 1 {
                        assert(events[j] == rest[j]);
                    }
                }
                assert forall|j: int| 0 <= j < p implies #[trigger] events[j].ticks.0 <= t by {
                    assert(events[j] == rest[j]);
                }
            }
        }
    }
}

/// In a prepared tempo map the events start in the order of their ticks: a
/// later event never starts at an earlier sample.
pub proof fn lemma_offsets_nondecreasing(events: Seq<TempoEvent>, sample_rate: u64, resolution: u64, i: int, j: int)
    requires
        offsets_consistent(events, sample_rate, resolution),
        0 <= i <= j < events.len(),
    ensures
        events[i].sample_offset <= events[j].sample_offset,
    decreases j - i,
{
    if i < j {
        lemma_offsets_nondecreasing(events, sample_rate, resolution, i, j - 1);
        assert(offset_ok(events, j, sample_rate, resolution));
    }
}

/// The samples counted with the truncated factor over part of a section never
/// exceed the samples of the whole section.
proof fn lemma_partial_section(r: int, d: int, sample_rate: int, resolution: int, bpm: int)
    requires
        0 <= r <= d,
        sample_rate >= 0,
        resolution > 0,
        bpm > 0,
    ensures
        (r * ((60 * sample_rate * (crate::mixer::FACTOR_SCALE as int)) / (resolution * bpm)))
            / (crate::mixer::FACTOR_SCALE as int) <= (60 * d * sample_rate) / (resolution * bpm),
{
    let s = crate::mixer::FACTOR_SCALE as int;
    let a = 60 * sample_rate * s;
    let b = resolution * bpm;
    assert(b > 0) by (nonlinear_arith)
        requires
            b == resolution * bpm,
            resolution > 0,
            bpm > 0,
    ;
    assert(a >= 0) by (nonlinear_arith)
        requires
            a == 60 * sample_rate * s,
            sample_rate >= 0,
            s > 0,
    ;
    let q = a / b;
    assert(q * b <= a) by (nonlinear_arith)
        requires
            b > 0,
            q == a / b,
    ;
    assert(q >= 0) by (nonlinear_arith)
        requires
            a >= 0,
            b > 0,
            q == a / b,
    ;
    let y = (r * q) / s;
    assert(y * s <= r * q) by (nonlinear_arith)
        requires
            s > 0,
            y == (r * q) / s,
    ;
    assert(r * q * b <= r * a) by (nonlinear_arith)
        requires
            r >= 0,
            q * b <= a,
    ;
    assert(y * b * s <= r * q * b) by (nonlinear_arith)
        requires
            y * s <= r * q,
            b > 0,
    ;
    assert(r * a <= d * 60 * sample_rate * s) by (nonlinear_arith)
        requires
            r <= d,
            a == 60 * sample_rate * s,
            sample_rate >= 0,
            s > 0,
    ;
    assert(y * b <= 60 * d * sample_rate) by (nonlinear_arith)
        requires
            y * b * s <= d * 60 * sample_rate * s,
            s > 0,
    ;
    assert(y <= (60 * d * sample_rate) / b) by (nonlinear_arith)
        requires
            y * b <= 60 * d * sample_rate,
            b > 0,
    ;
}

/// Converting ticks to samples never runs backwards: a later tick falls on
/// the same sample or a later one, as long as no factor, section or elapsed
/// sample count is cut to fit its machine type.
pub proof fn lemma_ticks_to_samples_monotone(
    events: Seq<TempoEvent>,
    sample_rate: u64,
    resolution: u64,
    t1: Ticks,
    t2: Ticks,
)
    requires
        ticks_increasing(events),
        offsets_computable(events, sample_rate, resolution),
        offsets_consistent(events, sample_rate, resolution),
        no_truncation(events, sample_rate, resolution),
        events.len() > 0 && t2.0 >= events[0].ticks.0 ==> elapsed_samples(
            events[governing_index(events, t2.0)],
            t2,
        ) <= usize::MAX,
        t1.0 <= t2.0,
    ensures
        spec_ticks_to_samples(events, t1) <= spec_ticks_to_samples(events, t2),
{
    if events.len() == 0 || t1.0 < events[0].ticks.0 {
        return;
    }
    lemma_governing_monotone(events, t1.0, t2.0);
    let g1 = governing_index(events, t1.0);
    let g2 = governing_index(events, t2.0);
    let e1 = events[g1];
    let e2 = events[g2];
    let s = crate::mixer::FACTOR_SCALE as int;
    assert(e1.factor() == spec_samples_per_tick_fp(sample_rate, resolution, e1.bpm)) by {
        assert(offset_ok(events, g1, sample_rate, resolution));
    }
    assert(e2.factor() == spec_samples_per_tick_fp(sample_rate, resolution, e2.bpm)) by {
        assert(offset_ok(events, g2, sample_rate, resolution));
    }
    assert(e1.bpm > 0);
    // the elapsed samples at t2 are not negative
    if t2.0 > e2.ticks.0 {
        assert((t2.0 - e2.ticks.0) * e2.factor() >= 0) by (nonlinear_arith)
            requires
                t2.0 - e2.ticks.0 > 0,
                e2.factor() >= 0,
        ;
        assert(elapsed_samples(e2, t2) >= 0);
    }
    if g1 == g2 {
        if t1.0 > e1.ticks.0 {
            let r1 = t1.0 - e1.ticks.0;
            let r2 = t2.0 - e1.ticks.0;
            assert(r1 * e1.factor() <= r2 * e1.factor()) by (nonlinear_arith)
                requires
                    r1 <= r2,
                    e1.factor() >= 0,
            ;
            assert(r1 * e1.factor() >= 0) by (nonlinear_arith)
                requires
                    r1 > 0,
                    e1.factor() >= 0,
            ;
            vstd::arithmetic::div_mod::lemma_div_is_ordered(r1 * e1.factor(), r2 * e1.factor(), s);
        }
    } else {
        // t1 lies in the section of g1, which ends where the event g1 + 1 starts
        let next = events[g1 + 1];
        assert(offset_ok(events, g1 + 1, sample_rate, resolution));
        let d = next.ticks.0 - e1.ticks.0;
        assert(section_samples(e1, next, sample_rate, resolution) <= usize::MAX);
        assert(resolution * e1.bpm > 0) by (nonlinear_arith)
            requires
                resolution > 0,
                e1.bpm > 0,
        ;
        assert((60 * sample_rate * s) / (resolution * e1.bpm) <= u64::MAX);
        assert(e1.factor() == (60 * sample_rate * s) / (resolution * e1.bpm));
        if t1.0 > e1.ticks.0 {
            lemma_partial_section(t1.0 - e1.ticks.0, d, sample_rate as int, resolution as int, e1.bpm as int);
            assert((t1.0 - e1.ticks.0) * e1.factor() >= 0) by (nonlinear_arith)
                requires
                    t1.0 - e1.ticks.0 > 0,
                    e1.factor() >= 0,
            ;
            assert(elapsed_samples(e1, t1) >= 0);
            assert(elapsed_samples(e1, t1) <= section_samples(e1, next, sample_rate, resolution));
        }
        assert((60 * d * sample_rate) >= 0) by (nonlinear_arith)
            requires
                d > 0,
                sample_rate >= 0,
        ;
        assert((60 * d * sample_rate) / (resolution * e1.bpm) >= 0) by (nonlinear_arith)
            requires
                60 * d * sample_rate >= 0,
                resolution * e1.bpm > 0,
        ;
        lemma_offsets_nondecreasing(events, sample_rate, resolution, g1 + 1, g2);
    }
}

/// A stretch `[start_sample, end_sample)` of global samples inside which the
/// tempo event `event_index` applies.
#[derive(Clone, Copy, Debug, PartialEq, Eq, Structural)]
pub struct SectionBounds {
    pub start_sample: usize,
    pub end_sample: usize,
    pub event_index: usize,
}

/// The sample at which the event after `i` starts, or the largest sample for the last event.
pub open spec fn next_event_sample(events: Seq<TempoEvent>, i: int) -> int {
    if i + 1 < events.len() {
        events[i + 1].sample_offset as int
    } else {
        usize::MAX as int
    }
}

/// The sections cut `[start, end)` into consecutive, non-empty stretches, in
/// the order of their events, each inside the span of its event.
pub open spec fn sections_tile(events: Seq<TempoEvent>, sections: Seq<SectionBounds>, start: int, end: int) -> bool {
    &&& sections.len() > 0
    &&& sections[0].start_sample == start
    &&& sections[sections.len() - 1].end_sample == end
    &&& forall|k: int| 0 <= k < sections.len() - 1 ==> #[trigger] sections[k].end_sample == sections[k + 1].start_sample
    &&& forall|k: int| 0 <= k < sections.len() - 1 ==> #[trigger] sections[k].event_index < sections[k + 1].event_index
    &&& forall|k: int|
        0 <= k < sections.len() ==> {
            &&& #[trigger] sections[k].start_sample < sections[k].end_sample
            &&& sections[k].event_index < events.len()
            &&& events[sections[k].event_index as int].sample_offset <= sections[k].start_sample
            &&& sections[k].end_sample <= next_event_sample(events, sections[k].event_index as int)
        }
}

/// The tempo changes of a project, and where in samples each one starts.
#[derive(Clone)]
pub struct TempoMap {
    /// The tempo events in the tempo map, sorted by their ticks.
    events: Vec<TempoEvent>,
    audio_ctx: AudioContext,
    playback_ctx: Option<PlaybackContext>,
}

impl TempoMap {
    pub closed spec fn events_view(&self) -> Seq<TempoEvent> {
        self.events@
    }

    pub closed spec fn audio_ctx_view(&self) -> AudioContext {
        self.audio_ctx
    }

    pub closed spec fn playback_view(&self) -> Option<PlaybackContext> {
        self.playback_ctx
    }

    /// The events are ordered by tick; once the map is prepared for playback,
    /// their sample offsets and factors agree with the ticks and bpms.
    pub open spec fn wf(&self) -> bool {
        &&& ticks_increasing(self.events_view())
        &&& self.playback_view() matches Some(ctx) ==> {
            &&& offsets_computable(self.events_view(), ctx.sample_rate, self.audio_ctx_view().resolution)
            &&& offsets_consistent(self.events_view(), ctx.sample_rate, self.audio_ctx_view().resolution)
        }
    }

    // --- NEW ---
    /// Creates a new TempoMap with one event at tick zero.
    pub fn new(audio_ctx: AudioContext, initial_bpm: u64) -> (map: Self)
        ensures
            map.wf(),
            tempo_changes(map.events_view()) == seq![(Ticks(0), initial_bpm)],
            map.events_view()[0].sample_offset == 0,
            map.audio_ctx_view() == audio_ctx,
            map.playback_view() is None,
    {
        let mut events: Vec<TempoEvent> = Vec::new();
        events.push(TempoEvent::new(Ticks(0), initial_bpm, 0));
        let map = Self { events, audio_ctx, playback_ctx: None };
        assert(tempo_changes(map.events_view()) =~= seq![(Ticks(0), initial_bpm)]);
        map
    }

    /// The tempo events, ordered by tick.
    pub fn events(&self) -> (events: &Vec<TempoEvent>)
        ensures
            events@ == self.events_view(),
    {
        &self.events
    }

    pub fn audio_ctx(&self) -> (ctx: AudioContext)
        ensures
            ctx == self.audio_ctx_view(),
    {
        self.audio_ctx
    }

    pub fn playback_ctx(&self) -> (ctx: Option<PlaybackContext>)
        ensures
            ctx == self.playback_view(),
    {
        self.playback_ctx
    }

    // --- AUDIO CONTEXT ---
    /// Sets the audio context to the new one and calculate the sample offsets of all events in the TempoMap.
    pub fn set_audio_ctx(&mut self, audio_ctx: AudioContext)
        requires
            old(self).wf(),
            old(self).playback_view() matches Some(ctx) ==> offsets_computable(
                old(self).events_view(),
                ctx.sample_rate,
                audio_ctx.resolution,
            ),
        ensures
            final(self).wf(),
            final(self).audio_ctx_view() == audio_ctx,
            final(self).playback_view() == old(self).playback_view(),
            tempo_changes(final(self).events_view()) == tempo_changes(old(self).events_view()),
            old(self).playback_view() is None ==> final(self).events_view() == old(self).events_view(),
    {
        self.audio_ctx = audio_ctx;
        self.calculate_sample_offsets(0);
    }

    // --- PREPARATION ---
    /// Sets the playback context to the new one and calculate the sample offsets of all events in the TempoMap.
    pub fn prepare(&mut self, playback_ctx: PlaybackContext)
        requires
            old(self).wf(),
            offsets_computable(
                old(self).events_view(),
                playback_ctx.sample_rate,
                old(self).audio_ctx_view().resolution,
            ),
        ensures
            final(self).wf(),
            final(self).playback_view() == Some(playback_ctx),
            final(self).audio_ctx_view() == old(self).audio_ctx_view(),
            tempo_changes(final(self).events_view()) == tempo_changes(old(self).events_view()),
    {
        self.playback_ctx = Some(playback_ctx);
        self.calculate_sample_offsets(0);
    }

    // --- TEMPO EVENT MANAGEMENT ---
    /// Adds a new tempo event to the tempo map, preserving the order of events.
    /// An event at the same tick as the new one is replaced by it.
    pub fn add_event(&mut self, event: TempoEvent)
        requires
            old(self).wf(),
            old(self).playback_view() matches Some(ctx) ==> offsets_computable(
                spec_with_event(old(self).events_view(), event),
                ctx.sample_rate,
                old(self).audio_ctx_view().resolution,
            ),
        ensures
            final(self).wf(),
            tempo_changes(final(self).events_view()) == tempo_changes(
                spec_with_event(old(self).events_view(), event),
            ),
            old(self).playback_view() is None ==> final(self).events_view() == spec_with_event(
                old(self).events_view(),
                event,
            ),
            final(self).audio_ctx_view() == old(self).audio_ctx_view(),
            final(self).playback_view() == old(self).playback_view(),
    {
        let ghost old_events = self.events@;
        // Insert the event while preserving the order
        let index = lower_bound_ticks(&self.events, event.ticks.0);
        proof {
            lemma_insertion_index(old_events, event.ticks.0, index as int);
        }
        if index < self.events.len() && self.events[index].ticks.0 == event.ticks.0 {
            // Overwrite the old event if the event with the same tick exists
            self.events.set(index, event);
        } else {
            self.events.insert(index, event);
        }
        assert(self.events@ == spec_with_event(old_events, event));
        proof {
            lemma_with_event_increasing(old_events, event);
        }
        // Calculate the sample offsets of the events after the modified index
        proof {
            assert forall|i: int| 0 <= i < index implies #[trigger] self.events@[i] == old_events[i] by {}
            if let Some(ctx) = self.playback_ctx {
                lemma_prefix_kept(old_events, self.events@, index as int, ctx.sample_rate, self.audio_ctx.resolution);
            }
        }
        self.calculate_sample_offsets(index);
    }

    /// Removes the tempo event from the tempo map. The first event, and the
    /// only event of the map, are never removed.
    pub fn remove_event(&mut self, index: usize)
        requires
            old(self).wf(),
            index != 0 && old(self).events_view().len() > 1 ==> index < old(self).events_view().len(),
            index != 0 && old(self).events_view().len() > 1 ==> (old(self).playback_view() matches Some(ctx)
                ==> offsets_computable(
                old(self).events_view().remove(index as int),
                ctx.sample_rate,
                old(self).audio_ctx_view().resolution,
            )),
        ensures
            final(self).wf(),
            index == 0 || old(self).events_view().len() <= 1 ==> final(self).events_view() == old(self).events_view(),
            index != 0 && old(self).events_view().len() > 1 ==> tempo_changes(final(self).events_view())
                == tempo_changes(old(self).events_view().remove(index as int)),
            old(self).playback_view() is None ==> (index != 0 && old(self).events_view().len() > 1
                ==> final(self).events_view() == old(self).events_view().remove(index as int)),
            final(self).audio_ctx_view() == old(self).audio_ctx_view(),
            final(self).playback_view() == old(self).playback_view(),
    {
        // Cannot remove the event at the first position
        if index == 0 {
            return;
        }
        // Ensure that the TempoMap has at least one event
        if self.events.len() > 1 {
            let ghost old_events = self.events@;
            // Remove the event in the index
            self.events.remove(index);
            assert(ticks_increasing(self.events@)) by {
                assert forall|i: int, j: int| 0 <= i < j < self.events@.len() implies #[trigger] self.events@[i].ticks.0
                    < #[trigger] self.events@[j].ticks.0 by {
                    let i2 = if i < index { i } else { i + 1 };
                    let j2 = if j < index { j } else { j + 1 };
                    assert(self.events@[i] == old_events[i2] && self.events@[j] == old_events[j2]);
                }
            }
            proof {
                assert forall|i: int| 0 <= i < index implies #[trigger] self.events@[i] == old_events[i] by {}
                if let Some(ctx) = self.playback_ctx {
                    lemma_prefix_kept(old_events, self.events@, index as int, ctx.sample_rate, self.audio_ctx.resolution);
                }
            }
            // Calculate the sample offsets of the events after the removed index
            self.calculate_sample_offsets(index);
        }
    }

    /// Change the BPM of the event in the specified index.
    pub fn change_bpm(&mut self, index: usize, bpm: u64)
        requires
            old(self).wf(),
            index < old(self).events_view().len() ==> (old(self).playback_view() matches Some(ctx)
                ==> offsets_computable(
                old(self).events_view().update(
                    index as int,
                    TempoEvent { bpm, ..old(self).events_view()[index as int] },
                ),
                ctx.sample_rate,
                old(self).audio_ctx_view().resolution,
            )),
        ensures
            final(self).wf(),
            index >= old(self).events_view().len() ==> final(self).events_view() == old(self).events_view(),
            index < old(self).events_view().len() ==> tempo_changes(final(self).events_view())
                == tempo_changes(old(self).events_view()).update(
                index as int,
                (old(self).events_view()[index as int].ticks, bpm),
            ),
            old(self).playback_view() is None ==> (index < old(self).events_view().len()
                ==> final(self).events_view() == old(self).events_view().update(
                index as int,
                TempoEvent { bpm, ..old(self).events_view()[index as int] },
            )),
            final(self).audio_ctx_view() == old(self).audio_ctx_view(),
            final(self).playback_view() == old(self).playback_view(),
    {
        if index >= self.events.len() {
            return;
        }
        let ghost old_events = self.events@;
        // Update the bpm
        let mut event = self.events[index];
        event.bpm = bpm;
        self.events.set(index, event);
        assert(self.events@ == old_events.update(index as int, TempoEvent { bpm, ..old_events[index as int] }));
        assert(ticks_increasing(self.events@)) by {
            assert forall|i: int, j: int| 0 <= i < j < self.events@.len() implies #[trigger] self.events@[i].ticks.0
                < #[trigger] self.events@[j].ticks.0 by {
                assert(self.events@[i].ticks == old_events[i].ticks && self.events@[j].ticks == old_events[j].ticks);
            }
        }
        proof {
            assert forall|i: int| 0 <= i < index implies #[trigger] self.events@[i] == old_events[i] by {}
            if let Some(ctx) = self.playback_ctx {
                lemma_prefix_kept(old_events, self.events@, index as int, ctx.sample_rate, self.audio_ctx.resolution);
            }
            assert(tempo_changes(self.events@) =~= tempo_changes(old_events).update(
                index as int,
                (old_events[index as int].ticks, bpm),
            ));
        }
        // Calculate the sample offsets of the events after the event
        self.calculate_sample_offsets(index);
    }

    // --- OFFSET CALCULATION ---
    /// Recalculates the offsets of the events after the given index,
    /// storing the results in the events vector.
    fn calculate_sample_offsets(&mut self, after_index: usize)
        requires
            ticks_increasing(old(self).events@),
            old(self).playback_ctx matches Some(ctx) ==> {
                &&& offsets_computable(old(self).events@, ctx.sample_rate, old(self).audio_ctx.resolution)
                &&& forall|i: int|
                    0 <= i < after_index && i < old(self).events@.len() ==> #[trigger] offset_ok(
                        old(self).events@,
                        i,
                        ctx.sample_rate,
                        old(self).audio_ctx.resolution,
                    )
            },
        ensures
            final(self).wf(),
            final(self).audio_ctx == old(self).audio_ctx,
            final(self).playback_ctx == old(self).playback_ctx,
            tempo_changes(final(self).events@) == tempo_changes(old(self).events@),
            old(self).playback_ctx is None ==> final(self).events@ == old(self).events@,
    {
        let ghost old_events = self.events@;
        let sample_rate = match self.playback_ctx {
            Some(ctx) => ctx.sample_rate,
            None => {
                return;
            },
        };
        let resolution = self.audio_ctx.resolution;
        proof {
            lemma_consistent_prefix_planned(
                old_events,
                if after_index <= old_events.len() { after_index as int } else { old_events.len() as int },
                sample_rate,
                resolution,
            );
        }
        let mut i: usize = after_index;
        while i < self.events.len()
            invariant
                self.events.len() == old_events.len(),
                self.audio_ctx == old(self).audio_ctx,
                self.playback_ctx == old(self).playback_ctx,
                resolution == self.audio_ctx.resolution,
                self.playback_ctx matches Some(ctx) && ctx.sample_rate == sample_rate,
                offsets_computable(old_events, sample_rate, resolution),
                ticks_increasing(old_events),
                after_index <= i || i >= self.events.len(),
                forall|k: int| #![trigger self.events@[k]] 0 <= k < self.events.len() ==> self.events@[k].ticks == old_events[k].ticks
                    && self.events@[k].bpm == old_events[k].bpm,
                forall|k: int| #![trigger self.events@[k]] 0 <= k < i && k < self.events.len() ==> self.events@[k].sample_offset
                    == planned_offset(old_events, k, sample_rate, resolution),
                forall|k: int| 0 <= k < i && k < self.events.len() ==> #[trigger] offset_ok(self.events@, k, sample_rate, resolution),
            decreases self.events.len() - i,
        {
            let ghost before = self.events@;
            if i == 0 {
                self.events[i].sample_offset = 0;
            } else {
                assert(old_events[i as int].ticks.0 > old_events[i - 1].ticks.0);
                assert(step_computable(old_events, i as int, sample_rate, resolution));
                assert(self.events@[i - 1].sample_offset == planned_offset(old_events, i - 1, sample_rate, resolution));
                assert(self.events@[i as int].ticks == old_events[i as int].ticks);
                assert(self.events@[i - 1].ticks == old_events[i - 1].ticks && self.events@[i - 1].bpm == old_events[i - 1].bpm);
                let offset = next_sample_offset(&self.events[i - 1], &self.events[i], sample_rate, resolution);
                self.events[i].sample_offset = offset;
            }
            // Sync the fixed-point factor used by ticks_to_samples
            assert(resolution * self.events@[i as int].bpm > 0) by (nonlinear_arith)
                requires
                    resolution > 0,
                    self.events@[i as int].bpm > 0,
            ;
            self.events[i].update_factor(sample_rate, resolution);
            assert forall|k: int| 0 <= k < i && k < self.events.len() implies #[trigger] offset_ok(self.events@, k, sample_rate, resolution) by {
                assert(offset_ok(before, k, sample_rate, resolution));
                assert(self.events@[k] == before[k]);
                if k > 0 {
                    assert(self.events@[k - 1] == before[k - 1]);
                }
            }
            assert forall|k: int| 0 <= k < i && k < self.events.len() implies #[trigger] self.events@[k] == before[k] by {}
            i = i + 1;
        }
        proof {
            lemma_recalculated(old_events, self.events@, sample_rate, resolution);
        }
    }

    /// The index of the last event that starts at or before `samples`, or of
    /// the first event when none does.
    pub fn event_index_at_sample(&self, samples: usize) -> (index: usize)
        requires
            self.wf(),
        ensures
            self.events_view().len() == 0 ==> index == 0,
            self.events_view().len() > 0 ==> index < self.events_view().len(),
            self.events_view().len() > 0 && self.playback_view() is Some ==> {
                &&& index == 0 || self.events_view()[index as int].sample_offset <= samples
                &&& forall|j: int|
                    index < j < self.events_view().len() ==> #[trigger] self.events_view()[j].sample_offset > samples
            },
    {
        let ghost events = self.events@;
        let len = self.events.len();
        let ghost sorted = self.playback_ctx is Some;
        proof {
            if sorted {
                let ctx = self.playback_ctx->Some_0;
                assert forall|i: int, j: int| 0 <= i <= j < len implies #[trigger] events[i].sample_offset
                    <= #[trigger] events[j].sample_offset by {
                    lemma_offsets_nondecreasing(events, ctx.sample_rate, self.audio_ctx.resolution, i, j);
                }
            }
        }
        let mut lo: usize = 0;
        let mut hi: usize = len;
        while lo < hi
            invariant
                lo <= hi <= len,
                len == events.len(),
                events == self.events@,
                sorted ==> forall|i: int, j: int| 0 <= i <= j < len ==> #[trigger] events[i].sample_offset
                    <= #[trigger] events[j].sample_offset,
                sorted ==> forall|j: int| 0 <= j < lo ==> #[trigger] events[j].sample_offset <= samples,
                sorted ==> forall|j: int| hi <= j < len ==> #[trigger] events[j].sample_offset > samples,
            decreases hi - lo,
        {
            let mid = lo + (hi - lo) / 2;
            if self.events[mid].sample_offset <= samples {
                proof {
                    if sorted {
                        assert forall|j: int| 0 <= j < mid + 1 implies #[trigger] events[j].sample_offset <= samples by {
                            assert(events[j].sample_offset <= events[mid as int].sample_offset);
                        }
                    }
                }
                lo = mid + 1;
            } else {
                proof {
                    if sorted {
                        assert forall|j: int| mid <= j < len implies #[trigger] events[j].sample_offset > samples by {
                            assert(events[mid as int].sample_offset <= events[j].sample_offset);
                        }
                    }
                }
                hi = mid;
            }
        }
        if lo > 0 {
            lo - 1
        } else {
            0
        }
    }

    // --- SECTION CALCULATION ---
    /// The stretches of `[start_sample, end_sample)` that are separated by
    /// tempo changes, with the event that applies in each. There are none when
    /// the range is empty, the map has no events or it is not prepared.
    pub fn section_bounds_in_range(&self, start_sample: usize, end_sample: usize) -> (sections: Vec<SectionBounds>)
        requires
            self.wf(),
        ensures
            start_sample >= end_sample || self.events_view().len() == 0 || self.playback_view() is None
                ==> sections@.len() == 0,
            start_sample < end_sample && self.events_view().len() > 0 && self.playback_view() is Some
                ==> sections_tile(self.events_view(), sections@, start_sample as int, end_sample as int),
    {
        let mut sections: Vec<SectionBounds> = Vec::new();
        if start_sample >= end_sample || self.events.len() == 0 {
            return sections;
        }
        let sample_rate = match self.playback_ctx {
            Some(ctx) => ctx.sample_rate,
            None => {
                return sections;
            },
        };
        let ghost events = self.events@;
        let len = self.events.len();
        proof {
            let res = self.audio_ctx.resolution;
            assert forall|i: int, j: int| 0 <= i <= j < len implies #[trigger] events[i].sample_offset
                <= #[trigger] events[j].sample_offset by {
                lemma_offsets_nondecreasing(events, sample_rate, res, i, j);
            }
            assert(offset_ok(events, 0, sample_rate, res));
        }
        // Calculate where to start iterating over the tempo events: the last one starting at or before the start
        let start_index = self.event_index_at_sample(start_sample);
        let mut current_sample = start_sample;
        let mut i = start_index;
        // Loop over the tempo change events and create sections based on the tempo changes
        while i < len && current_sample < end_sample
            invariant
                len == events.len(),
                events == self.events@,
                start_index <= i <= len,
                start_index < len,
                start_sample <= current_sample <= end_sample,
                current_sample < end_sample && i < len ==> events[i as int].sample_offset <= current_sample,
                i == len ==> current_sample == end_sample,
                sections@.len() == 0 ==> current_sample == start_sample,
                sections@.len() > 0 ==> sections@[0].start_sample == start_sample && sections@[sections@.len()
                    - 1].end_sample == current_sample && sections@[sections@.len() - 1].event_index < i,
                forall|k: int|
                    0 <= k < sections@.len() - 1 ==> #[trigger] sections@[k].end_sample == sections@[k + 1].start_sample,
                forall|k: int|
                    0 <= k < sections@.len() - 1 ==> #[trigger] sections@[k].event_index < sections@[k + 1].event_index,
                forall|k: int|
                    0 <= k < sections@.len() ==> {
                        &&& #[trigger] sections@[k].start_sample < sections@[k].end_sample
                        &&& sections@[k].event_index < len
                        &&& events[sections@[k].event_index as int].sample_offset <= sections@[k].start_sample
                        &&& sections@[k].end_sample <= next_event_sample(events, sections@[k].event_index as int)
                    },
            decreases len - i,
        {
            let next_start = if i + 1 < len {
                self.events[i + 1].sample_offset
            } else {
                usize::MAX
            };
            // Clamp the section end to the end_sample to avoid going beyond the requested range
            let section_end = if next_start < end_sample {
                next_start
            } else {
                end_sample
            };
            let ghost before = sections@;
            if current_sample < section_end {
                sections.push(SectionBounds { start_sample: current_sample, end_sample: section_end, event_index: i });
                current_sample = section_end;
                assert forall|k: int| 0 <= k < sections@.len() - 1 implies #[trigger] sections@[k].end_sample
                    == sections@[k + 1].start_sample by {
                    if k < before.len() - 1 {
                        assert(sections@[k] == before[k] && sections@[k + 1] == before[k + 1]);
                    }
                }
                assert forall|k: int| 0 <= k < sections@.len() - 1 implies #[trigger] sections@[k].event_index
                    < sections@[k + 1].event_index by {
                    if k < before.len() - 1 {
                        assert(sections@[k] == before[k] && sections@[k + 1] == before[k + 1]);
                    }
                }
                assert forall|k: int| 0 <= k < sections@.len() implies {
                    &&& #[trigger] sections@[k].start_sample < sections@[k].end_sample
                    &&& sections@[k].event_index < len
                    &&& events[sections@[k].event_index as int].sample_offset <= sections@[k].start_sample
                    &&& sections@[k].end_sample <= next_event_sample(events, sections@[k].event_index as int)
                } by {
                    if k < before.len() {
                        assert(sections@[k] == before[k]);
                    }
                }
            }
            i = i + 1;
        }
        sections
    }

    // --- TICKS CONVERSION ---
    /// Convert the Ticks to samples using the tempo map.
    pub fn ticks_to_samples(&self, ticks: Ticks) -> (samples: usize)
        requires
            self.wf(),
            self.events_view().len() == 0 || self.events_view()[0].ticks.0 == 0,
            self.events_view().len() > 0 && ticks.0 >= self.events_view()[0].ticks.0 ==> {
                let e = self.events_view()[governing_index(self.events_view(), ticks.0)];
                &&& ticks.0 > e.ticks.0 ==> ticks.0 - e.ticks.0 <= i64::MAX
                &&& spec_event_ticks_to_samples(e, ticks) <= usize::MAX
            },
        ensures
            samples == spec_ticks_to_samples(self.events_view(), ticks),
    {
        if self.events.len() == 0 || ticks.0 < self.events[0].ticks.0 {
            return 0;
        }
        let p = partition_point_ticks(&self.events, ticks.0);
        proof {
            lemma_governing_index(self.events@, ticks.0, p as int);
        }
        let idx = if p > 0 {
            p - 1
        } else {
            0
        };
        self.events[idx].ticks_to_samples(ticks)
    }

    /// The conversion of `ticks` to samples can be carried out: the first
    /// event sits at tick zero, and the sample that `ticks` falls on is
    /// computed without overflow.
    pub open spec fn converts(&self, ticks: Ticks) -> bool {
        &&& self.events_view().len() == 0 || self.events_view()[0].ticks.0 == 0
        &&& self.events_view().len() > 0 && ticks.0 >= self.events_view()[0].ticks.0 ==> {
            let e = self.events_view()[governing_index(self.events_view(), ticks.0)];
            &&& ticks.0 > e.ticks.0 ==> ticks.0 - e.ticks.0 <= i64::MAX
            &&& spec_event_ticks_to_samples(e, ticks) <= usize::MAX
        }
    }

    /// The sample that `ticks` falls on, where the conversion can be carried
    /// out, and `None` where the first event is not at tick zero or the sample
    /// would not be computed without overflow.
    pub fn checked_ticks_to_samples(&self, ticks: Ticks) -> (samples: Option<usize>)
        requires
            self.wf(),
        ensures
            samples is Some <==> self.converts(ticks),
            samples matches Some(s) ==> s == spec_ticks_to_samples(self.events_view(), ticks),
    {
        if self.events.len() > 0 && self.events[0].ticks.0 != 0 {
            return None;
        }
        if self.events.len() == 0 || ticks.0 < self.events[0].ticks.0 {
            return Some(self.ticks_to_samples(ticks));
        }
        let p = partition_point_ticks(&self.events, ticks.0);
        proof {
            lemma_governing_index(self.events@, ticks.0, p as int);
        }
        let idx = if p > 0 {
            p - 1
        } else {
            0
        };
        let e = self.events[idx];
        if ticks.0 > e.ticks.0 {
            let diff: i128 = ticks.0 as i128 - e.ticks.0 as i128;
            if diff > i64::MAX as i128 {
                return None;
            }
            let rt = diff as u128;
            let fp = e.samples_per_tick_fp as u128;
            assert(rt * fp <= u128::MAX) by (nonlinear_arith)
                requires
                    rt <= u64::MAX,
                    fp <= u64::MAX,
            ;
            let q: u128 = (rt * fp) / crate::mixer::FACTOR_SCALE;
            let qs: usize = q as usize;
            if qs > usize::MAX - e.sample_offset {
                return None;
            }
        }
        Some(self.ticks_to_samples(ticks))
    }
}

} // verus!
