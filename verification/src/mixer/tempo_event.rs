use crate::data_types::Ticks;
use std::cmp::Ordering;
use vstd::prelude::*;
use vstd::std_specs::cmp::PartialEqSpecImpl;
use vstd::std_specs::cmp::PartialOrdSpecImpl;

verus! {

/// The fixed-point scale of the samples-per-tick factor: 32 fractional bits.
pub const FACTOR_SCALE: u128 = 4294967296;

/// The samples per tick at `bpm` beats per minute, `resolution` ticks per beat
/// and `sample_rate` samples per second, in fixed point with 32 fractional
/// bits, truncated to 64 bits.
pub open spec fn spec_samples_per_tick_fp(sample_rate: u64, resolution: u64, bpm: u64) -> u64 {
    ((60 * sample_rate * (FACTOR_SCALE as int)) / (resolution * bpm)) as u64
}

/// A change of tempo at a tick, with the sample at which it starts.
#[derive(Clone, Copy, Debug)]
pub struct TempoEvent {
    /// The tick at which the tempo change occurs.
    pub ticks: Ticks,
    /// Whole beats per minute from this event on.
    pub bpm: u64,
    /// The sample at which the event starts, calculated by the tempo map.
    pub sample_offset: usize,
    /// Cached factor for converting ticks to samples, calculated from the audio context.
    pub samples_per_tick_fp: u64,
}

/// The sample that `target` falls on, counted from `event`: the event's own
/// sample up to its tick, and after it the elapsed ticks times the event's
/// fixed-point factor, with the fraction dropped.
pub open spec fn spec_event_ticks_to_samples(event: TempoEvent, target: Ticks) -> int {
    if target.0 <= event.ticks.0 {
        event.sample_offset as int
    } else {
        event.sample_offset + ((((target.0 - event.ticks.0) * event.factor()) / (FACTOR_SCALE as int)) as usize)
    }
}

impl TempoEvent {
    pub open spec fn factor(&self) -> u64 {
        self.samples_per_tick_fp
    }

    pub fn new(ticks: Ticks, bpm: u64, sample_offset: usize) -> (event: Self)
        ensures
            event.ticks == ticks,
            event.bpm == bpm,
            event.sample_offset == sample_offset,
            event.factor() == 0,
    {
        Self { ticks, bpm, sample_offset, samples_per_tick_fp: 0 }
    }

    pub fn ticks(&self) -> (ticks: Ticks)
        ensures
            ticks == self.ticks,
    {
        self.ticks
    }

    pub fn bpm(&self) -> (bpm: u64)
        ensures
            bpm == self.bpm,
    {
        self.bpm
    }

    pub fn sample_offset(&self) -> (offset: usize)
        ensures
            offset == self.sample_offset,
    {
        self.sample_offset
    }

    /// The cached samples-per-tick factor.
    pub fn samples_per_tick_fp(&self) -> (factor: u64)
        ensures
            factor == self.factor(),
    {
        self.samples_per_tick_fp
    }

    pub fn set_ticks(&mut self, ticks: Ticks)
        ensures
            *final(self) == (TempoEvent { ticks, ..*old(self) }),
    {
        self.ticks = ticks;
    }

    /// Sets the bpm, and recalculates the cached factor for it.
    pub fn set_bpm(&mut self, bpm: u64, sample_rate: u64, resolution: u64)
        requires
            resolution * bpm > 0,
        ensures
            final(self).factor() == spec_samples_per_tick_fp(sample_rate, resolution, bpm),
            final(self).bpm == bpm,
            final(self).ticks == old(self).ticks,
            final(self).sample_offset == old(self).sample_offset,
    {
        self.bpm = bpm;
        self.update_factor(sample_rate, resolution);
    }

    pub fn set_sample_offset(&mut self, sample_offset: usize)
        ensures
            *final(self) == (TempoEvent { sample_offset, ..*old(self) }),
    {
        self.sample_offset = sample_offset;
    }

    /// Recalculates the cached factor from the event's bpm.
    pub(crate) fn update_factor(&mut self, sample_rate: u64, resolution: u64)
        requires
            resolution * old(self).bpm > 0,
        ensures
            final(self).factor() == spec_samples_per_tick_fp(sample_rate, resolution, old(self).bpm),
            final(self).bpm == old(self).bpm,
            final(self).ticks == old(self).ticks,
            final(self).sample_offset == old(self).sample_offset,
    {
        let sr = sample_rate as u128;
        let res = resolution as u128;
        let bpm = self.bpm as u128;
        assert(60 * sr * FACTOR_SCALE <= u128::MAX) by (nonlinear_arith)
            requires
                sr <= u64::MAX,
        ;
        assert(res * bpm <= u128::MAX) by (nonlinear_arith)
            requires
                res <= u64::MAX,
                bpm <= u64::MAX,
        ;
        let numerator: u128 = 60u128 * sr * FACTOR_SCALE;
        let denominator: u128 = res * bpm;
        self.samples_per_tick_fp = (numerator / denominator) as u64;
    }

    /// Converts the given ticks to samples using this `TempoEvent`'s bpm.
    pub(crate) fn ticks_to_samples(&self, target_ticks: Ticks) -> (samples: usize)
        requires
            target_ticks.0 > self.ticks.0 ==> target_ticks.0 - self.ticks.0 <= i64::MAX,
            spec_event_ticks_to_samples(*self, target_ticks) <= usize::MAX,
        ensures
            samples == spec_event_ticks_to_samples(*self, target_ticks),
    {
        if target_ticks.0 <= self.ticks.0 {
            return self.sample_offset;
        }
        let remaining_ticks = target_ticks.0 - self.ticks.0;
        let rt = remaining_ticks as u128;
        let fp = self.samples_per_tick_fp as u128;
        assert(rt * fp <= u128::MAX) by (nonlinear_arith)
            requires
                rt <= u64::MAX,
                fp <= u64::MAX,
        ;
        let remaining_samples = ((rt * fp) / FACTOR_SCALE) as usize;
        self.sample_offset + remaining_samples
    }
}

/// Two tempo events are equal when they fall on the same tick.
impl PartialEq for TempoEvent {
    fn eq(&self, other: &Self) -> (equal: bool) {
        self.ticks.0 == other.ticks.0
    }
}

impl PartialEqSpecImpl for TempoEvent {
    open spec fn obeys_eq_spec() -> bool {
        true
    }

    open spec fn eq_spec(&self, other: &Self) -> bool {
        self.ticks.0 == other.ticks.0
    }
}

impl Eq for TempoEvent {}

/// Tempo events are ordered by their ticks.
impl PartialOrd for TempoEvent {
    fn partial_cmp(&self, other: &Self) -> (order: Option<Ordering>) {
        if self.ticks.0 > other.ticks.0 {
            Some(Ordering::Greater)
        } else if self.ticks.0 == other.ticks.0 {
            Some(Ordering::Equal)
        } else {
            Some(Ordering::Less)
        }
    }
}

impl PartialOrdSpecImpl for TempoEvent {
    open spec fn obeys_partial_cmp_spec() -> bool {
        true
    }

    open spec fn partial_cmp_spec(&self, other: &Self) -> Option<Ordering> {
        if self.ticks.0 > other.ticks.0 {
            Some(Ordering::Greater)
        } else if self.ticks.0 == other.ticks.0 {
            Some(Ordering::Equal)
        } else {
            Some(Ordering::Less)
        }
    }
}

} // verus!
