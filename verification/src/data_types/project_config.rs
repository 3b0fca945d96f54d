use crate::data_types::{Beats, Ticks};
use vstd::prelude::*;

verus! {

#[derive(Clone, Copy, Default, Debug)]
pub struct ProjectConfig {
    /// Represents how many ticks are in a single beat.
    pub resolution: u64,
    /// Number of channels of the project.
    pub channels: u16,
}

impl ProjectConfig {
    /// The ticks as beats: exactly `ticks / resolution`.
    pub fn ticks_to_beats(&self, ticks: Ticks) -> (beats: Beats)
        ensures
            beats == (Beats { numerator: ticks.0, denominator: self.resolution }),
    {
        Beats { numerator: ticks.0, denominator: self.resolution }
    }

    /// The beats as whole ticks, rounded toward zero.
    pub fn beats_to_ticks(&self, beats: Beats) -> (ticks: Ticks)
        ensures
            ticks.0 == crate::data_types::spec_beats_to_ticks(beats, self.resolution),
    {
        beats.to_ticks(self.resolution)
    }
}

} // verus!
