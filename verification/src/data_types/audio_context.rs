use crate::data_types::{Beats, Ticks};
use vstd::prelude::*;

verus! {

/// The configuration of a project that the audio engine reads.
#[derive(Clone, Copy, Default, Debug)]
pub struct AudioContext {
    /// Represents how many ticks are in one beat.
    pub resolution: u64,
    pub channels: usize,
    pub sample_rate: u64,
    pub buffer_size: usize,
    pub max_voices: usize,
}

impl AudioContext {
    /// The ticks as beats: exactly `ticks / resolution`.
    pub fn ticks_to_beats(&self, ticks: Ticks) -> (beats: Beats)
        ensures
            beats == (Beats { numerator: ticks.0, denominator: self.resolution }),
    {
        Beats { numerator: ticks.0, denominator: self.resolution }
    }

    /// The beats as whole ticks, rounded toward zero.
    pub fn beats_to_ticks(&self, beats: Beats) -> (ticks: Ticks)
        ensures
            ticks.0 == crate::data_types::spec_beats_to_ticks(beats, self.resolution),
    {
        beats.to_ticks(self.resolution)
    }
}

/// The configuration of the output stream that the engine plays through.
#[derive(Clone, Copy, Default, Debug)]
pub struct PlaybackContext {
    /// Samples per second.
    pub sample_rate: u64,
    /// Frames processed in one block.
    pub buffer_size: usize,
    /// Number of output channels.
    pub channels: usize,
}

} // verus!
