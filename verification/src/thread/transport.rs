use crate::mixer::TrackID;
use vstd::prelude::*;

verus! {

/// A command that the output callback carries out before it renders a block.
#[derive(Clone, Copy, Debug, PartialEq, Eq, Structural)]
pub enum CallbackCommand {
    /// Move the playhead to this sample.
    Seek(u64),
    /// Route incoming MIDI events to this track.
    ArmTrack(TrackID),
    /// Stop routing MIDI events to any track.
    DisarmTrack,
}

/// What the output callback keeps from one block to the next.
#[derive(Clone, Copy, Debug, Default, PartialEq, Eq, Structural)]
pub struct PlaybackState {
    /// The sample at which the next block starts.
    pub playhead: u64,
    /// The track that receives incoming MIDI events.
    pub armed_track: Option<TrackID>,
}

impl PlaybackState {
    pub fn new() -> (state: Self)
        ensures
            state.playhead == 0,
            state.armed_track is None,
    {
        PlaybackState { playhead: 0, armed_track: None }
    }

    /// Carries out one command.
    pub fn apply_command(&mut self, command: CallbackCommand)
        ensures
            match command {
                CallbackCommand::Seek(target) => final(self).playhead == target && final(self).armed_track
                    == old(self).armed_track,
                CallbackCommand::ArmTrack(id) => final(self).armed_track == Some(id) && final(self).playhead
                    == old(self).playhead,
                CallbackCommand::DisarmTrack => final(self).armed_track is None && final(self).playhead
                    == old(self).playhead,
            },
    {
        match command {
            CallbackCommand::Seek(target) => {
                self.playhead = target;
            },
            CallbackCommand::ArmTrack(track_id) => {
                self.armed_track = Some(track_id);
            },
            CallbackCommand::DisarmTrack => {
                self.armed_track = None;
            },
        }
    }

    /// Moves the playhead past a rendered block while playing; it stops at
    /// the largest sample instead of wrapping around. While paused it stays.
    pub fn advance(&mut self, is_playing: bool, buffer_size: usize)
        ensures
            final(self).playhead == if is_playing {
                if old(self).playhead + buffer_size > u64::MAX {
                    u64::MAX as int
                } else {
                    old(self).playhead + buffer_size
                }
            } else {
                old(self).playhead as int
            },
            final(self).armed_track == old(self).armed_track,
    {
        if is_playing {
            let step = buffer_size as u64;
            assert(step == buffer_size) by {
                assert(usize::MAX <= u64::MAX);
            }
            self.playhead = self.playhead.saturating_add(step);
        }
    }
}

} // verus!
