//! What the audio thread decides for each command that it receives.

use crate::data_types::PlaybackContext;
use vstd::prelude::*;

verus! {

/// A command to the audio thread, with what its decisions read of it.
#[derive(Clone, Copy, Debug)]
pub enum ThreadCommand {
    /// Start playing.
    Play,
    /// Stop playing and keep the playhead.
    Pause,
    /// Prepare a new project for playback.
    UpdateProject,
    /// Render a project to audio in the background.
    ExportAudio,
    /// Play through another output device.
    SetOutputDevice,
    /// Play with another playback context.
    SetPlaybackCtx(PlaybackContext),
    /// A command for the output callback: seek, arm or disarm a track.
    Callback,
}

/// What the audio thread does for a command, besides changing its state.
#[derive(Clone, Copy, Debug)]
pub enum ThreadAction {
    /// Nothing more.
    Nothing,
    /// Prepare the project in the background with this playback context; the
    /// prepared mixer is used only while the given generation is still the latest.
    PrepareProject(usize, PlaybackContext),
    /// Render the project in a thread of its own.
    SpawnExport,
    /// Rebuild the output stream; where the device offers no configuration,
    /// the stream is configured from this playback context.
    RecreateStream(PlaybackContext),
    /// Pass the command on to the output callback.
    ForwardToCallback,
}

/// What the audio thread keeps between commands.
#[derive(Clone, Copy, Debug)]
pub struct AudioThreadState {
    /// Whether the output callback advances the playhead.
    pub is_playing: bool,
    /// The generation of the latest project handed over for preparation.
    pub generation: usize,
    /// The playback context that new projects are prepared with.
    pub playback_ctx: PlaybackContext,
    /// The playback context from which the fallback stream configuration was last made.
    pub stream_ctx: PlaybackContext,
}

impl AudioThreadState {
    /// The state of a new audio thread: paused, with no project prepared yet.
    pub fn new(playback_ctx: PlaybackContext) -> (state: Self)
        ensures
            !state.is_playing,
            state.generation == 0,
            state.playback_ctx == playback_ctx,
            state.stream_ctx == playback_ctx,
    {
        AudioThreadState { is_playing: false, generation: 0, playback_ctx, stream_ctx: playback_ctx }
    }

    /// Carries out the part of a command that changes the state, and says what
    /// else is to be done. A new project starts the next generation, counted
    /// around past the largest `usize`, and takes the current playback context,
    /// from which the fallback stream configuration is then also made. A new
    /// playback context is kept for the next project; the stream is rebuilt with
    /// the fallback configuration made before.
    pub fn on_command(&mut self, command: ThreadCommand) -> (action: ThreadAction)
        ensures
            match command {
                ThreadCommand::Play => {
                    &&& final(self).is_playing
                    &&& final(self).generation == old(self).generation
                    &&& final(self).playback_ctx == old(self).playback_ctx
                    &&& final(self).stream_ctx == old(self).stream_ctx
                    &&& action is Nothing
                },
                ThreadCommand::Pause => {
                    &&& !final(self).is_playing
                    &&& final(self).generation == old(self).generation
                    &&& final(self).playback_ctx == old(self).playback_ctx
                    &&& final(self).stream_ctx == old(self).stream_ctx
                    &&& action is Nothing
                },
                ThreadCommand::UpdateProject => {
                    &&& final(self).is_playing == old(self).is_playing
                    &&& final(self).generation == (if old(self).generation == usize::MAX {
                        0
                    } else {
                        old(self).generation + 1
                    })
                    &&& final(self).playback_ctx == old(self).playback_ctx
                    &&& final(self).stream_ctx == old(self).playback_ctx
                    &&& action == ThreadAction::PrepareProject(final(self).generation, old(self).playback_ctx)
                },
                ThreadCommand::ExportAudio => {
                    &&& *final(self) == *old(self)
                    &&& action is SpawnExport
                },
                ThreadCommand::SetOutputDevice => {
                    &&& *final(self) == *old(self)
                    &&& action == ThreadAction::RecreateStream(old(self).stream_ctx)
                },
                ThreadCommand::SetPlaybackCtx(ctx) => {
                    &&& final(self).is_playing == old(self).is_playing
                    &&& final(self).generation == old(self).generation
                    &&& final(self).playback_ctx == ctx
                    &&& final(self).stream_ctx == old(self).stream_ctx
                    &&& action == ThreadAction::RecreateStream(old(self).stream_ctx)
                },
                ThreadCommand::Callback => {
                    &&& *final(self) == *old(self)
                    &&& action is ForwardToCallback
                },
            },
    {
        match command {
            ThreadCommand::Play => {
                self.is_playing = true;
                ThreadAction::Nothing
            },
            ThreadCommand::Pause => {
                self.is_playing = false;
                ThreadAction::Nothing
            },
            ThreadCommand::UpdateProject => {
                self.stream_ctx = self.playback_ctx;
                // Increment the current generation by one to mark it as the latest
                self.generation = if self.generation == usize::MAX {
                    0
                } else {
                    self.generation + 1
                };
                ThreadAction::PrepareProject(self.generation, self.playback_ctx)
            },
            ThreadCommand::ExportAudio => ThreadAction::SpawnExport,
            ThreadCommand::SetOutputDevice => ThreadAction::RecreateStream(self.stream_ctx),
            ThreadCommand::SetPlaybackCtx(ctx) => {
                self.playback_ctx = ctx;
                ThreadAction::RecreateStream(self.stream_ctx)
            },
            ThreadCommand::Callback => ThreadAction::ForwardToCallback,
        }
    }
}

} // verus!
