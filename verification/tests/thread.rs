use audio_engine::data_types::PlaybackContext;
use audio_engine::mixer::TrackID;
use audio_engine::thread::{
    next_export_block, AudioThreadState, CallbackCommand, PlaybackState, ThreadAction, ThreadCommand,
};

fn ctx(buffer_size: usize) -> PlaybackContext {
    PlaybackContext { sample_rate: 48000, buffer_size, channels: 2 }
}

#[test]
fn playback_state_carries_out_commands() {
    let mut state = PlaybackState::new();
    assert_eq!(state.playhead, 0);
    assert_eq!(state.armed_track, None);
    state.apply_command(CallbackCommand::Seek(100));
    assert_eq!(state.playhead, 100);
    state.apply_command(CallbackCommand::ArmTrack(TrackID(3)));
    assert_eq!(state.armed_track, Some(TrackID(3)));
    assert_eq!(state.playhead, 100);
    state.apply_command(CallbackCommand::DisarmTrack);
    assert_eq!(state.armed_track, None);
}

#[test]
fn playhead_advances_only_while_playing() {
    let mut state = PlaybackState::new();
    state.advance(true, 512);
    assert_eq!(state.playhead, 512);
    state.advance(false, 512);
    assert_eq!(state.playhead, 512);
    state.apply_command(CallbackCommand::Seek(u64::MAX - 10));
    state.advance(true, 512);
    assert_eq!(state.playhead, u64::MAX);
}

#[test]
fn audio_thread_state_handles_commands() {
    let first = ctx(512);
    let second = ctx(256);
    let mut state = AudioThreadState::new(first);
    assert!(!state.is_playing);
    assert_eq!(state.generation, 0);
    assert!(matches!(state.on_command(ThreadCommand::Play), ThreadAction::Nothing));
    assert!(state.is_playing);
    assert!(matches!(
        state.on_command(ThreadCommand::UpdateProject),
        ThreadAction::PrepareProject(1, c) if c.buffer_size == 512
    ));
    assert_eq!(state.generation, 1);
    // A new playback context is used by the next project; the stream keeps the old configuration
    assert!(matches!(
        state.on_command(ThreadCommand::SetPlaybackCtx(second)),
        ThreadAction::RecreateStream(c) if c.buffer_size == 512
    ));
    assert_eq!(state.playback_ctx.buffer_size, 256);
    assert!(matches!(
        state.on_command(ThreadCommand::UpdateProject),
        ThreadAction::PrepareProject(2, c) if c.buffer_size == 256
    ));
    assert!(matches!(
        state.on_command(ThreadCommand::SetOutputDevice),
        ThreadAction::RecreateStream(c) if c.buffer_size == 256
    ));
    assert!(matches!(state.on_command(ThreadCommand::ExportAudio), ThreadAction::SpawnExport));
    assert!(matches!(state.on_command(ThreadCommand::Callback), ThreadAction::ForwardToCallback));
    assert!(matches!(state.on_command(ThreadCommand::Pause), ThreadAction::Nothing));
    assert!(!state.is_playing);
    assert_eq!(state.generation, 2);
}

#[test]
fn generation_counts_around() {
    let mut state = AudioThreadState::new(ctx(64));
    state.generation = usize::MAX;
    assert!(matches!(state.on_command(ThreadCommand::UpdateProject), ThreadAction::PrepareProject(0, _)));
    assert_eq!(state.generation, 0);
}

#[test]
fn export_blocks_cover_the_range() {
    assert_eq!(next_export_block(0, 1000, 512), Some(512));
    assert_eq!(next_export_block(512, 1000, 512), Some(488));
    assert_eq!(next_export_block(1000, 1000, 512), None);
    assert_eq!(next_export_block(1200, 1000, 512), None);
    // Blocks from the start reach the end exactly
    let mut playhead = 0usize;
    let mut blocks = 0;
    while let Some(frames) = next_export_block(playhead, 1000, 300) {
        playhead += frames;
        blocks += 1;
    }
    assert_eq!(playhead, 1000);
    assert_eq!(blocks, 4);
}
