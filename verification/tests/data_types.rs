use audio_engine::data_types::{
    AudioContext, Beats, EventSlot, HardwareConfig, PlaybackContext, ProjectConfig, Ticks, TypeInfo,
};
use audio_engine::node::builtin::{AudioOutputNode, SAMPLE_ALIGN, SAMPLE_SIZE};
use audio_engine::node::Node;
use audio_engine::{MAX_CHANNELS, MAX_EVENTS};

fn audio_ctx(resolution: u64) -> AudioContext {
    AudioContext { resolution, channels: 2, sample_rate: 48000, buffer_size: 512, max_voices: 32 }
}

#[test]
fn ticks_to_beats_is_exact_fraction() {
    let ctx = audio_ctx(960);
    assert_eq!(ctx.ticks_to_beats(Ticks(1440)), Beats { numerator: 1440, denominator: 960 });
    assert_eq!(ctx.ticks_to_beats(Ticks(-480)), Beats { numerator: -480, denominator: 960 });
}

#[test]
fn beats_to_ticks_rounds_toward_zero() {
    let ctx = audio_ctx(960);
    assert_eq!(ctx.beats_to_ticks(Beats { numerator: 3, denominator: 2 }), Ticks(1440));
    assert_eq!(ctx.beats_to_ticks(Beats { numerator: -3, denominator: 2 }), Ticks(-1440));
    assert_eq!(ctx.beats_to_ticks(Beats { numerator: 1, denominator: 7 }), Ticks(137));
    assert_eq!(ctx.beats_to_ticks(Beats { numerator: -1, denominator: 7 }), Ticks(-137));
}

#[test]
fn beats_to_ticks_saturates_and_handles_zero_denominator() {
    let ctx = audio_ctx(960);
    assert_eq!(ctx.beats_to_ticks(Beats { numerator: i64::MAX, denominator: 1 }), Ticks(i64::MAX));
    assert_eq!(ctx.beats_to_ticks(Beats { numerator: i64::MIN, denominator: 1 }), Ticks(i64::MIN));
    assert_eq!(ctx.beats_to_ticks(Beats { numerator: 1, denominator: 0 }), Ticks(i64::MAX));
    assert_eq!(ctx.beats_to_ticks(Beats { numerator: -1, denominator: 0 }), Ticks(i64::MIN));
    assert_eq!(ctx.beats_to_ticks(Beats { numerator: 0, denominator: 0 }), Ticks(0));
}

#[test]
fn ticks_survive_a_round_trip_through_beats() {
    let ctx = audio_ctx(960);
    for t in [0i64, 1, 959, 960, 123456, -1, -960, -98765, i64::MAX, i64::MIN] {
        assert_eq!(ctx.beats_to_ticks(ctx.ticks_to_beats(Ticks(t))), Ticks(t));
    }
}

#[test]
fn project_config_converts_like_audio_context() {
    let config = ProjectConfig { resolution: 480, channels: 2 };
    assert_eq!(config.ticks_to_beats(Ticks(720)), Beats { numerator: 720, denominator: 480 });
    assert_eq!(config.beats_to_ticks(Beats { numerator: 5, denominator: 4 }), Ticks(600));
    assert_eq!(config.beats_to_ticks(config.ticks_to_beats(Ticks(-7))), Ticks(-7));
}

#[test]
fn fallback_hardware_config() {
    assert_eq!(
        HardwareConfig::fallback_config(),
        HardwareConfig { sample_rate: 48000, buffer_size: 512, max_voices: 32 }
    );
}

#[test]
fn hardware_config_from_supported_config() {
    assert_eq!(
        HardwareConfig::from_supported_config(96000, Some((64, 4096))),
        HardwareConfig { sample_rate: 96000, buffer_size: 4096, max_voices: 32 }
    );
    assert_eq!(
        HardwareConfig::from_supported_config(44100, None),
        HardwareConfig { sample_rate: 44100, buffer_size: 512, max_voices: 32 }
    );
}

#[test]
fn type_info_actual_size() {
    let info = TypeInfo::new(8, 4);
    assert_eq!(info.sample_size, 8);
    assert_eq!(info.align, 4);
    assert_eq!(info.actual_size(512), 4096);
    assert_eq!(info.actual_size(0), 0);
}

#[test]
fn event_slot_fills_up() {
    let mut slot = EventSlot::new(0u32);
    assert_eq!(slot.count, 0);
    assert!(!slot.is_full());
    for i in 0..MAX_EVENTS as u32 {
        assert!(slot.add_event(i + 10));
    }
    assert!(slot.is_full());
    assert!(!slot.add_event(99));
    assert_eq!(slot.count, MAX_EVENTS as i32);
    assert_eq!(slot.events, [10, 11, 12, 13]);
}

#[test]
fn audio_output_node_carries_one_multichannel_sample() {
    assert_eq!(MAX_CHANNELS, 64);
    assert_eq!(SAMPLE_SIZE, std::mem::size_of::<[f32; MAX_CHANNELS]>());
    assert_eq!(SAMPLE_ALIGN, std::mem::align_of::<[f32; MAX_CHANNELS]>());
    let mut node = AudioOutputNode::new();
    assert_eq!(node.get_input_len(), 1);
    assert_eq!(node.get_output_len(), 0);
    assert_eq!(node.get_input_type(0), Some(&TypeInfo::new(0, 0)));
    node.update_type_info();
    assert_eq!(node.get_input_type(0), Some(&TypeInfo::new(SAMPLE_SIZE, SAMPLE_ALIGN)));
    assert_eq!(node.get_input_type(1), None);
    assert_eq!(node.get_output_type(0), None);
}

#[test]
fn playback_context_is_plain_data() {
    let ctx = PlaybackContext { sample_rate: 48000, buffer_size: 256, channels: 2 };
    let copy = ctx;
    assert_eq!(copy.sample_rate, 48000);
    assert_eq!(copy.buffer_size, 256);
    assert_eq!(copy.channels, 2);
}
