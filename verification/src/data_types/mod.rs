mod audio_context;
mod beats;
mod event;
mod hardware_config;
mod project_config;
mod ticks;
mod type_info;

pub use audio_context::{AudioContext, PlaybackContext};
pub use beats::{
    div_toward_zero, lemma_beats_to_ticks_scale_invariant, lemma_beats_to_ticks_truncates, lemma_ticks_beats_roundtrip,
    lemma_infinite_beats_to_ticks, lemma_whole_beats_to_ticks, saturate_i64, spec_beats_to_ticks, Beats,
};
pub use event::EventSlot;
pub use hardware_config::HardwareConfig;
pub use project_config::ProjectConfig;
pub use ticks::Ticks;
pub use type_info::TypeInfo;
