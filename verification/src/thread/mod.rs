//! The decisions that the audio threads take between their outside work:
//! what each command to the audio thread calls for, how commands move the
//! playhead, and how an export is cut into blocks.

mod control;
mod export;
mod transport;

pub use control::{AudioThreadState, ThreadAction, ThreadCommand};
pub use export::{export_position, lemma_export_position, next_export_block};
pub use transport::{CallbackCommand, PlaybackState};
