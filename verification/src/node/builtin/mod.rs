pub mod automation_node;
mod audio_output_node;

pub use audio_output_node::{AudioOutputNode, SAMPLE_ALIGN, SAMPLE_SIZE};
