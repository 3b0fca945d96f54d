//! A real-time audio engine core: tempo maps, automation cursors, the node
//! graph and its processing order, and the decisions of the audio thread.

pub mod data_types;
pub mod graph;
pub mod keyed;
pub mod mixer;
pub mod node;
pub mod thread;

use vstd::prelude::*;

verus! {

/// Maximum supported number of channels for audio output.
pub const MAX_CHANNELS: usize = 64;

/// Number of events to be processed in a single frame.
pub const MAX_EVENTS: usize = 4;

} // verus!
