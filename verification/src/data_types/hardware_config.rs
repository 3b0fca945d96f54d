use vstd::prelude::*;

verus! {

/// Configurations related to the output device.
#[derive(Clone, Copy, Default, Debug, PartialEq, Eq, Structural)]
pub struct HardwareConfig {
    pub sample_rate: u64,
    pub buffer_size: u32,
    pub max_voices: u16,
}

impl HardwareConfig {
    /// The configuration used when no output device can be queried.
    pub fn fallback_config() -> (config: Self)
        ensures
            config == (HardwareConfig { sample_rate: 48000, buffer_size: 512, max_voices: 32 }),
    {
        HardwareConfig { sample_rate: 48000, buffer_size: 512, max_voices: 32 }
    }

    /// The configuration for the first output configuration that a device
    /// supports: its highest sample rate, its largest buffer size when the
    /// device states a range of them (`Some((min, max))`) and 512 frames
    /// otherwise, and 32 voices.
    pub fn from_supported_config(max_sample_rate: u32, buffer_size_range: Option<(u32, u32)>) -> (config: Self)
        ensures
            config.sample_rate == max_sample_rate,
            config.buffer_size == match buffer_size_range {
                Some((_, max)) => max,
                None => 512,
            },
            config.max_voices == 32,
    {
        let buffer_size = match buffer_size_range {
            Some((_, max)) => max,
            None => 512,
        };
        HardwareConfig { sample_rate: max_sample_rate as u64, buffer_size, max_voices: 32 }
    }
}

} // verus!
