use vstd::prelude::*;

verus! {

/// Minimum number of waves an Individual is initialized with.
pub const MIN_WAVES: u16 = 4;

/// Maximum number of waves an Individual is initialized with (exclusive).
pub const MAX_WAVES: u16 = 40;

/// Minimum frequency of a wave.
pub const MIN_FREQ: u16 = 85;

/// Maximum frequency of a wave (exclusive).
pub const MAX_FREQ: u16 = 155;

/// Waveform (sound data) length in seconds.
pub const WAVE_LENGTH: u16 = 1;

/// Waveform (sound data) frequency: how many samples per second.
pub const WAVE_FREQ: u16 = 16000;

/// Number of samples in every rendered buffer.
pub const WAVE_LENGTH_SAMPLES: u16 = WAVE_LENGTH * WAVE_FREQ;

/// Number of samples in every rendered buffer, as an index bound; equal to
/// `WAVE_LENGTH_SAMPLES`.
pub const SAMPLES: usize = 16000;

/// Target word we are trying to make a voice for.
pub const TARGET_WORD: &'static str = "hello";

/// Distance assigned when nothing was recognized; also the normalising divisor.
pub const MAXIMUM_DISTANCE: u16 = 1000;

} // verus!
