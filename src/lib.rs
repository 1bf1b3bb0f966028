pub mod consts;
pub mod waveform;
pub mod sinewave;
pub mod random;
pub mod individual;
pub mod population;
