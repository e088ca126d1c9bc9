//! The integer parts of the CELT layer.

pub mod kiss_fft;
pub mod pvq;
