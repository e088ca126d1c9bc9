//! Sizes and codes of the speech layer.

use vstd::prelude::*;

verus! {

/// The longest frame, in samples: 20 ms at 16 kHz.
pub const MAX_FRAME_LENGTH: usize = 320;

/// The longest subframe, in samples: 5 ms at 16 kHz.
pub const MAX_SUB_FRAME_LENGTH: usize = 80;

/// The most subframes a frame has.
pub const MAX_NB_SUBFR: usize = 4;

/// The prediction order at 16 kHz.
pub const MAX_LPC_ORDER: usize = 16;

/// The prediction order at 8 and 12 kHz.
pub const MIN_LPC_ORDER: usize = 10;

/// Taps of the long-term predictor.
pub const LTP_ORDER: usize = 5;

/// A subframe, in milliseconds.
pub const SUB_FRAME_LENGTH_MS: i32 = 5;

/// The past that long-term prediction reaches into, in milliseconds.
pub const LTP_MEM_LENGTH_MS: i32 = 20;

/// Entries of the table of stereo prediction weights.
pub const STEREO_QUANT_TAB_SIZE: usize = 16;

/// Steps between two entries of that table.
pub const STEREO_QUANT_SUB_STEPS: usize = 5;

/// How long stereo weights take to move from one frame's to the next, in
/// milliseconds.
pub const STEREO_INTERP_LEN_MS: i32 = 8;

/// The look-ahead of noise shaping, in milliseconds.
pub const LA_SHAPE_MS: usize = 5;

/// The look-ahead of noise shaping at 16 kHz, in samples.
pub const LA_SHAPE_MAX: usize = 80;

/// How far quantization levels are pulled towards zero, Q10.
pub const QUANT_LEVEL_ADJUST_Q10: i32 = 80;

/// The largest line spectral frequency residual coded without an extension.
pub const NLSF_QUANT_MAX_AMPLITUDE: i32 = 4;

/// A frame without voice activity.
pub const TYPE_NO_VOICE_ACTIVITY: i32 = 0;

/// An unvoiced frame.
pub const TYPE_UNVOICED: i32 = 1;

/// A voiced frame.
pub const TYPE_VOICED: i32 = 2;

/// A frame coded without reference to the one before it.
pub const CODE_INDEPENDENTLY: i32 = 0;

/// A frame coded on its own whose long-term prediction is not scaled.
pub const CODE_INDEPENDENTLY_NO_LTP_SCALING: i32 = 1;

/// A frame coded relative to the one before it.
pub const CODE_CONDITIONALLY: i32 = 2;

/// The most frames a packet carries for one channel.
pub const MAX_FRAMES_PER_PACKET: usize = 3;

/// Bands of the voice activity detector.
pub const VAD_N_BANDS: usize = 4;

/// The largest order of noise shaping.
pub const MAX_SHAPE_LPC_ORDER: usize = 24;

/// The past that the noise shaping quantizer keeps for prediction.
pub const NSQ_LPC_BUF_LENGTH: usize = 16;

} // verus!
