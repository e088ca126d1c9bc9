//! Tables of the speech layer (RFC 6716 section 4.2.7).
//!
//! A table of symbol probabilities holds inverse cumulative frequencies out of
//! 256: entry `i` is how many of the 256 stand behind symbol `i`.

use vstd::prelude::*;

use crate::range_coder::{ends_at, falls_at};

verus! {

/// Stereo prediction weights, Q13.
pub const SILK_STEREO_PRED_QUANT_Q13: [i16; 16] = [
    -13732, -10050, -8266, -7526, -6500, -5000, -2950, -820, 820, 2950, 5000, 6500, 7526, 8266,
    10050, 13732,
];

/// How far quantization levels are offset from zero, Q10, for unvoiced and for
/// voiced frames.
pub const SILK_QUANTIZATION_OFFSETS_Q10: [[i16; 2]; 2] = [[100, 240], [32, 100]];

/// The coarse parts of both stereo weights.
pub const SILK_STEREO_PRED_JOINT_ICDF: [u8; 25] = [
    249, 247, 246, 245, 244, 234, 210, 202, 201, 200, 197, 174, 82, 59, 56, 55, 54, 46, 22,
    12, 11, 10, 9, 7, 0,
];

pub proof fn lemma_stereo_pred_joint_icdf()
    ensures
        ends_at(SILK_STEREO_PRED_JOINT_ICDF@, 24),
{
    let t = SILK_STEREO_PRED_JOINT_ICDF@;
    assert forall|i: int| 0 <= i < 24 implies #[trigger] falls_at(t, i) by {
    }
}

/// Whether only the mid channel is coded.
pub const SILK_STEREO_ONLY_CODE_MID_ICDF: [u8; 2] = [
    64, 0,
];

pub proof fn lemma_stereo_only_code_mid_icdf()
    ensures
        ends_at(SILK_STEREO_ONLY_CODE_MID_ICDF@, 1),
{
    let t = SILK_STEREO_ONLY_CODE_MID_ICDF@;
    assert forall|i: int| 0 <= i < 1 implies #[trigger] falls_at(t, i) by {
    }
}

/// Three equally likely symbols.
pub const SILK_UNIFORM3_ICDF: [u8; 3] = [
    171, 85, 0,
];

pub proof fn lemma_uniform3_icdf()
    ensures
        ends_at(SILK_UNIFORM3_ICDF@, 2),
{
    let t = SILK_UNIFORM3_ICDF@;
    assert forall|i: int| 0 <= i < 2 implies #[trigger] falls_at(t, i) by {
    }
}

/// Four equally likely symbols.
pub const SILK_UNIFORM4_ICDF: [u8; 4] = [
    192, 128, 64, 0,
];

pub proof fn lemma_uniform4_icdf()
    ensures
        ends_at(SILK_UNIFORM4_ICDF@, 3),
{
    let t = SILK_UNIFORM4_ICDF@;
    assert forall|i: int| 0 <= i < 3 implies #[trigger] falls_at(t, i) by {
    }
}

/// Five equally likely symbols.
pub const SILK_UNIFORM5_ICDF: [u8; 5] = [
    205, 154, 102, 51, 0,
];

pub proof fn lemma_uniform5_icdf()
    ensures
        ends_at(SILK_UNIFORM5_ICDF@, 4),
{
    let t = SILK_UNIFORM5_ICDF@;
    assert forall|i: int| 0 <= i < 4 implies #[trigger] falls_at(t, i) by {
    }
}

/// Six equally likely symbols.
pub const SILK_UNIFORM6_ICDF: [u8; 6] = [
    213, 171, 128, 85, 43, 0,
];

pub proof fn lemma_uniform6_icdf()
    ensures
        ends_at(SILK_UNIFORM6_ICDF@, 5),
{
    let t = SILK_UNIFORM6_ICDF@;
    assert forall|i: int| 0 <= i < 5 implies #[trigger] falls_at(t, i) by {
    }
}

/// Eight equally likely symbols.
pub const SILK_UNIFORM8_ICDF: [u8; 8] = [
    224, 192, 160, 128, 96, 64, 32, 0,
];

pub proof fn lemma_uniform8_icdf()
    ensures
        ends_at(SILK_UNIFORM8_ICDF@, 7),
{
    let t = SILK_UNIFORM8_ICDF@;
    assert forall|i: int| 0 <= i < 7 implies #[trigger] falls_at(t, i) by {
    }
}

/// Signal type and quantization offset of an active frame.
pub const SILK_TYPE_OFFSET_VAD_ICDF: [u8; 4] = [
    232, 158, 10, 0,
];

pub proof fn lemma_type_offset_vad_icdf()
    ensures
        ends_at(SILK_TYPE_OFFSET_VAD_ICDF@, 3),
{
    let t = SILK_TYPE_OFFSET_VAD_ICDF@;
    assert forall|i: int| 0 <= i < 3 implies #[trigger] falls_at(t, i) by {
    }
}

/// Signal type and quantization offset of an inactive frame.
pub const SILK_TYPE_OFFSET_NO_VAD_ICDF: [u8; 2] = [
    230, 0,
];

pub proof fn lemma_type_offset_no_vad_icdf()
    ensures
        ends_at(SILK_TYPE_OFFSET_NO_VAD_ICDF@, 1),
{
    let t = SILK_TYPE_OFFSET_NO_VAD_ICDF@;
    assert forall|i: int| 0 <= i < 1 implies #[trigger] falls_at(t, i) by {
    }
}

/// The step from one subframe's gain to the next.
pub const SILK_DELTA_GAIN_ICDF: [u8; 41] = [
    250, 245, 234, 203, 71, 50, 42, 38, 35, 33, 31, 29, 28, 27, 26, 25, 24, 23, 22, 21, 20,
    19, 18, 17, 16, 15, 14, 13, 12, 11, 10, 9, 8, 7, 6, 5, 4, 3, 2, 1, 0,
];

pub proof fn lemma_delta_gain_icdf()
    ensures
        ends_at(SILK_DELTA_GAIN_ICDF@, 40),
{
    let t = SILK_DELTA_GAIN_ICDF@;
    assert forall|i: int| 0 <= i < 40 implies #[trigger] falls_at(t, i) by {
    }
}

/// How far a frequency residual exceeds the coded range.
pub const SILK_NLSF_EXT_ICDF: [u8; 7] = [
    100, 40, 16, 7, 3, 1, 0,
];

pub proof fn lemma_nlsf_ext_icdf()
    ensures
        ends_at(SILK_NLSF_EXT_ICDF@, 6),
{
    let t = SILK_NLSF_EXT_ICDF@;
    assert forall|i: int| 0 <= i < 6 implies #[trigger] falls_at(t, i) by {
    }
}

/// The interpolation between two frames' frequencies.
pub const SILK_NLSF_INTERPOLATION_FACTOR_ICDF: [u8; 5] = [
    243, 221, 192, 181, 0,
];

pub proof fn lemma_nlsf_interpolation_factor_icdf()
    ensures
        ends_at(SILK_NLSF_INTERPOLATION_FACTOR_ICDF@, 4),
{
    let t = SILK_NLSF_INTERPOLATION_FACTOR_ICDF@;
    assert forall|i: int| 0 <= i < 4 implies #[trigger] falls_at(t, i) by {
    }
}

/// The step from the last frame's pitch lag.
pub const SILK_PITCH_DELTA_ICDF: [u8; 21] = [
    210, 208, 206, 203, 199, 193, 183, 168, 142, 104, 74, 52, 37, 27, 20, 14, 10, 6, 4, 2, 0,
];

pub proof fn lemma_pitch_delta_icdf()
    ensures
        ends_at(SILK_PITCH_DELTA_ICDF@, 20),
{
    let t = SILK_PITCH_DELTA_ICDF@;
    assert forall|i: int| 0 <= i < 20 implies #[trigger] falls_at(t, i) by {
    }
}

/// The coarse part of a pitch lag.
pub const SILK_PITCH_LAG_ICDF: [u8; 32] = [
    253, 250, 244, 233, 212, 182, 150, 131, 120, 110, 98, 85, 72, 60, 49, 40, 32, 25, 19, 15,
    13, 11, 9, 8, 7, 6, 5, 4, 3, 2, 1, 0,
];

pub proof fn lemma_pitch_lag_icdf()
    ensures
        ends_at(SILK_PITCH_LAG_ICDF@, 31),
{
    let t = SILK_PITCH_LAG_ICDF@;
    assert forall|i: int| 0 <= i < 31 implies #[trigger] falls_at(t, i) by {
    }
}

/// The pitch contour of a 20 ms frame above 8 kHz.
pub const SILK_PITCH_CONTOUR_ICDF: [u8; 34] = [
    223, 201, 183, 167, 152, 138, 124, 111, 98, 88, 79, 70, 62, 56, 50, 44, 39, 35, 31, 27,
    24, 21, 18, 16, 14, 12, 10, 8, 6, 4, 3, 2, 1, 0,
];

pub proof fn lemma_pitch_contour_icdf()
    ensures
        ends_at(SILK_PITCH_CONTOUR_ICDF@, 33),
{
    let t = SILK_PITCH_CONTOUR_ICDF@;
    assert forall|i: int| 0 <= i < 33 implies #[trigger] falls_at(t, i) by {
    }
}

/// The pitch contour of a 20 ms frame at 8 kHz.
pub const SILK_PITCH_CONTOUR_NB_ICDF: [u8; 11] = [
    188, 176, 155, 138, 119, 97, 67, 43, 26, 10, 0,
];

pub proof fn lemma_pitch_contour_nb_icdf()
    ensures
        ends_at(SILK_PITCH_CONTOUR_NB_ICDF@, 10),
{
    let t = SILK_PITCH_CONTOUR_NB_ICDF@;
    assert forall|i: int| 0 <= i < 10 implies #[trigger] falls_at(t, i) by {
    }
}

/// The pitch contour of a 10 ms frame above 8 kHz.
pub const SILK_PITCH_CONTOUR_10_MS_ICDF: [u8; 12] = [
    165, 119, 80, 61, 47, 35, 27, 20, 14, 9, 4, 0,
];

pub proof fn lemma_pitch_contour_10_ms_icdf()
    ensures
        ends_at(SILK_PITCH_CONTOUR_10_MS_ICDF@, 11),
{
    let t = SILK_PITCH_CONTOUR_10_MS_ICDF@;
    assert forall|i: int| 0 <= i < 11 implies #[trigger] falls_at(t, i) by {
    }
}

/// The pitch contour of a 10 ms frame at 8 kHz.
pub const SILK_PITCH_CONTOUR_10_MS_NB_ICDF: [u8; 3] = [
    113, 63, 0,
];

pub proof fn lemma_pitch_contour_10_ms_nb_icdf()
    ensures
        ends_at(SILK_PITCH_CONTOUR_10_MS_NB_ICDF@, 2),
{
    let t = SILK_PITCH_CONTOUR_10_MS_NB_ICDF@;
    assert forall|i: int| 0 <= i < 2 implies #[trigger] falls_at(t, i) by {
    }
}

/// The long-term prediction codebook.
pub const SILK_LTP_PER_INDEX_ICDF: [u8; 3] = [
    179, 99, 0,
];

pub proof fn lemma_ltp_per_index_icdf()
    ensures
        ends_at(SILK_LTP_PER_INDEX_ICDF@, 2),
{
    let t = SILK_LTP_PER_INDEX_ICDF@;
    assert forall|i: int| 0 <= i < 2 implies #[trigger] falls_at(t, i) by {
    }
}

/// Vectors of the first long-term prediction codebook.
pub const SILK_LTP_GAIN_ICDF_0: [u8; 8] = [
    71, 56, 43, 30, 21, 12, 6, 0,
];

pub proof fn lemma_ltp_gain_icdf_0()
    ensures
        ends_at(SILK_LTP_GAIN_ICDF_0@, 7),
{
    let t = SILK_LTP_GAIN_ICDF_0@;
    assert forall|i: int| 0 <= i < 7 implies #[trigger] falls_at(t, i) by {
    }
}

/// Vectors of the second long-term prediction codebook.
pub const SILK_LTP_GAIN_ICDF_1: [u8; 16] = [
    199, 165, 144, 124, 109, 96, 84, 71, 61, 51, 42, 32, 23, 15, 8, 0,
];

pub proof fn lemma_ltp_gain_icdf_1()
    ensures
        ends_at(SILK_LTP_GAIN_ICDF_1@, 15),
{
    let t = SILK_LTP_GAIN_ICDF_1@;
    assert forall|i: int| 0 <= i < 15 implies #[trigger] falls_at(t, i) by {
    }
}

/// Vectors of the third long-term prediction codebook.
pub const SILK_LTP_GAIN_ICDF_2: [u8; 32] = [
    241, 225, 211, 199, 187, 175, 164, 153, 142, 132, 123, 114, 105, 96, 88, 80, 72, 64, 57,
    50, 44, 38, 33, 29, 24, 20, 16, 12, 9, 5, 2, 0,
];

pub proof fn lemma_ltp_gain_icdf_2()
    ensures
        ends_at(SILK_LTP_GAIN_ICDF_2@, 31),
{
    let t = SILK_LTP_GAIN_ICDF_2@;
    assert forall|i: int| 0 <= i < 31 implies #[trigger] falls_at(t, i) by {
    }
}

/// The scale of long-term prediction.
pub const SILK_LTPSCALE_ICDF: [u8; 3] = [
    128, 64, 0,
];

pub proof fn lemma_ltpscale_icdf()
    ensures
        ends_at(SILK_LTPSCALE_ICDF@, 2),
{
    let t = SILK_LTPSCALE_ICDF@;
    assert forall|i: int| 0 <= i < 2 implies #[trigger] falls_at(t, i) by {
    }
}

/// Which of two frames are repeated.
pub const SILK_LBRR_FLAGS_2_ICDF: [u8; 3] = [
    203, 150, 0,
];

pub proof fn lemma_lbrr_flags_2_icdf()
    ensures
        ends_at(SILK_LBRR_FLAGS_2_ICDF@, 2),
{
    let t = SILK_LBRR_FLAGS_2_ICDF@;
    assert forall|i: int| 0 <= i < 2 implies #[trigger] falls_at(t, i) by {
    }
}

/// Which of three frames are repeated.
pub const SILK_LBRR_FLAGS_3_ICDF: [u8; 7] = [
    215, 195, 166, 125, 110, 82, 0,
];

pub proof fn lemma_lbrr_flags_3_icdf()
    ensures
        ends_at(SILK_LBRR_FLAGS_3_ICDF@, 6),
{
    let t = SILK_LBRR_FLAGS_3_ICDF@;
    assert forall|i: int| 0 <= i < 6 implies #[trigger] falls_at(t, i) by {
    }
}

/// The coarse gain of an inactive frame.
pub const SILK_GAIN_ICDF_0: [u8; 8] = [
    224, 112, 44, 15, 3, 2, 1, 0,
];

pub proof fn lemma_gain_icdf_0()
    ensures
        ends_at(SILK_GAIN_ICDF_0@, 7),
{
    let t = SILK_GAIN_ICDF_0@;
    assert forall|i: int| 0 <= i < 7 implies #[trigger] falls_at(t, i) by {
    }
}

/// The coarse gain of an unvoiced frame.
pub const SILK_GAIN_ICDF_1: [u8; 8] = [
    254, 237, 192, 132, 70, 23, 4, 0,
];

pub proof fn lemma_gain_icdf_1()
    ensures
        ends_at(SILK_GAIN_ICDF_1@, 7),
{
    let t = SILK_GAIN_ICDF_1@;
    assert forall|i: int| 0 <= i < 7 implies #[trigger] falls_at(t, i) by {
    }
}

/// The coarse gain of a voiced frame.
pub const SILK_GAIN_ICDF_2: [u8; 8] = [
    255, 252, 226, 155, 61, 11, 2, 0,
];

pub proof fn lemma_gain_icdf_2()
    ensures
        ends_at(SILK_GAIN_ICDF_2@, 7),
{
    let t = SILK_GAIN_ICDF_2@;
    assert forall|i: int| 0 <= i < 7 implies #[trigger] falls_at(t, i) by {
    }
}

} // verus!
