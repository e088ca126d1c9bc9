//! State of the speech decoder.

use vstd::prelude::*;

use crate::silk::structs::{zeros16, zeros32, SideInfoIndices};
use crate::silk::tables::{SILK_PITCH_CONTOUR_ICDF, SILK_UNIFORM8_ICDF};

verus! {

/// The output kept for long-term prediction, in samples: 20 ms, and half a
/// frame that is filtered again.
pub const OUT_BUF_LENGTH: usize = 480;

/// What comfort noise carries from frame to frame.
#[derive(Clone, Copy, Debug)]
pub struct SilkCngState {
    /// Excitation of the background, newest subframe first, Q14.
    pub cng_exc_buf_q14: [i32; 320],
    /// Smoothed line spectral frequencies, Q15.
    pub cng_smth_nlsf_q15: [i16; 16],
    /// The last samples of the synthesis, Q14.
    pub cng_synth_state: [i32; 16],
    /// Smoothed gain, Q16.
    pub cng_smth_gain_q16: i32,
    /// State of the random generator.
    pub rand_seed: i32,
    /// The rate the state belongs to, kHz.
    pub fs_khz: i32,
}

impl SilkCngState {
    /// Whether this is the state before the first frame.
    pub open spec fn is_reset(&self) -> bool {
        &&& zeros32(self.cng_exc_buf_q14@)
        &&& zeros16(self.cng_smth_nlsf_q15@)
        &&& zeros32(self.cng_synth_state@)
        &&& self.cng_smth_gain_q16 == 0
        &&& self.rand_seed == 0
        &&& self.fs_khz == 0
    }
}

impl Default for SilkCngState {
    fn default() -> (s: Self)
        ensures
            s.is_reset(),
    {
        SilkCngState {
            cng_exc_buf_q14: [0; 320],
            cng_smth_nlsf_q15: [0; 16],
            cng_synth_state: [0; 16],
            cng_smth_gain_q16: 0,
            rand_seed: 0,
            fs_khz: 0,
        }
    }
}

/// What loss concealment carries from frame to frame.
#[derive(Clone, Copy, Debug)]
pub struct SilkPlcState {
    /// Pitch lag, Q8.
    pub pitch_l_q8: i32,
    /// Long-term taps, Q14.
    pub ltp_coef_q14: [i16; 5],
    /// Short-term prediction of the last frame, Q12.
    pub prev_lpc_q12: [i16; 16],
    /// Whether the last frame was lost.
    pub last_frame_lost: i32,
    /// State of the random generator.
    pub rand_seed: i32,
    /// How much random excitation is mixed in, Q14.
    pub rand_scale_q14: i16,
    /// Energy of the last concealed frame.
    pub conc_energy: i32,
    /// The shift that energy was taken at.
    pub conc_energy_shift: i32,
    /// Scale of long-term prediction in the last frame, Q14.
    pub prev_ltp_scale_q14: i16,
    /// Gains of the last two subframes, Q16.
    pub prev_gain_q16: [i32; 2],
    /// The rate the state belongs to, kHz.
    pub fs_khz: i32,
    /// Subframes of the last frame.
    pub nb_subfr: i32,
    /// Their length, in samples.
    pub subfr_length: i32,
}

impl SilkPlcState {
    /// Whether this is the state before the first frame.
    pub open spec fn is_reset(&self) -> bool {
        &&& self.pitch_l_q8 == 0
        &&& zeros16(self.ltp_coef_q14@)
        &&& zeros16(self.prev_lpc_q12@)
        &&& self.last_frame_lost == 0
        &&& self.rand_seed == 0
        &&& self.rand_scale_q14 == 0
        &&& self.conc_energy == 0
        &&& self.conc_energy_shift == 0
        &&& self.prev_ltp_scale_q14 == 0
        &&& zeros32(self.prev_gain_q16@)
        &&& self.fs_khz == 0
        &&& self.nb_subfr == 0
        &&& self.subfr_length == 0
    }
}

impl Default for SilkPlcState {
    fn default() -> (s: Self)
        ensures
            s.is_reset(),
    {
        SilkPlcState {
            pitch_l_q8: 0,
            ltp_coef_q14: [0; 5],
            prev_lpc_q12: [0; 16],
            last_frame_lost: 0,
            rand_seed: 0,
            rand_scale_q14: 0,
            conc_energy: 0,
            conc_energy_shift: 0,
            prev_ltp_scale_q14: 0,
            prev_gain_q16: [0; 2],
            fs_khz: 0,
            nb_subfr: 0,
            subfr_length: 0,
        }
    }
}

/// Which codebook of line spectral frequencies a rate uses.
#[derive(Clone, Copy, Debug, PartialEq, Eq)]
pub enum NlsfCodebookKind {
    /// Ten frequencies, for 8 and 12 kHz.
    NbMb,
    /// Sixteen frequencies, for 16 kHz.
    Wb,
}

/// The state of one channel's decoder.
#[derive(Clone, Copy, Debug)]
pub struct SilkDecoderState {
    /// Gain of the last subframe, Q16.
    pub prev_gain_q16: i32,
    /// Excitation of the last frame, Q14.
    pub exc_q14: [i32; 320],
    /// The last samples of the short-term synthesis, Q14.
    pub s_lpc_q14_buf: [i32; 16],
    /// The last output.
    pub out_buf: [i16; OUT_BUF_LENGTH],
    /// Pitch lag of the last subframe.
    pub lag_prev: i32,
    /// Gain index of the last subframe.
    pub last_gain_index: i8,
    /// The internal rate, kHz.
    pub fs_khz: i32,
    /// The rate that is asked for, Hz.
    pub fs_api_hz: i32,
    /// Subframes in a frame.
    pub nb_subfr: i32,
    /// Samples in a frame.
    pub frame_length: i32,
    /// Samples in a subframe.
    pub subfr_length: i32,
    /// Samples of output that long-term prediction reaches into.
    pub ltp_mem_length: i32,
    /// Order of short-term prediction.
    pub lpc_order: i32,
    /// Line spectral frequencies of the last frame, Q15.
    pub prev_nlsf_q15: [i16; 16],
    /// Whether no frame has been decoded since the last reset.
    pub first_frame_after_reset: i32,
    /// Probabilities of the low part of a pitch lag.
    pub pitch_lag_low_bits_icdf: &'static [u8],
    /// Probabilities of the pitch contours.
    pub pitch_contour_icdf: &'static [u8],
    /// Frames of the packet already decoded.
    pub n_frames_decoded: i32,
    /// Frames in the packet.
    pub n_frames_per_packet: i32,
    /// Type of the last frame read.
    pub ec_prev_signal_type: i32,
    /// Pitch lag index of the last frame read.
    pub ec_prev_lag_index: i16,
    /// Which frames of the packet have voice activity.
    pub vad_flags: [i32; 3],
    /// Whether the packet repeats frames of the one before it.
    pub lbrr_flag: i32,
    /// Which frames it repeats.
    pub lbrr_flags: [i32; 3],
    /// The codebook of line spectral frequencies.
    pub ps_nlsf_cb: Option<NlsfCodebookKind>,
    /// Indices of the frame.
    pub indices: SideInfoIndices,
    /// Comfort noise.
    pub s_cng: SilkCngState,
    /// Frames lost in a row.
    pub loss_cnt: i32,
    /// Type of the last frame.
    pub prev_signal_type: i32,
    /// Loss concealment.
    pub s_plc: SilkPlcState,
}

impl Default for SilkDecoderState {
    fn default() -> (s: Self)
        ensures
            s.prev_gain_q16 == 0,
            zeros32(s.exc_q14@),
            zeros32(s.s_lpc_q14_buf@),
            zeros16(s.out_buf@),
            s.lag_prev == 0 && s.last_gain_index == 0,
            s.fs_khz == 0 && s.fs_api_hz == 0,
            s.nb_subfr == 0 && s.frame_length == 0 && s.subfr_length == 0,
            s.ltp_mem_length == 0 && s.lpc_order == 0,
            zeros16(s.prev_nlsf_q15@),
            s.first_frame_after_reset == 0,
            s.n_frames_decoded == 0 && s.n_frames_per_packet == 0,
            s.ec_prev_signal_type == 0 && s.ec_prev_lag_index == 0,
            zeros32(s.vad_flags@) && s.lbrr_flag == 0 && zeros32(s.lbrr_flags@),
            s.ps_nlsf_cb is None,
            s.indices.is_reset(),
            s.s_cng.is_reset(),
            s.s_plc.is_reset(),
            s.loss_cnt == 0 && s.prev_signal_type == 0,
    {
        SilkDecoderState {
            prev_gain_q16: 0,
            exc_q14: [0; 320],
            s_lpc_q14_buf: [0; 16],
            out_buf: [0; 480],
            lag_prev: 0,
            last_gain_index: 0,
            fs_khz: 0,
            fs_api_hz: 0,
            nb_subfr: 0,
            frame_length: 0,
            subfr_length: 0,
            ltp_mem_length: 0,
            lpc_order: 0,
            prev_nlsf_q15: [0; 16],
            first_frame_after_reset: 0,
            pitch_lag_low_bits_icdf: &SILK_UNIFORM8_ICDF,
            pitch_contour_icdf: &SILK_PITCH_CONTOUR_ICDF,
            n_frames_decoded: 0,
            n_frames_per_packet: 0,
            ec_prev_signal_type: 0,
            ec_prev_lag_index: 0,
            vad_flags: [0; 3],
            lbrr_flag: 0,
            lbrr_flags: [0; 3],
            ps_nlsf_cb: None,
            indices: SideInfoIndices::default(),
            s_cng: SilkCngState::default(),
            loss_cnt: 0,
            prev_signal_type: 0,
            s_plc: SilkPlcState::default(),
        }
    }
}

/// What a frame's indices stand for.
#[derive(Clone, Copy, Debug)]
pub struct SilkDecoderControl {
    /// Pitch lag of each subframe.
    pub pitch_l: [i32; 4],
    /// Gain of each subframe, Q16.
    pub gains_q16: [i32; 4],
    /// Short-term prediction of each half of the frame, Q12.
    pub pred_coef_q12: [[i16; 16]; 2],
    /// Long-term taps of each subframe, Q14.
    pub ltp_coef_q14: [i16; 20],
    /// Scale of long-term prediction, Q14.
    pub ltp_scale_q14: i32,
}

impl SilkDecoderControl {
    /// A frame of which nothing is known.
    pub fn new() -> (c: Self)
        ensures
            zeros32(c.pitch_l@),
            zeros32(c.gains_q16@),
            zeros16(c.pred_coef_q12@[0]@),
            zeros16(c.pred_coef_q12@[1]@),
            zeros16(c.ltp_coef_q14@),
            c.ltp_scale_q14 == 0,
    {
        SilkDecoderControl {
            pitch_l: [0; 4],
            gains_q16: [0; 4],
            pred_coef_q12: [[0; 16]; 2],
            ltp_coef_q14: [0; 20],
            ltp_scale_q14: 0,
        }
    }
}

} // verus!
