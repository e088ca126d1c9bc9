//! State of the speech layer.

use vstd::prelude::*;

use crate::silk::define::{
    MAX_FRAMES_PER_PACKET, MAX_FRAME_LENGTH, MAX_LPC_ORDER, MAX_NB_SUBFR, MAX_SHAPE_LPC_ORDER,
    VAD_N_BANDS,
};

verus! {

/// Twice the longest frame and the longest look-ahead, in samples.
pub const X_BUF_LENGTH: usize = 720;

/// Twice the longest frame, in samples.
pub const TWO_FRAMES: usize = 640;

/// A subframe and the past that prediction needs, in samples.
pub const NSQ_SUB_FRAME_LENGTH: usize = 96;

/// One more than the largest prediction order.
pub const NLSF_INDICES: usize = 17;

/// Long-term taps of a whole frame.
pub const LTP_COEFS: usize = 20;

/// Noise shaping coefficients of a whole frame.
pub const SHAPE_COEFS: usize = 96;

/// Whether every entry is zero.
pub open spec fn zeros8(s: Seq<i8>) -> bool {
    forall|i: int| 0 <= i < s.len() ==> #[trigger] s[i] == 0
}

/// Whether every entry is zero.
pub open spec fn zeros16(s: Seq<i16>) -> bool {
    forall|i: int| 0 <= i < s.len() ==> #[trigger] s[i] == 0
}

/// Whether every entry is zero.
pub open spec fn zeros32(s: Seq<i32>) -> bool {
    forall|i: int| 0 <= i < s.len() ==> #[trigger] s[i] == 0
}

/// What the mid/side encoder carries from frame to frame. Its reset state is all
/// zero; [`SilkStereoState::reset_for_stereo`] sets what a stream that turns
/// stereo begins with.
#[derive(Clone)]
pub struct SilkStereoState {
    /// Last frame's quantized prediction weights, Q13, for interpolation.
    pub pred_prev_q13: [i16; 2],
    /// Two-sample tail of the previous frame's mid signal.
    pub s_mid: [i16; 2],
    /// Two-sample tail of the previous frame's side signal.
    pub s_side: [i16; 2],
    /// Smoothed `[mid_norm, residual_norm]` for the low band then the high band.
    pub mid_side_amp_q0: [i32; 4],
    /// Smoothed stereo width, Q14.
    pub smth_width_q14: i16,
    /// Last frame's applied width, Q14.
    pub width_prev_q14: i16,
    /// How long the side channel has been silent, in samples, so a taper to
    /// zero width is always transmitted before the side channel is dropped.
    pub silent_side_len: i16,
    /// Per-frame quantization indices, held until the packet is written.
    pub pred_ix: [[[i8; 3]; 2]; MAX_FRAMES_PER_PACKET],
    /// Per-frame "no side channel coded" flags.
    pub mid_only_flags: [i8; MAX_FRAMES_PER_PACKET],
}

impl SilkStereoState {
    /// Whether this is the state before the first frame.
    pub open spec fn is_reset(&self) -> bool {
        &&& zeros16(self.pred_prev_q13@)
        &&& zeros16(self.s_mid@)
        &&& zeros16(self.s_side@)
        &&& zeros32(self.mid_side_amp_q0@)
        &&& self.smth_width_q14 == 0
        &&& self.width_prev_q14 == 0
        &&& self.silent_side_len == 0
        &&& forall|i: int, j: int|
            0 <= i < 3 && 0 <= j < 2 ==> zeros8(#[trigger] self.pred_ix@[i]@[j]@)
        &&& zeros8(self.mid_only_flags@)
    }

    /// The state that a stream begins with when it turns stereo. The norms start
    /// at nought and one, so that the first ratio divides by one, and the width
    /// starts wide, so that a stereo first frame is not narrowed.
    pub fn reset_for_stereo(&mut self)
        ensures
            final(self).pred_prev_q13@ == seq![0i16, 0],
            final(self).s_side@ == seq![0i16, 0],
            final(self).mid_side_amp_q0@ == seq![0i32, 1, 0, 1],
            final(self).width_prev_q14 == 0,
            final(self).smth_width_q14 == 16384,
            final(self).s_mid == old(self).s_mid,
            final(self).silent_side_len == old(self).silent_side_len,
            final(self).pred_ix == old(self).pred_ix,
            final(self).mid_only_flags == old(self).mid_only_flags,
    {
        self.pred_prev_q13 = [0; 2];
        self.s_side = [0; 2];
        self.mid_side_amp_q0 = [0, 1, 0, 1];
        self.width_prev_q14 = 0;
        self.smth_width_q14 = 16384;
    }
}

impl Default for SilkStereoState {
    fn default() -> (s: Self)
        ensures
            s.is_reset(),
    {
        SilkStereoState {
            pred_prev_q13: [0; 2],
            s_mid: [0; 2],
            s_side: [0; 2],
            mid_side_amp_q0: [0; 4],
            smth_width_q14: 0,
            width_prev_q14: 0,
            silent_side_len: 0,
            pred_ix: [[[0; 3]; 2]; 3],
            mid_only_flags: [0; 3],
        }
    }
}

/// A codebook of line spectral frequencies.
#[derive(Clone, Copy, Debug)]
pub struct NLSFCodebook {
    /// First-stage vectors.
    pub n_vectors: i16,
    /// Frequencies in a vector.
    pub order: i16,
    /// The step of the second stage, Q16.
    pub quant_step_size_q16: i32,
    /// The inverse of that step, Q6.
    pub inv_quant_step_size_q6: i16,
    /// The first-stage vectors, Q8.
    pub cb1_nlsf_q8: &'static [u8],
    /// The weights that go with them, Q9.
    pub cb1_wght_q9: &'static [i16],
    /// Probabilities of the first-stage vectors, unvoiced then voiced.
    pub cb1_icdf: &'static [u8],
    /// Backward predictors, Q8.
    pub pred_q8: &'static [u8],
    /// Which table codes each residual, two to a byte.
    pub ec_sel: &'static [u8],
    /// Probabilities of the residuals, table after table.
    pub ec_icdf: &'static [u8],
    /// What each residual costs, Q5.
    pub ec_rates_q5: &'static [u8],
    /// The least distance between neighbours, Q15.
    pub delta_min_q15: &'static [i16],
}

/// The quantization indices a frame is sent as.
#[derive(Clone, Copy, Debug)]
pub struct SideInfoIndices {
    pub gains_indices: [i8; MAX_NB_SUBFR],
    pub ltp_index: [i8; MAX_NB_SUBFR],
    pub nlsf_indices: [i8; NLSF_INDICES],
    pub lag_index: i16,
    pub contour_index: i8,
    pub signal_type: i8,
    pub quant_offset_type: i8,
    pub nlsf_interp_coef_q2: i8,
    pub per_index: i8,
    pub ltp_scale_index: i8,
    pub seed: i8,
}

impl SideInfoIndices {
    /// Whether this is the state before the first frame.
    pub open spec fn is_reset(&self) -> bool {
        &&& zeros8(self.gains_indices@)
        &&& zeros8(self.ltp_index@)
        &&& zeros8(self.nlsf_indices@)
        &&& self.lag_index == 0
        &&& self.contour_index == 0
        &&& self.signal_type == 0
        &&& self.quant_offset_type == 0
        &&& self.nlsf_interp_coef_q2 == 4
        &&& self.per_index == 0
        &&& self.ltp_scale_index == 0
        &&& self.seed == 0
    }
}

impl Default for SideInfoIndices {
    fn default() -> (s: Self)
        ensures
            s.is_reset(),
    {
        SideInfoIndices {
            gains_indices: [0; 4],
            ltp_index: [0; 4],
            nlsf_indices: [0; 17],
            lag_index: 0,
            contour_index: 0,
            signal_type: 0,
            quant_offset_type: 0,
            nlsf_interp_coef_q2: 4,
            per_index: 0,
            ltp_scale_index: 0,
            seed: 0,
        }
    }
}

/// What noise shaping carries from frame to frame.
#[derive(Clone, Copy, Debug)]
pub struct SilkShapeState {
    pub last_gain_index: i8,
    pub harm_shape_gain_smth_q16: i32,
    pub tilt_smth_q16: i32,
}

impl SilkShapeState {
    /// Whether this is the state before the first frame.
    pub open spec fn is_reset(&self) -> bool {
        &&& self.last_gain_index == 0
        &&& self.harm_shape_gain_smth_q16 == 0
        &&& self.tilt_smth_q16 == 0
    }
}

impl Default for SilkShapeState {
    fn default() -> (s: Self)
        ensures
            s.is_reset(),
    {
        SilkShapeState {
            last_gain_index: 0,
            harm_shape_gain_smth_q16: 0,
            tilt_smth_q16: 0,
        }
    }
}

/// What the voice activity detector carries from frame to frame.
#[derive(Clone, Copy, Debug)]
pub struct SilkVADState {
    pub ana_state: [i32; 2],
    pub ana_state1: [i32; 2],
    pub ana_state2: [i32; 2],
    pub xnrg_subfr: [i32; VAD_N_BANDS],
    pub nrg_ratio_smth_q8: [i32; VAD_N_BANDS],
    pub hp_state: i16,
    pub nl: [i32; VAD_N_BANDS],
    pub inv_nl: [i32; VAD_N_BANDS],
    pub noise_level_bias: [i32; VAD_N_BANDS],
    pub counter: i32,
}

impl SilkVADState {
    /// Whether this is the state before the first frame.
    pub open spec fn is_reset(&self) -> bool {
        &&& zeros32(self.ana_state@)
        &&& zeros32(self.ana_state1@)
        &&& zeros32(self.ana_state2@)
        &&& zeros32(self.xnrg_subfr@)
        &&& zeros32(self.nrg_ratio_smth_q8@)
        &&& self.hp_state == 0
        &&& zeros32(self.nl@)
        &&& zeros32(self.inv_nl@)
        &&& zeros32(self.noise_level_bias@)
        &&& self.counter == 0
    }
}

impl Default for SilkVADState {
    fn default() -> (s: Self)
        ensures
            s.is_reset(),
    {
        SilkVADState {
            ana_state: [0; 2],
            ana_state1: [0; 2],
            ana_state2: [0; 2],
            xnrg_subfr: [0; 4],
            nrg_ratio_smth_q8: [0; 4],
            hp_state: 0,
            nl: [0; 4],
            inv_nl: [0; 4],
            noise_level_bias: [0; 4],
            counter: 0,
        }
    }
}

/// The part of a channel encoder's state that does not depend on how it computes.
pub struct SilkEncoderStateCommon {
    pub indices: SideInfoIndices,
    pub snr_db_q7: i32,
    pub input_quality_bands_q15: [i32; VAD_N_BANDS],
    pub speech_activity_q8: i32,
    pub use_cbr: i32,
    pub fs_khz: i32,
    pub nb_subfr: i32,
    pub warping_q16: i32,
    pub la_shape: i32,
    pub shape_win_length: i32,
    pub shaping_lpc_order: i32,
    pub predict_lpc_order: i32,
    pub subfr_length: i32,
    pub la_pitch: i32,
    pub frame_length: i32,
    pub ltp_mem_length: i32,
    pub pitch_lpc_win_length: i32,
    pub pitch_estimation_complexity: i32,
    pub pitch_estimation_threshold_q16: i32,
    pub first_frame_after_reset: i32,
    pub prev_signal_type: i32,
    pub input_tilt_q15: i32,
    pub n_states_delayed_decision: i32,
    pub prev_lag: i32,
    pub x_buf: [i16; X_BUF_LENGTH],
    pub prev_nlsf_q15: [i16; MAX_LPC_ORDER],
    pub n_nlsf_survivors: i32,
    pub variable_hp_smth1_q15: i32,
    pub variable_hp_smth2_q15: i32,
    pub s_vad: SilkVADState,
    pub lbrr_enabled: i32,
    pub indices_lbrr: [SideInfoIndices; MAX_FRAMES_PER_PACKET],
    pub pulses_lbrr: [[i8; MAX_FRAME_LENGTH]; MAX_FRAMES_PER_PACKET],
    pub n_frames_encoded: i32,
    pub n_frames_per_packet: i32,
    pub packet_size_ms: i32,
    pub complexity: i32,
    pub sum_log_gain_q7: i32,
    pub packet_loss_perc: i32,
    pub lbrr_flag: i8,
    pub no_speech_counter: i32,
    pub vad_flags: [i32; MAX_FRAMES_PER_PACKET],
    pub frame_counter: i32,
    pub ec_prev_signal_type: i32,
    pub ec_prev_lag_index: i16,
    pub use_interpolated_nlsfs: i32,
    pub lbrr_gain_increases: i32,
    pub lbrr_flags: [i32; MAX_FRAMES_PER_PACKET],
    /// Gain-index continuity for the LBRR frames alone. LBRR raises the first
    /// subframe's gain, so its indices dequantize along a different chain than
    /// the primary frame's and cannot share `s_shape.last_gain_index`.
    pub lbrr_prev_last_gain_index: i8,
}

impl SilkEncoderStateCommon {
    /// Whether this is the state before the first frame.
    pub open spec fn is_reset(&self) -> bool {
        &&& self.indices.is_reset()
        &&& self.snr_db_q7 == 0
        &&& zeros32(self.input_quality_bands_q15@)
        &&& self.speech_activity_q8 == 0
        &&& self.use_cbr == 0
        &&& self.fs_khz == 0
        &&& self.nb_subfr == 0
        &&& self.warping_q16 == 0
        &&& self.la_shape == 0
        &&& self.shape_win_length == 0
        &&& self.shaping_lpc_order == 0
        &&& self.predict_lpc_order == 0
        &&& self.subfr_length == 0
        &&& self.la_pitch == 0
        &&& self.frame_length == 0
        &&& self.ltp_mem_length == 0
        &&& self.pitch_lpc_win_length == 0
        &&& self.pitch_estimation_complexity == 0
        &&& self.pitch_estimation_threshold_q16 == 0
        &&& self.first_frame_after_reset == 0
        &&& self.prev_signal_type == 0
        &&& self.input_tilt_q15 == 0
        &&& self.n_states_delayed_decision == 0
        &&& self.prev_lag == 0
        &&& zeros16(self.x_buf@)
        &&& zeros16(self.prev_nlsf_q15@)
        &&& self.n_nlsf_survivors == 0
        &&& self.variable_hp_smth1_q15 == 0
        &&& self.variable_hp_smth2_q15 == 0
        &&& self.s_vad.is_reset()
        &&& self.lbrr_enabled == 0
        &&& forall|i: int|
            0 <= i < self.indices_lbrr@.len() ==> (#[trigger] self.indices_lbrr@[i]).is_reset()
        &&& forall|i: int| 0 <= i < self.pulses_lbrr@.len() ==> zeros8(#[trigger] self.pulses_lbrr@[i]@)
        &&& self.n_frames_encoded == 0
        &&& self.n_frames_per_packet == 0
        &&& self.packet_size_ms == 0
        &&& self.complexity == 0
        &&& self.sum_log_gain_q7 == 0
        &&& self.packet_loss_perc == 0
        &&& self.lbrr_flag == 0
        &&& self.no_speech_counter == 0
        &&& zeros32(self.vad_flags@)
        &&& self.frame_counter == 0
        &&& self.ec_prev_signal_type == 0
        &&& self.ec_prev_lag_index == 0
        &&& self.use_interpolated_nlsfs == 0
        &&& self.lbrr_gain_increases == 0
        &&& zeros32(self.lbrr_flags@)
        &&& self.lbrr_prev_last_gain_index == 0
    }
}

impl Default for SilkEncoderStateCommon {
    fn default() -> (s: Self)
        ensures
            s.is_reset(),
    {
        let fresh: SideInfoIndices = SideInfoIndices::default();
        SilkEncoderStateCommon {
            indices: SideInfoIndices::default(),
            snr_db_q7: 0,
            input_quality_bands_q15: [0; 4],
            speech_activity_q8: 0,
            use_cbr: 0,
            fs_khz: 0,
            nb_subfr: 0,
            warping_q16: 0,
            la_shape: 0,
            shape_win_length: 0,
            shaping_lpc_order: 0,
            predict_lpc_order: 0,
            subfr_length: 0,
            la_pitch: 0,
            frame_length: 0,
            ltp_mem_length: 0,
            pitch_lpc_win_length: 0,
            pitch_estimation_complexity: 0,
            pitch_estimation_threshold_q16: 0,
            first_frame_after_reset: 0,
            prev_signal_type: 0,
            input_tilt_q15: 0,
            n_states_delayed_decision: 0,
            prev_lag: 0,
            x_buf: [0; 720],
            prev_nlsf_q15: [0; 16],
            n_nlsf_survivors: 0,
            variable_hp_smth1_q15: 0,
            variable_hp_smth2_q15: 0,
            s_vad: SilkVADState::default(),
            lbrr_enabled: 0,
            indices_lbrr: [fresh, fresh, fresh],
            pulses_lbrr: [[0; 320]; 3],
            n_frames_encoded: 0,
            n_frames_per_packet: 0,
            packet_size_ms: 0,
            complexity: 0,
            sum_log_gain_q7: 0,
            packet_loss_perc: 0,
            lbrr_flag: 0,
            no_speech_counter: 0,
            vad_flags: [0; 3],
            frame_counter: 0,
            ec_prev_signal_type: 0,
            ec_prev_lag_index: 0,
            use_interpolated_nlsfs: 0,
            lbrr_gain_increases: 0,
            lbrr_flags: [0; 3],
            lbrr_prev_last_gain_index: 0,
        }
    }
}

/// What the noise shaping quantizer carries from frame to frame.
#[derive(Clone, Copy, Debug)]
pub struct SilkNSQState {
    pub xq: [i16; TWO_FRAMES],
    pub s_ltp_shp_q14: [i32; TWO_FRAMES],
    pub s_lpc_q14: [i32; NSQ_SUB_FRAME_LENGTH],
    pub s_ar2_q14: [i32; MAX_SHAPE_LPC_ORDER],
    pub s_lf_ar_q14: i32,
    pub s_diff_shp_q14: i32,
    pub lag_prev: i32,
    pub s_ltp_buf_idx: i32,
    pub s_ltp_shp_buf_idx: i32,
    pub rand_seed: i32,
    pub prev_gain_q16: i32,
    pub rewhite_flag: i32,
}

impl SilkNSQState {
    /// Whether this is the state before the first frame.
    pub open spec fn is_reset(&self) -> bool {
        &&& zeros16(self.xq@)
        &&& zeros32(self.s_ltp_shp_q14@)
        &&& zeros32(self.s_lpc_q14@)
        &&& zeros32(self.s_ar2_q14@)
        &&& self.s_lf_ar_q14 == 0
        &&& self.s_diff_shp_q14 == 0
        &&& self.lag_prev == 0
        &&& self.s_ltp_buf_idx == 0
        &&& self.s_ltp_shp_buf_idx == 0
        &&& self.rand_seed == 0
        &&& self.prev_gain_q16 == 0
        &&& self.rewhite_flag == 0
    }
}

impl Default for SilkNSQState {
    fn default() -> (s: Self)
        ensures
            s.is_reset(),
    {
        SilkNSQState {
            xq: [0; 640],
            s_ltp_shp_q14: [0; 640],
            s_lpc_q14: [0; 96],
            s_ar2_q14: [0; 24],
            s_lf_ar_q14: 0,
            s_diff_shp_q14: 0,
            lag_prev: 0,
            s_ltp_buf_idx: 0,
            s_ltp_shp_buf_idx: 0,
            rand_seed: 0,
            prev_gain_q16: 0,
            rewhite_flag: 0,
        }
    }
}

/// The state of one channel's encoder.
pub struct SilkEncoderState {
    pub s_cmn: SilkEncoderStateCommon,
    pub s_shape: SilkShapeState,
    pub pulses: [i8; MAX_FRAME_LENGTH],
    pub s_nsq: SilkNSQState,
    pub ltp_corr_q15: i32,
    pub pitch_estimation_lpc_order: i32,
    pub ps_nlsf_cb: Option<&'static NLSFCodebook>,
}

impl SilkEncoderState {
    /// Whether this is the state before the first frame.
    pub open spec fn is_reset(&self) -> bool {
        &&& self.s_cmn.is_reset()
        &&& self.s_shape.is_reset()
        &&& zeros8(self.pulses@)
        &&& self.s_nsq.is_reset()
        &&& self.ltp_corr_q15 == 0
        &&& self.pitch_estimation_lpc_order == 0
        &&& self.ps_nlsf_cb is None
    }
}

impl Default for SilkEncoderState {
    fn default() -> (s: Self)
        ensures
            s.is_reset(),
    {
        SilkEncoderState {
            s_cmn: SilkEncoderStateCommon::default(),
            s_shape: SilkShapeState::default(),
            pulses: [0; 320],
            s_nsq: SilkNSQState::default(),
            ltp_corr_q15: 0,
            pitch_estimation_lpc_order: 0,
            ps_nlsf_cb: None,
        }
    }
}

/// What the encoder decides for one frame.
#[derive(Clone, Copy, Debug)]
pub struct SilkEncoderControl {
    pub input_quality_q14: i32,
    pub coding_quality_q14: i32,
    pub pitch_l: [i32; MAX_NB_SUBFR],
    pub gains_q16: [i32; MAX_NB_SUBFR],
    pub gains_unq_q16: [i32; MAX_NB_SUBFR],
    pub pred_coef_q12: [[i16; MAX_LPC_ORDER]; 2],
    pub ltp_coef_q14: [i16; LTP_COEFS],
    pub ltp_scale_q14: i32,
    pub ar_q13: [i16; SHAPE_COEFS],
    pub lf_shp_q14: [i32; MAX_NB_SUBFR],
    pub tilt_q14: [i32; MAX_NB_SUBFR],
    pub harm_shape_gain_q14: [i32; MAX_NB_SUBFR],
    pub lambda_q10: i32,
    pub pred_gain_q16: i32,
    pub ltp_red_cod_gain_q7: i32,
    pub res_nrg: [i32; MAX_NB_SUBFR],
    pub res_nrg_q: [i32; MAX_NB_SUBFR],
    pub last_gain_index_prev: i8,
}

impl SilkEncoderControl {
    /// Whether this is the state before the first frame.
    pub open spec fn is_reset(&self) -> bool {
        &&& self.input_quality_q14 == 0
        &&& self.coding_quality_q14 == 0
        &&& zeros32(self.pitch_l@)
        &&& zeros32(self.gains_q16@)
        &&& zeros32(self.gains_unq_q16@)
        &&& forall|i: int| 0 <= i < self.pred_coef_q12@.len() ==> zeros16(#[trigger] self.pred_coef_q12@[i]@)
        &&& zeros16(self.ltp_coef_q14@)
        &&& self.ltp_scale_q14 == 0
        &&& zeros16(self.ar_q13@)
        &&& zeros32(self.lf_shp_q14@)
        &&& zeros32(self.tilt_q14@)
        &&& zeros32(self.harm_shape_gain_q14@)
        &&& self.lambda_q10 == 0
        &&& self.pred_gain_q16 == 0
        &&& self.ltp_red_cod_gain_q7 == 0
        &&& zeros32(self.res_nrg@)
        &&& zeros32(self.res_nrg_q@)
        &&& self.last_gain_index_prev == 0
    }
}

impl Default for SilkEncoderControl {
    fn default() -> (s: Self)
        ensures
            s.is_reset(),
    {
        SilkEncoderControl {
            input_quality_q14: 0,
            coding_quality_q14: 0,
            pitch_l: [0; 4],
            gains_q16: [0; 4],
            gains_unq_q16: [0; 4],
            pred_coef_q12: [[0; 16]; 2],
            ltp_coef_q14: [0; 20],
            ltp_scale_q14: 0,
            ar_q13: [0; 96],
            lf_shp_q14: [0; 4],
            tilt_q14: [0; 4],
            harm_shape_gain_q14: [0; 4],
            lambda_q10: 0,
            pred_gain_q16: 0,
            ltp_red_cod_gain_q7: 0,
            res_nrg: [0; 4],
            res_nrg_q: [0; 4],
            last_gain_index_prev: 0,
        }
    }
}

/// The encoder as a whole: one state per internal channel and what the two
/// share. The second codes the side channel, and only where there is one.
pub struct SilkEncoder {
    /// The channels' encoders.
    pub state: [SilkEncoderState; 2],
    /// The mid/side state.
    pub stereo: SilkStereoState,
    /// The channels coded, 1 or 2.
    pub n_channels_internal: i32,
    /// Whether the last frame dropped its side channel.
    pub prev_decode_only_middle: i32,
    /// Bits spent above the requested rate on earlier packets.
    pub n_bits_exceeded: i32,
    /// What repeated frames cost per packet, as a running estimate.
    pub n_bits_used_lbrr: i32,
    /// The packet length in force when the waiting repeated frames were stored.
    pub lbrr_packet_size_ms: i32,
    /// The channels in force then.
    pub lbrr_n_channels: i32,
}

impl SilkEncoder {
    /// Whether this is the state before the first frame.
    pub open spec fn is_reset(&self) -> bool {
        &&& self.state@[0].is_reset()
        &&& self.state@[1].is_reset()
        &&& self.stereo.is_reset()
        &&& self.n_channels_internal == 1
        &&& self.prev_decode_only_middle == 0
        &&& self.n_bits_exceeded == 0
        &&& self.n_bits_used_lbrr == 0
        &&& self.lbrr_packet_size_ms == 0
        &&& self.lbrr_n_channels == 0
    }
}

impl Default for SilkEncoder {
    fn default() -> (s: Self)
        ensures
            s.is_reset(),
    {
        SilkEncoder {
            state: [SilkEncoderState::default(), SilkEncoderState::default()],
            stereo: SilkStereoState::default(),
            n_channels_internal: 1,
            prev_decode_only_middle: 0,
            n_bits_exceeded: 0,
            n_bits_used_lbrr: 0,
            lbrr_packet_size_ms: 0,
            lbrr_n_channels: 0,
        }
    }
}

} // verus!
