//! Setting up a channel's decoder.

use vstd::prelude::*;

use crate::silk::cng::{flat_nlsf, silk_cng_reset};
use crate::silk::decoder_structs::{
    NlsfCodebookKind, SilkCngState, SilkDecoderState, SilkPlcState,
};
use crate::silk::structs::{zeros16, zeros32, SideInfoIndices};
use crate::silk::tables::{
    SILK_PITCH_CONTOUR_10_MS_ICDF, SILK_PITCH_CONTOUR_10_MS_NB_ICDF, SILK_PITCH_CONTOUR_ICDF,
    SILK_PITCH_CONTOUR_NB_ICDF, SILK_UNIFORM4_ICDF, SILK_UNIFORM6_ICDF, SILK_UNIFORM8_ICDF,
};

verus! {

/// Whether a rate is one the speech layer runs at, in kHz.
pub open spec fn is_internal_rate(fs_khz: int) -> bool {
    fs_khz == 8 || fs_khz == 12 || fs_khz == 16
}

/// The pitch contours of a rate and a frame length.
pub open spec fn contour_table(fs_khz: int, nb_subfr: int) -> Seq<u8> {
    if fs_khz == 8 {
        if nb_subfr == 4 {
            SILK_PITCH_CONTOUR_NB_ICDF@
        } else {
            SILK_PITCH_CONTOUR_10_MS_NB_ICDF@
        }
    } else if nb_subfr == 4 {
        SILK_PITCH_CONTOUR_ICDF@
    } else {
        SILK_PITCH_CONTOUR_10_MS_ICDF@
    }
}

/// The low part of a pitch lag at a rate.
pub open spec fn lag_table(fs_khz: int) -> Seq<u8> {
    if fs_khz == 8 {
        SILK_UNIFORM4_ICDF@
    } else if fs_khz == 12 {
        SILK_UNIFORM6_ICDF@
    } else {
        SILK_UNIFORM8_ICDF@
    }
}

/// Whether the sizes and tables of a decoder are those of its rate and its
/// number of subframes.
pub open spec fn configured(d: SilkDecoderState) -> bool {
    &&& is_internal_rate(d.fs_khz as int)
    &&& d.subfr_length == 5 * d.fs_khz
    &&& d.frame_length == d.subfr_length * d.nb_subfr
    &&& d.ltp_mem_length == 20 * d.fs_khz
    &&& d.lpc_order == if d.fs_khz == 16 {
        16int
    } else {
        10
    }
    &&& d.pitch_contour_icdf@ == contour_table(d.fs_khz as int, d.nb_subfr as int)
    &&& d.pitch_lag_low_bits_icdf@ == lag_table(d.fs_khz as int)
    &&& d.ps_nlsf_cb == Some(
        if d.fs_khz == 16 {
            NlsfCodebookKind::Wb
        } else {
            NlsfCodebookKind::NbMb
        },
    )
}

/// Whether all that choosing a rate leaves alone agrees, the history apart.
pub open spec fn same_frame_state(a: SilkDecoderState, b: SilkDecoderState) -> bool {
    &&& a.prev_gain_q16 == b.prev_gain_q16
    &&& a.exc_q14 == b.exc_q14
    &&& a.nb_subfr == b.nb_subfr
    &&& a.prev_nlsf_q15 == b.prev_nlsf_q15
    &&& a.n_frames_decoded == b.n_frames_decoded
    &&& a.n_frames_per_packet == b.n_frames_per_packet
    &&& a.ec_prev_signal_type == b.ec_prev_signal_type
    &&& a.ec_prev_lag_index == b.ec_prev_lag_index
    &&& a.vad_flags == b.vad_flags
    &&& a.lbrr_flag == b.lbrr_flag
    &&& a.lbrr_flags == b.lbrr_flags
    &&& a.indices == b.indices
    &&& a.s_cng == b.s_cng
    &&& a.loss_cnt == b.loss_cnt
    &&& a.s_plc == b.s_plc
}

/// Whether the history is that of a decoder which has just been reset.
pub open spec fn history_cleared(d: SilkDecoderState) -> bool {
    &&& d.first_frame_after_reset == 1
    &&& d.lag_prev == 100
    &&& d.last_gain_index == 10
    &&& d.prev_signal_type == 0
    &&& zeros16(d.out_buf@)
    &&& zeros32(d.s_lpc_q14_buf@)
}

/// Whether two decoders have the same history.
pub open spec fn same_history(a: SilkDecoderState, b: SilkDecoderState) -> bool {
    &&& a.first_frame_after_reset == b.first_frame_after_reset
    &&& a.lag_prev == b.lag_prev
    &&& a.last_gain_index == b.last_gain_index
    &&& a.prev_signal_type == b.prev_signal_type
    &&& a.out_buf == b.out_buf
    &&& a.s_lpc_q14_buf == b.s_lpc_q14_buf
}

/// Choose the internal rate, in kHz; sizes and tables follow, by the number of
/// subframes already chosen. The history is cleared where the rate changes, and
/// only there: a change of the frame length keeps it. Returns -1, with nothing
/// changed, for a rate that does not exist.
pub fn silk_decoder_set_fs(dec: &mut SilkDecoderState, fs_khz: i32, fs_api_hz: i32) -> (r: i32)
    requires
        0 <= old(dec).nb_subfr <= 4,
    ensures
        !is_internal_rate(fs_khz as int) ==> r == -1 && *final(dec) == *old(dec),
        is_internal_rate(fs_khz as int) ==> {
            &&& r == 0
            &&& configured(*final(dec))
            &&& final(dec).fs_khz == fs_khz
            &&& final(dec).fs_api_hz == fs_api_hz
            &&& same_frame_state(*old(dec), *final(dec))
            &&& if old(dec).fs_khz != fs_khz {
                history_cleared(*final(dec))
            } else {
                same_history(*old(dec), *final(dec))
            }
        },
{
    if fs_khz != 8 && fs_khz != 12 && fs_khz != 16 {
        return -1;
    }
    let fs_changed = dec.fs_khz != fs_khz;
    dec.fs_khz = fs_khz;
    dec.fs_api_hz = fs_api_hz;
    dec.subfr_length = 5 * fs_khz;
    proof {
        let a: int = dec.subfr_length as int;
        let b: int = dec.nb_subfr as int;
        assert(0 <= a * b <= 320) by (nonlinear_arith)
            requires
                0 <= a <= 80,
                0 <= b <= 4,
        ;
    }
    dec.frame_length = dec.subfr_length * dec.nb_subfr;
    dec.ltp_mem_length = 20 * fs_khz;
    dec.lpc_order = if fs_khz == 16 {
        16
    } else {
        10
    };
    dec.pitch_contour_icdf = if fs_khz == 8 {
        if dec.nb_subfr == 4 {
            &SILK_PITCH_CONTOUR_NB_ICDF
        } else {
            &SILK_PITCH_CONTOUR_10_MS_NB_ICDF
        }
    } else if dec.nb_subfr == 4 {
        &SILK_PITCH_CONTOUR_ICDF
    } else {
        &SILK_PITCH_CONTOUR_10_MS_ICDF
    };
    dec.pitch_lag_low_bits_icdf = if fs_khz == 8 {
        &SILK_UNIFORM4_ICDF
    } else if fs_khz == 12 {
        &SILK_UNIFORM6_ICDF
    } else {
        &SILK_UNIFORM8_ICDF
    };
    dec.ps_nlsf_cb = Some(
        if fs_khz == 16 {
            NlsfCodebookKind::Wb
        } else {
            NlsfCodebookKind::NbMb
        },
    );
    if fs_changed {
        dec.first_frame_after_reset = 1;
        dec.lag_prev = 100;
        dec.last_gain_index = 10;
        dec.prev_signal_type = 0;
        dec.out_buf = [0; 480];
        dec.s_lpc_q14_buf = [0; 16];
    }
    0
}

/// Whether all that a frame leaves behind is gone.
pub open spec fn frame_state_cleared(d: SilkDecoderState) -> bool {
    &&& history_cleared(d)
    &&& d.prev_gain_q16 == 65536
    &&& zeros32(d.exc_q14@)
    &&& d.ec_prev_signal_type == 0
    &&& d.ec_prev_lag_index == 0
    &&& zeros32(d.vad_flags@)
    &&& d.lbrr_flag == 0
    &&& zeros32(d.lbrr_flags@)
    &&& zeros16(d.prev_nlsf_q15@)
    &&& d.loss_cnt == 0
    &&& d.indices.is_reset()
    &&& d.nb_subfr == 4
}

/// Whether two decoders have the same rate, sizes and tables, and count the
/// same frames.
pub open spec fn same_sizes(a: SilkDecoderState, b: SilkDecoderState) -> bool {
    &&& a.fs_khz == b.fs_khz
    &&& a.fs_api_hz == b.fs_api_hz
    &&& a.frame_length == b.frame_length
    &&& a.subfr_length == b.subfr_length
    &&& a.ltp_mem_length == b.ltp_mem_length
    &&& a.lpc_order == b.lpc_order
    &&& a.pitch_lag_low_bits_icdf == b.pitch_lag_low_bits_icdf
    &&& a.pitch_contour_icdf == b.pitch_contour_icdf
    &&& a.n_frames_decoded == b.n_frames_decoded
    &&& a.n_frames_per_packet == b.n_frames_per_packet
    &&& a.ps_nlsf_cb == b.ps_nlsf_cb
}

/// Forget everything the frames left behind.
pub fn silk_reset_decoder(ps_dec: &mut SilkDecoderState) -> (r: i32)
    ensures
        r == 0,
        frame_state_cleared(*final(ps_dec)),
        same_sizes(*old(ps_dec), *final(ps_dec)),
        final(ps_dec).s_cng == old(ps_dec).s_cng,
        final(ps_dec).s_plc == old(ps_dec).s_plc,
{
    ps_dec.prev_gain_q16 = 65536;
    ps_dec.exc_q14 = [0; 320];
    ps_dec.s_lpc_q14_buf = [0; 16];
    ps_dec.out_buf = [0; 480];
    ps_dec.lag_prev = 100;
    ps_dec.last_gain_index = 10;
    ps_dec.first_frame_after_reset = 1;
    ps_dec.ec_prev_signal_type = 0;
    ps_dec.ec_prev_lag_index = 0;
    ps_dec.vad_flags = [0; 3];
    ps_dec.lbrr_flag = 0;
    ps_dec.lbrr_flags = [0; 3];
    ps_dec.prev_nlsf_q15 = [0; 16];
    ps_dec.loss_cnt = 0;
    ps_dec.prev_signal_type = 0;
    ps_dec.indices = SideInfoIndices::default();
    ps_dec.nb_subfr = 4;
    0
}

/// Whether the comfort noise of a decoder is that of one which has just been
/// reset.
pub open spec fn noise_cleared(d: SilkDecoderState) -> bool {
    &&& flat_nlsf(d.s_cng.cng_smth_nlsf_q15@, d.lpc_order as int)
    &&& forall|i: int|
        d.lpc_order <= i < 16 ==> #[trigger] d.s_cng.cng_smth_nlsf_q15@[i] == 0
    &&& d.s_cng.cng_smth_gain_q16 == 0
    &&& d.s_cng.rand_seed == 3176576
    &&& zeros32(d.s_cng.cng_exc_buf_q14@)
    &&& zeros32(d.s_cng.cng_synth_state@)
    &&& d.s_cng.fs_khz == 0
}

/// Whether `b` is `a` with everything forgotten but its rate, its sizes and the
/// frames it counts.
pub open spec fn restarted(a: SilkDecoderState, b: SilkDecoderState) -> bool {
    &&& frame_state_cleared(b)
    &&& same_sizes(a, b)
    &&& noise_cleared(b)
    &&& b.s_plc.is_reset()
}

/// Forget everything, comfort noise and concealment with it.
pub fn silk_init_decoder(ps_dec: &mut SilkDecoderState) -> (r: i32)
    requires
        0 <= old(ps_dec).lpc_order <= 16,
    ensures
        r == 0,
        restarted(*old(ps_dec), *final(ps_dec)),
{
    silk_reset_decoder(ps_dec);
    ps_dec.s_cng = SilkCngState::default();
    silk_cng_reset(ps_dec);
    ps_dec.s_plc = SilkPlcState::default();
    0
}

} // verus!
