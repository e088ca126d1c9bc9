//! Decoding one frame of one channel.

use vstd::prelude::*;

use crate::silk::cng::{cng_result, silk_cng};
use crate::silk::decode_core::{
    control_valid, core_result, is_voiced, lag_fits, lag_of, silk_decode_core,
};
use crate::silk::decoder_structs::{SilkDecoderControl, SilkDecoderState};
use crate::silk::init_decoder::configured;
use crate::silk::structs::SideInfoIndices;
use crate::silk::plc::{
    glue_result, good_result, lost_result, plc_inv, silk_plc, silk_plc_glue_frames, with_lag,
};

verus! {

/// A frame that arrived.
pub const FLAG_DECODE_NORMAL: i32 = 0;

/// A frame that was lost.
pub const FLAG_PACKET_LOST: i32 = 1;

/// A lost frame that the next packet repeats.
pub const FLAG_DECODE_LBRR: i32 = 2;

/// What decoding a frame needs beside the indices: its pulses and what its
/// indices stand for, where it is there; and of the spectra that comfort noise
/// and concealment keep, the short-term prediction and the inverse prediction
/// gain.
#[derive(Clone, Copy, Debug)]
pub struct FrameInput {
    /// The pulses.
    pub pulses: [i16; 320],
    /// The parameters.
    pub ctrl: SilkDecoderControl,
    /// The line spectral frequencies, Q15.
    pub prev_nlsf_q15: [i16; 16],
    /// The gain index of the last subframe.
    pub last_gain_index: i8,
    /// How the first half's spectrum is interpolated, Q2: as the indices say, or
    /// not at all behind a reset.
    pub nlsf_interp_coef_q2: i8,
    /// The short-term prediction of comfort noise, Q12.
    pub a_q12: [i16; 16],
    /// The inverse prediction gain of concealment, Q30.
    pub inv_gain_q30: i32,
}

/// A decoder that has worked out the parameters of a frame: the spectrum and the
/// gain that the next frame's are coded against are those of this one.
pub open spec fn with_parameters(d: SilkDecoderState, input: FrameInput) -> SilkDecoderState {
    SilkDecoderState {
        prev_nlsf_q15: input.prev_nlsf_q15,
        last_gain_index: input.last_gain_index,
        indices: SideInfoIndices { nlsf_interp_coef_q2: input.nlsf_interp_coef_q2, ..d.indices },
        ..d
    }
}

/// What holds of a channel's decoder between frames.
pub open spec fn frame_ready(d: SilkDecoderState) -> bool {
    &&& configured(d)
    &&& d.nb_subfr == 2 || d.nb_subfr == 4
    &&& plc_inv(d)
    &&& 0 <= d.loss_cnt
    &&& d.prev_gain_q16 > i32::MIN
}

/// Whether a frame is there to be decoded: it arrived, or the packet behind it
/// repeats it.
pub open spec fn is_coded(d: SilkDecoderState, lost_flag: int) -> bool {
    lost_flag == 0 || (lost_flag == 2 && d.lbrr_flags@[d.n_frames_decoded as int] == 1)
}

/// See [`is_coded`].
pub fn frame_is_coded(d: &SilkDecoderState, lost_flag: i32) -> (b: bool)
    requires
        0 <= d.n_frames_decoded < 3,
    ensures
        b == is_coded(*d, lost_flag as int),
        lost_flag == FLAG_DECODE_NORMAL ==> b,
        lost_flag == FLAG_PACKET_LOST ==> !b,
        lost_flag == FLAG_DECODE_LBRR ==> b == (d.lbrr_flags@[d.n_frames_decoded as int] == 1),
{
    lost_flag == 0 || (lost_flag == 2 && d.lbrr_flags[d.n_frames_decoded as usize] == 1)
}

/// The last output moved on by a frame.
pub open spec fn moved_output(d: SilkDecoderState, x: Seq<i16>) -> Seq<i16> {
    let n = d.frame_length as int;
    let mv = d.ltp_mem_length - n;
    Seq::new(
        480,
        |i: int|
            if mv <= i < mv + n {
                x[i - mv]
            } else {
                d.out_buf@[(i + n) % 480]
            },
    )
}

/// Move the history along and put the frame behind it, before noise is mixed in:
/// the next frame is predicted from what was coded.
fn update_out_buf(ps_dec: &mut SilkDecoderState, p_out: &[i16], l: usize)
    requires
        l == old(ps_dec).frame_length,
        l <= p_out@.len(),
        l <= 320,
        old(ps_dec).frame_length <= old(ps_dec).ltp_mem_length <= 320,
    ensures
        final(ps_dec).out_buf@ == moved_output(*old(ps_dec), p_out@),
        *final(ps_dec) == (SilkDecoderState { out_buf: final(ps_dec).out_buf, ..*old(ps_dec) }),
{
    let mv: usize = (ps_dec.ltp_mem_length - ps_dec.frame_length) as usize;
    let mut buf: [i16; 480] = [0; 480];
    let mut i: usize = 0;
    while i < 480
        invariant
            i <= 480,
            l == ps_dec.frame_length,
            l <= p_out@.len(),
            l <= 320,
            mv == ps_dec.ltp_mem_length - ps_dec.frame_length,
            *ps_dec == *old(ps_dec),
            forall|j: int| 0 <= j < i ==> #[trigger] buf@[j] == moved_output(*ps_dec, p_out@)[j],
        decreases 480 - i,
    {
        buf[i] = if mv <= i && i < mv + l {
            p_out[i - mv]
        } else {
            ps_dec.out_buf[(i + l) % 480]
        };
        i += 1;
    }
    ps_dec.out_buf = buf;
    assert(ps_dec.out_buf@ =~= moved_output(*old(ps_dec), p_out@));
}

/// A decoder with the history moved on.
pub open spec fn output_moved(d: SilkDecoderState, x: Seq<i16>, next: SilkDecoderState) -> bool {
    &&& next.out_buf@ == moved_output(d, x)
    &&& next == (SilkDecoderState { out_buf: next.out_buf, ..d })
}

/// `d` with all that decoding a frame may change taken from `next`.
pub open spec fn frame_part(d: SilkDecoderState, next: SilkDecoderState) -> SilkDecoderState {
    SilkDecoderState {
        exc_q14: next.exc_q14,
        s_lpc_q14_buf: next.s_lpc_q14_buf,
        out_buf: next.out_buf,
        prev_gain_q16: next.prev_gain_q16,
        lag_prev: next.lag_prev,
        last_gain_index: next.last_gain_index,
        prev_nlsf_q15: next.prev_nlsf_q15,
        indices: next.indices,
        first_frame_after_reset: next.first_frame_after_reset,
        s_cng: next.s_cng,
        loss_cnt: next.loss_cnt,
        prev_signal_type: next.prev_signal_type,
        s_plc: next.s_plc,
        ..d
    }
}

/// What a frame that is there does, up to comfort noise: its parameters taken
/// over, synthesis, the history, concealment refreshed, the loss over.
pub open spec fn coded_part(
    d: SilkDecoderState,
    input: FrameInput,
    frame: Seq<i16>,
    next: SilkDecoderState,
    next_c: SilkDecoderControl,
    out: Seq<i16>,
) -> bool {
    exists|d1: SilkDecoderState, d2: SilkDecoderState, d3: SilkDecoderState|
        {
            &&& #[trigger] core_result(
                with_parameters(d, input),
                input.ctrl,
                input.pulses@,
                frame,
                d1,
                next_c,
                out,
            )
            &&& #[trigger] output_moved(d1, out, d2)
            &&& #[trigger] good_result(d2, next_c, d3)
            &&& next == (SilkDecoderState {
                loss_cnt: 0,
                prev_signal_type: d.indices.signal_type as i32,
                first_frame_after_reset: 0,
                ..d3
            })
        }
}

/// What a lost frame does, up to comfort noise: concealment, the history.
pub open spec fn lost_part(
    d: SilkDecoderState,
    inv_gain_q30: int,
    frame: Seq<i16>,
    next: SilkDecoderState,
    out: Seq<i16>,
    lag: int,
) -> bool {
    exists|d1: SilkDecoderState|
        {
            &&& #[trigger] lost_result(d, inv_gain_q30, frame, d1, out, lag)
            &&& #[trigger] output_moved(d1, out, next)
        }
}

/// What the end of every frame does: comfort noise, frames joined, the last
/// pitch lag kept.
pub open spec fn frame_end(
    d: SilkDecoderState,
    c: SilkDecoderControl,
    a_q12: Seq<i16>,
    frame: Seq<i16>,
    next: SilkDecoderState,
    out: Seq<i16>,
) -> bool {
    let n = d.frame_length as int;
    exists|d1: SilkDecoderState, x1: Seq<i16>, d2: SilkDecoderState|
        {
            &&& #[trigger] cng_result(d, c.gains_q16@, a_q12, n, frame, d1, x1)
            &&& #[trigger] glue_result(d1, x1, n, d2, out)
            &&& next == (SilkDecoderState { lag_prev: c.pitch_l@[d.nb_subfr - 1], ..d2 })
        }
}

fn decode_good(
    ps_dec: &mut SilkDecoderState,
    ps_dec_ctrl: &mut SilkDecoderControl,
    input: &FrameInput,
    p_out: &mut [i16],
)
    requires
        frame_ready(*old(ps_dec)),
        0 <= old(ps_dec).indices.signal_type <= 2,
        0 <= old(ps_dec).indices.quant_offset_type <= 1,
        control_valid(*old(ps_dec), input.ctrl),
        *old(ps_dec_ctrl) == input.ctrl,
        old(ps_dec).frame_length <= old(p_out)@.len(),
    ensures
        coded_part(
            *old(ps_dec),
            *input,
            old(p_out)@,
            *final(ps_dec),
            *final(ps_dec_ctrl),
            final(p_out)@,
        ),
        final(p_out)@.len() == old(p_out)@.len(),
        frame_ready(*final(ps_dec)),
        final(ps_dec).loss_cnt == 0,
        final(ps_dec).prev_nlsf_q15 == input.prev_nlsf_q15,
        final(ps_dec).last_gain_index == input.last_gain_index,
        final(ps_dec).indices == with_parameters(*old(ps_dec), *input).indices,
        *final(ps_dec) == frame_part(*old(ps_dec), *final(ps_dec)),
        final(ps_dec).s_plc.fs_khz == final(ps_dec).fs_khz,
{
    ps_dec.prev_nlsf_q15 = input.prev_nlsf_q15;
    ps_dec.last_gain_index = input.last_gain_index;
    ps_dec.indices.nlsf_interp_coef_q2 = input.nlsf_interp_coef_q2;
    let ghost d = *ps_dec;
    let ghost c = *ps_dec_ctrl;
    let ghost frame = p_out@;
    proof {
        assert(d == with_parameters(*old(ps_dec), *input));
        assert forall|k: int| 0 <= k < d.nb_subfr && is_voiced(d, k) implies lag_fits(
            d,
            #[trigger] lag_of(d, c.pitch_l@, k),
        ) by {
            assert(is_voiced(*old(ps_dec), k));
            assert(lag_fits(*old(ps_dec), lag_of(*old(ps_dec), c.pitch_l@, k)));
        }
        lemma_frame_length(d);
    }
    let l: usize = ps_dec.frame_length as usize;
    silk_decode_core(ps_dec, ps_dec_ctrl, p_out, &input.pulses);
    let ghost d1 = *ps_dec;
    update_out_buf(ps_dec, p_out, l);
    let ghost d2 = *ps_dec;
    proof {
        if d.indices.signal_type == 2 {
            assert forall|k: int| 0 <= k < d.nb_subfr implies lag_fits(
                d2,
                #[trigger] ps_dec_ctrl.pitch_l@[k] as int,
            ) by {
                assert(is_voiced(d, k));
                assert(lag_fits(d, lag_of(d, c.pitch_l@, k)));
            }
        }
        assert forall|k: int| 0 <= k < d.nb_subfr implies #[trigger] ps_dec_ctrl.gains_q16@[k]
            > 0 by {
            assert(c.gains_q16@[k] > 0);
        }
    }
    let ghost out = p_out@;
    silk_plc(ps_dec, ps_dec_ctrl, p_out, 0, 0);
    let ghost d3 = *ps_dec;
    ps_dec.loss_cnt = 0;
    ps_dec.prev_signal_type = ps_dec.indices.signal_type as i32;
    ps_dec.first_frame_after_reset = 0;
    assert(core_result(d, c, input.pulses@, frame, d1, *ps_dec_ctrl, out));
    assert(output_moved(d1, out, d2));
    assert(good_result(d2, *ps_dec_ctrl, d3));
}

fn decode_lost(
    ps_dec: &mut SilkDecoderState,
    ps_dec_ctrl: &mut SilkDecoderControl,
    p_out: &mut [i16],
    inv_gain_q30: i32,
)
    requires
        frame_ready(*old(ps_dec)),
        old(ps_dec).loss_cnt < i32::MAX,
        old(ps_dec).frame_length <= old(p_out)@.len(),
    ensures
        lost_part(
            *old(ps_dec),
            inv_gain_q30 as int,
            old(p_out)@,
            *final(ps_dec),
            final(p_out)@,
            final(ps_dec_ctrl).pitch_l@[0] as int,
        ),
        with_lag(
            *old(ps_dec_ctrl),
            *final(ps_dec_ctrl),
            final(ps_dec_ctrl).pitch_l@[0] as int,
        ),
        lag_fits(*old(ps_dec), final(ps_dec_ctrl).pitch_l@[0] as int),
        final(p_out)@.len() == old(p_out)@.len(),
        frame_ready(*final(ps_dec)),
        final(ps_dec).loss_cnt == old(ps_dec).loss_cnt + 1,
        final(ps_dec).prev_nlsf_q15 == old(ps_dec).prev_nlsf_q15,
        final(ps_dec).last_gain_index == old(ps_dec).last_gain_index,
        final(ps_dec).indices == old(ps_dec).indices,
        *final(ps_dec) == frame_part(*old(ps_dec), *final(ps_dec)),
        final(ps_dec).s_plc.fs_khz == final(ps_dec).fs_khz,
{
    let ghost d = *ps_dec;
    let ghost frame = p_out@;
    proof {
        lemma_frame_length(d);
    }
    let l: usize = ps_dec.frame_length as usize;
    silk_plc(ps_dec, ps_dec_ctrl, p_out, 1, inv_gain_q30);
    let ghost d1 = *ps_dec;
    update_out_buf(ps_dec, p_out, l);
    assert(lost_result(
        d,
        inv_gain_q30 as int,
        frame,
        d1,
        p_out@,
        ps_dec_ctrl.pitch_l@[0] as int,
    ));
    assert(output_moved(d1, p_out@, *ps_dec));
}

pub proof fn lemma_frame_length(d: SilkDecoderState)
    requires
        frame_ready(d),
    ensures
        80 <= d.frame_length <= 320,
        d.frame_length <= d.ltp_mem_length <= 320,
        d.nb_subfr * d.subfr_length == d.frame_length,
{
    let n: int = d.subfr_length as int;
    let k: int = d.nb_subfr as int;
    assert(n * k >= 2 * n && n * k <= 4 * n && k * n == n * k) by (nonlinear_arith)
        requires
            2 <= k <= 4,
            n >= 0,
    ;
}

/// Decode one frame into `p_out`; `p_n` becomes its length.
///
/// Where the frame is there (see [`is_coded`]), its indices have been read and
/// `input` holds what they and the bits behind them stand for. Where it is not,
/// it is concealed.
pub fn silk_decode_frame(
    ps_dec: &mut SilkDecoderState,
    input: &FrameInput,
    p_out: &mut [i16],
    p_n: &mut i32,
    lost_flag: i32,
) -> (r: i32)
    requires
        frame_ready(*old(ps_dec)),
        0 <= old(ps_dec).n_frames_decoded < 3,
        old(ps_dec).frame_length <= old(p_out)@.len(),
        is_coded(*old(ps_dec), lost_flag as int) ==> {
            &&& 0 <= old(ps_dec).indices.signal_type <= 2
            &&& 0 <= old(ps_dec).indices.quant_offset_type <= 1
            &&& control_valid(*old(ps_dec), input.ctrl)
        },
        !is_coded(*old(ps_dec), lost_flag as int) ==> old(ps_dec).loss_cnt < i32::MAX,
    ensures
        r == 0,
        *final(p_n) == old(ps_dec).frame_length,
        final(p_out)@.len() == old(p_out)@.len(),
        frame_ready(*final(ps_dec)),
        final(ps_dec).s_plc.fs_khz == final(ps_dec).fs_khz,
        final(ps_dec).loss_cnt == if is_coded(*old(ps_dec), lost_flag as int) {
            0
        } else {
            old(ps_dec).loss_cnt + 1
        },
        lost_flag == FLAG_DECODE_NORMAL ==> final(ps_dec).loss_cnt == 0,
        lost_flag == FLAG_PACKET_LOST ==> final(ps_dec).loss_cnt == old(ps_dec).loss_cnt + 1,
        lost_flag == FLAG_DECODE_LBRR ==> final(ps_dec).loss_cnt == if old(
            ps_dec,
        ).lbrr_flags@[old(ps_dec).n_frames_decoded as int] == 1 {
            0
        } else {
            old(ps_dec).loss_cnt + 1
        },
        !is_coded(*old(ps_dec), lost_flag as int) ==> lag_fits(
            *old(ps_dec),
            final(ps_dec).lag_prev as int,
        ),
        *final(ps_dec) == frame_part(*old(ps_dec), *final(ps_dec)),
        is_coded(*old(ps_dec), lost_flag as int) ==> {
            &&& final(ps_dec).prev_nlsf_q15 == input.prev_nlsf_q15
            &&& final(ps_dec).last_gain_index == input.last_gain_index
            &&& final(ps_dec).indices == with_parameters(*old(ps_dec), *input).indices
        },
        !is_coded(*old(ps_dec), lost_flag as int) ==> {
            &&& final(ps_dec).prev_nlsf_q15 == old(ps_dec).prev_nlsf_q15
            &&& final(ps_dec).last_gain_index == old(ps_dec).last_gain_index
            &&& final(ps_dec).indices == old(ps_dec).indices
        },
        channel_result(
            *old(ps_dec),
            lost_flag as int,
            *input,
            old(p_out)@,
            *final(ps_dec),
            final(p_out)@,
        ),
{
    let ghost d = *ps_dec;
    let ghost frame = p_out@;
    proof {
        lemma_frame_length(d);
    }
    let l: usize = ps_dec.frame_length as usize;
    let mut ctrl: SilkDecoderControl = input.ctrl;
    if frame_is_coded(ps_dec, lost_flag) {
        decode_good(ps_dec, &mut ctrl, input, p_out);
    } else {
        decode_lost(ps_dec, &mut ctrl, p_out, input.inv_gain_q30);
    }
    let ghost m = *ps_dec;
    let ghost x = p_out@;
    proof {
        lemma_frame_length(m);
    }
    silk_cng(ps_dec, &ctrl, p_out, l, &input.a_q12);
    let ghost m1 = *ps_dec;
    let ghost x1 = p_out@;
    silk_plc_glue_frames(ps_dec, p_out, l);
    let ghost m2 = *ps_dec;
    ps_dec.lag_prev = ctrl.pitch_l[ps_dec.nb_subfr as usize - 1];
    *p_n = l as i32;
    assert(cng_result(m, ctrl.gains_q16@, input.a_q12@, m.frame_length as int, x, m1, x1));
    assert(glue_result(m1, x1, m.frame_length as int, m2, p_out@));
    assert(frame_end(m, ctrl, input.a_q12@, x, *ps_dec, p_out@));
    assert(frame_middle(d, *input, lost_flag as int, frame, m, ctrl, x));
    assert(frame_result(d, *input, lost_flag as int, frame, *ps_dec, ctrl, p_out@));
    0
}

/// What a frame does up to comfort noise.
pub open spec fn frame_middle(
    d: SilkDecoderState,
    input: FrameInput,
    lost_flag: int,
    frame: Seq<i16>,
    m: SilkDecoderState,
    next_c: SilkDecoderControl,
    x: Seq<i16>,
) -> bool {
    if is_coded(d, lost_flag) {
        coded_part(d, input, frame, m, next_c, x)
    } else {
        lost_part(d, input.inv_gain_q30 as int, frame, m, x, next_c.pitch_l@[0] as int)
            && with_lag(input.ctrl, next_c, next_c.pitch_l@[0] as int)
    }
}

/// What a frame does to the decoder, its parameters and the output.
pub open spec fn frame_result(
    d: SilkDecoderState,
    input: FrameInput,
    lost_flag: int,
    frame: Seq<i16>,
    next: SilkDecoderState,
    next_c: SilkDecoderControl,
    out: Seq<i16>,
) -> bool {
    exists|m: SilkDecoderState, x: Seq<i16>|
        {
            &&& #[trigger] frame_middle(d, input, lost_flag, frame, m, next_c, x)
            &&& frame_end(m, next_c, input.a_q12@, x, next, out)
        }
}

/// What decoding a channel's frame does.
pub open spec fn channel_result(
    d: SilkDecoderState,
    lost_flag: int,
    input: FrameInput,
    frame: Seq<i16>,
    next: SilkDecoderState,
    out: Seq<i16>,
) -> bool {
    exists|c: SilkDecoderControl|
        #[trigger] frame_result(d, input, lost_flag, frame, next, c, out)
}

} // verus!
