//! What concealment is for: a lost frame goes on from the last good one, at its
//! level, and fades.

use vstd::arithmetic::power2::lemma_pow2_adds;
use vstd::prelude::*;

use crate::silk::core_laws::{is_filtered, is_put_out_from, law_a_subframe_is_put_out_at_its_gain};
use crate::silk::decode_core::{control_valid, core_result, lag_fits, long_term};
use crate::silk::decode_frame::{
    channel_result, coded_part, frame_end, frame_middle, frame_result, lost_part, moved_output,
    output_moved, with_parameters, FrameInput,
};
use crate::silk::decoder_structs::{SilkDecoderControl, SilkDecoderState, SilkPlcState};
use crate::silk::init_decoder::configured;
use crate::silk::macros::{
    larger, lemma_wrap_is_word, lshift, rshift_round, smaller, smlawb, smulbb, smulwb, wrap,
};
use crate::silk::plc::{
    best_gain, best_lag_q8, concealed, draw_base, draw_index, fade_step, fade_steps, faded_past,
    faded_run, fading_lpc, first_rand_scale, good_result, kept_tap, last_period, lost_result,
    plc_inv, plc_refreshed, plc_start, rand_fade_q15, rand_gain_q15, tap_sum, with_loss_count,
    with_lpc_history, Fade,
};
use crate::silk::sigproc_fix::{inverse32_varq, residual};
use crate::silk::sigproc_laws::{
    is_residual, law_expansion_draws_weights_in, law_the_inverse_is_close,
    law_the_residual_is_what_prediction_leaves, lemma_weights_alike,
};
use crate::silk::synthesis::{lemma_synthesis_elsewhere, random_state, synthesis};
use crate::silk::synthesis_laws::{
    is_predicted, is_put_out, law_a_sample_is_put_out_at_its_gain,
    law_synthesis_puts_the_prediction_back, lemma_long_term_is_the_sum, lemma_tap, lemma_wraps_once,
};

verus! {

// ---------------------------------------------------------------------------
// The level
// ---------------------------------------------------------------------------
/// The gain of the last subframe before a loss, Q16: one where the rate has
/// changed since.
pub open spec fn last_gain_q16(d: SilkDecoderState) -> int {
    if d.fs_khz != d.s_plc.fs_khz {
        0x1_0000
    } else {
        d.s_plc.prev_gain_q16@[1] as int
    }
}

proof fn lemma_faded_len(d: SilkDecoderState, f: Fade, base: int, rg: int, k: int)
    requires
        configured(d),
        d.nb_subfr == 2 || d.nb_subfr == 4,
        0 <= k <= d.nb_subfr,
        f.buf.len() == d.ltp_mem_length + d.frame_length,
    ensures
        fade_steps(d, f, base, rg, k).buf.len() == f.buf.len(),
    decreases k,
{
    if k > 0 {
        lemma_faded_len(d, f, base, rg, k - 1);
        let g = fade_steps(d, f, base, rg, k - 1);
        let n: int = d.subfr_length as int;
        let nb: int = d.nb_subfr as int;
        assert(0 <= (k - 1) * n && (k - 1) * n + n <= n * nb) by (nonlinear_arith)
            requires
                1 <= k <= nb,
                n >= 0,
        ;
        lemma_run_len(
            g,
            d.exc_q14@,
            base,
            d.ltp_mem_length + (k - 1) * n,
            rshift_round(g.pitch_q8, 8),
            n,
        );
    }
}

proof fn lemma_run_len(f: Fade, exc: Seq<i32>, base: int, idx: int, lag: int, n: int)
    requires
        0 <= idx,
        idx + n <= f.buf.len(),
    ensures
        faded_run(f, exc, base, idx, lag, n).len() == f.buf.len(),
    decreases n,
{
    if n > 0 {
        lemma_run_len(f, exc, base, idx, lag, n - 1);
    }
}

proof fn lemma_plc_sizes(d: SilkDecoderState)
    requires
        configured(d),
        d.nb_subfr == 2 || d.nb_subfr == 4,
    ensures
        80 <= d.frame_length <= 320,
        160 <= d.ltp_mem_length <= 320,
        40 <= d.subfr_length <= 80,
        d.nb_subfr * d.subfr_length == d.frame_length,
        d.lpc_order == 10 || d.lpc_order == 16,
        d.frame_length <= d.ltp_mem_length,
{
    let n: int = d.subfr_length as int;
    let k: int = d.nb_subfr as int;
    assert(k * n == n * k && (k == 2 ==> n * k == 2 * n) && (k == 4 ==> n * k == 4 * n))
        by (nonlinear_arith);
}

spec fn fading_start(d: SilkDecoderState, p: SilkPlcState, a: Seq<i16>) -> Fade {
    Fade {
        buf: faded_past(d, p, a),
        b: p.ltp_coef_q14@,
        rand_scale: first_rand_scale(d, p),
        pitch_q8: p.pitch_l_q8 as int,
        seed: p.rand_seed as int,
    }
}

spec fn fading_end(d: SilkDecoderState, p: SilkPlcState, a: Seq<i16>, inv_gain_q30: int) -> Fade {
    fade_steps(
        d,
        fading_start(d, p, a),
        draw_base(d, p),
        rand_gain_q15(d, inv_gain_q30),
        d.nb_subfr as int,
    )
}

spec fn concealed_signal(
    d: SilkDecoderState,
    p: SilkPlcState,
    a: Seq<i16>,
    inv_gain_q30: int,
) -> Seq<i32> {
    let mem = d.ltp_mem_length as int;
    let n = d.frame_length as int;
    synthesis(
        with_lpc_history(d, fading_end(d, p, a, inv_gain_q30).buf),
        mem,
        a,
        d.lpc_order as int,
        n,
    ).subrange(mem - 16, mem + n)
}

#[verifier::spinoff_prover]
#[verifier::rlimit(60)]
proof fn lemma_concealed_signal(
    d: SilkDecoderState,
    p: SilkPlcState,
    a: Seq<i16>,
    inv_gain_q30: int,
    frame: Seq<i16>,
    next: SilkDecoderState,
    out: Seq<i16>,
    lag: int,
)
    requires
        plc_start(d, p),
        concealed(
            d,
            p,
            a,
            inv_gain_q30,
            frame,
            with_loss_count(next, d.loss_cnt),
            out,
            lag,
        ),
        configured(d),
        d.nb_subfr == 2 || d.nb_subfr == 4,
        d.frame_length <= frame.len(),
        last_gain_q16(d) > 0,
    ensures
        ({
            let n = d.frame_length as int;
            let mem = d.ltp_mem_length as int;
            let y = concealed_signal(d, p, a, inv_gain_q30);
            let e = fading_end(d, p, a, inv_gain_q30).buf.subrange(mem, mem + n);
            &&& fading_start(d, p, a).buf.len() == mem + n
            &&& fading_end(d, p, a, inv_gain_q30).buf.len() == mem + n
            &&& is_filtered(y, d.s_lpc_q14_buf@, e, a, d.lpc_order as int)
            &&& a == next.s_plc.prev_lpc_q12@
            &&& e.len() == n
            &&& is_put_out_from(out, 0, y, last_gain_q16(d))
            &&& next.s_lpc_q14_buf@ == y.subrange(n, n + 16)
        }),
{
    reveal(concealed);
    lemma_plc_sizes(d);
    let mem = d.ltp_mem_length as int;
    let n = d.frame_length as int;
    let order = d.lpc_order as int;
    let start = fading_start(d, p, a);
    let end = fading_end(d, p, a, inv_gain_q30);
    assert(start.buf.len() == mem + n) by {
        reveal(faded_past);
    }
    lemma_faded_len(d, start, draw_base(d, p), rand_gain_q15(d, inv_gain_q30), d.nb_subfr as int);
    let b = with_lpc_history(d, end.buf);
    assert(b.len() == mem + n);
    let whole = synthesis(b, mem, a, order, n);
    lemma_synthesis_elsewhere(b, mem, a, order, n, 0);
    let y = whole.subrange(mem - 16, mem + n);
    let e = end.buf.subrange(mem, mem + n);
    assert forall|i: int| 0 <= i < 16 implies #[trigger] y[i] == d.s_lpc_q14_buf@[i] by {
        lemma_synthesis_elsewhere(b, mem, a, order, n, mem - 16 + i);
    }
    assert forall|i: int| 0 <= i < e.len() implies is_predicted(
        y,
        16 + i,
        #[trigger] e[i] as int,
        a,
        order,
    ) by {
        law_synthesis_puts_the_prediction_back(b, mem, a, order, n, i);
        assert(b[mem + i] == e[i]);
        crate::silk::synthesis_laws::lemma_weighted_alike(whole, y, mem + i, 16 + i, a, order);
    }
    assert(is_filtered(y, d.s_lpc_q14_buf@, e, a, order));
    assert forall|i: int| 16 <= i < y.len() implies is_put_out(
        out[0 + i - 16] as int,
        #[trigger] y[i] as int,
        last_gain_q16(d),
    ) by {
        law_a_sample_is_put_out_at_its_gain(y[i] as int, last_gain_q16(d));
        assert(p.prev_gain_q16@[1] == last_gain_q16(d));
        assert(y[i] == whole[mem + (i - 16)]);
    }
    assert(whole.subrange(mem + n - 16, mem + n) =~= y.subrange(n, n + 16));
}

/// A concealed frame goes on from the signal in front of it and is put out at
/// the level of the last good frame: it is an excitation filtered behind the end
/// of that signal, with the prediction that is kept, and the gain is the last
/// subframe's. The decoder keeps the end of the signal and that gain, so the next
/// lost frame goes on in the same way.
#[verifier::spinoff_prover]
#[verifier::rlimit(60)]
pub proof fn law_concealment_goes_on_at_the_last_level(
    d: SilkDecoderState,
    inv_gain_q30: int,
    frame: Seq<i16>,
    next: SilkDecoderState,
    out: Seq<i16>,
    lag: int,
)
    requires
        lost_result(d, inv_gain_q30, frame, next, out, lag),
        configured(d),
        d.nb_subfr == 2 || d.nb_subfr == 4,
        d.frame_length <= frame.len(),
        last_gain_q16(d) > 0,
    ensures
        exists|y: Seq<i32>, e: Seq<i32>|
            {
                let n = d.frame_length as int;
                &&& #[trigger] is_filtered(
                    y,
                    d.s_lpc_q14_buf@,
                    e,
                    next.s_plc.prev_lpc_q12@,
                    d.lpc_order as int,
                )
                &&& e.len() == n
                &&& is_put_out_from(out, 0, y, last_gain_q16(d))
                &&& next.s_lpc_q14_buf@ == y.subrange(n, n + 16)
            },
        next.s_plc.fs_khz == d.fs_khz,
        last_gain_q16(next) == last_gain_q16(d),
        next.loss_cnt == d.loss_cnt + 1,
{
    reveal(concealed);
    lemma_plc_sizes(d);
    let (p, a) = choose|p: SilkPlcState, a: Seq<i16>|
        plc_start(d, p) && #[trigger] concealed(
            d,
            p,
            a,
            inv_gain_q30,
            frame,
            with_loss_count(next, d.loss_cnt),
            out,
            lag,
        );
    lemma_concealed_signal(d, p, a, inv_gain_q30, frame, next, out, lag);
    let n = d.frame_length as int;
    let y = concealed_signal(d, p, a, inv_gain_q30);
    let e = fading_end(d, p, a, inv_gain_q30).buf.subrange(
        d.ltp_mem_length as int,
        d.ltp_mem_length + n,
    );
    assert(is_filtered(y, d.s_lpc_q14_buf@, e, a, d.lpc_order as int));
}

/// The frame that a decoder has last put out, before noise was mixed in and it
/// was joined to the one in front of it.
pub open spec fn last_frame(d: SilkDecoderState) -> Seq<i16> {
    d.out_buf@.subrange(d.ltp_mem_length - d.frame_length, d.ltp_mem_length as int)
}

proof fn lemma_moved(d: SilkDecoderState, x: Seq<i16>, next: SilkDecoderState)
    requires
        output_moved(d, x, next),
        80 <= d.frame_length <= d.ltp_mem_length <= 320,
        d.frame_length <= x.len(),
    ensures
        last_frame(next).len() == d.frame_length,
        forall|i: int| 0 <= i < d.frame_length ==> #[trigger] last_frame(next)[i] == x[i],
{
    assert forall|i: int| 0 <= i < d.frame_length implies #[trigger] last_frame(next)[i]
        == x[i] by {
        assert(next.out_buf@[d.ltp_mem_length - d.frame_length + i] == moved_output(d, x)[
            d.ltp_mem_length - d.frame_length + i
        ]);
    }
}

/// A good frame leaves its level to concealment: the gain that is kept is the one
/// at which the frame's last subframe was put out, and the end of the signal that
/// is kept is the end of that subframe.
#[verifier::spinoff_prover]
#[verifier::rlimit(60)]
pub proof fn law_a_good_frame_leaves_its_level(
    d: SilkDecoderState,
    input: FrameInput,
    frame: Seq<i16>,
    next: SilkDecoderState,
    out: Seq<i16>,
)
    requires
        channel_result(d, 0, input, frame, next, out),
        configured(d),
        d.nb_subfr == 2 || d.nb_subfr == 4,
        control_valid(d, input.ctrl),
        d.frame_length <= frame.len(),
    ensures
        next.s_plc.fs_khz == d.fs_khz,
        last_gain_q16(next) == input.ctrl.gains_q16@[d.nb_subfr - 1],
        next.prev_gain_q16 == input.ctrl.gains_q16@[d.nb_subfr - 1],
        exists|y: Seq<i32>, past: Seq<i32>, e: Seq<i32>|
            {
                let n = d.subfr_length as int;
                &&& #[trigger] is_filtered(
                    y,
                    past,
                    e,
                    input.ctrl.pred_coef_q12@[(d.nb_subfr - 1) / 2]@,
                    d.lpc_order as int,
                )
                &&& e.len() == n
                &&& past.len() == 16
                &&& is_put_out_from(
                    last_frame(next),
                    d.frame_length - n,
                    y,
                    input.ctrl.gains_q16@[d.nb_subfr - 1] as int,
                )
                &&& next.s_lpc_q14_buf@ == y.subrange(n, n + 16)
            },
{
    lemma_plc_sizes(d);
    let c = choose|c: SilkDecoderControl|
        #[trigger] frame_result(d, input, 0, frame, next, c, out);
    let (m, x) = choose|m: SilkDecoderState, x: Seq<i16>|
        {
            &&& #[trigger] frame_middle(d, input, 0, frame, m, c, x)
            &&& frame_end(m, c, input.a_q12@, x, next, out)
        };
    assert(coded_part(d, input, frame, m, c, x));
    assert(frame_end(m, c, input.a_q12@, x, next, out));
    let (d1, d2, d3) = lemma_coded_parts(d, input, frame, m, c, x);
    let w = with_parameters(d, input);
    let k = d.nb_subfr - 1;
    let n = d.subfr_length as int;
    assert forall|j: int| 0 <= j < w.nb_subfr && crate::silk::decode_core::is_voiced(w, j) implies
        lag_fits(w, #[trigger] crate::silk::decode_core::lag_of(w, input.ctrl.pitch_l@, j)) by {
        assert(crate::silk::decode_core::is_voiced(d, j));
        assert(lag_fits(d, crate::silk::decode_core::lag_of(d, input.ctrl.pitch_l@, j)));
    }
    assert(control_valid(w, input.ctrl));
    law_a_subframe_is_put_out_at_its_gain(
        w,
        input.ctrl,
        input.pulses@,
        frame,
        d1,
        c,
        x,
        k,
    );
    let (y, past, e) = choose|y: Seq<i32>, past: Seq<i32>, e: Seq<i32>|
        {
            &&& #[trigger] is_filtered(
                y,
                past,
                e,
                input.ctrl.pred_coef_q12@[k / 2]@,
                w.lpc_order as int,
            )
            &&& e.len() == n
            &&& past.len() == 16
            &&& is_put_out_from(x, k * n, y, input.ctrl.gains_q16@[k] as int)
            &&& d1.s_lpc_q14_buf@ == y.subrange(n, n + 16)
        };
    assert(k * n == d.frame_length - n) by (nonlinear_arith)
        requires
            k == d.nb_subfr - 1,
            n == d.subfr_length,
            d.nb_subfr * d.subfr_length == d.frame_length,
    ;
    assert(x.len() == frame.len());
    lemma_moved(d1, x, d2);
    assert(next.out_buf == d2.out_buf);
    assert(last_frame(next) =~= last_frame(d2));
    assert(is_filtered(
        y,
        past,
        e,
        input.ctrl.pred_coef_q12@[(d.nb_subfr - 1) / 2]@,
        d.lpc_order as int,
    ));
    assert forall|i: int| 16 <= i < y.len() implies is_put_out(
        last_frame(next)[d.frame_length - n + i - 16] as int,
        #[trigger] y[i] as int,
        input.ctrl.gains_q16@[k] as int,
    ) by {
        assert(last_frame(d2)[d.frame_length - n + i - 16] == x[k * n + i - 16]);
    }
}

proof fn lemma_coded_parts(
    d: SilkDecoderState,
    input: FrameInput,
    frame: Seq<i16>,
    next: SilkDecoderState,
    c: SilkDecoderControl,
    out: Seq<i16>,
) -> (w: (SilkDecoderState, SilkDecoderState, SilkDecoderState))
    requires
        coded_part(d, input, frame, next, c, out),
        configured(d),
        d.nb_subfr == 2 || d.nb_subfr == 4,
    ensures
        core_result(
            with_parameters(d, input),
            input.ctrl,
            input.pulses@,
            frame,
            w.0,
            c,
            out,
        ),
        output_moved(w.0, out, w.1),
        w.0.frame_length == d.frame_length,
        w.0.ltp_mem_length == d.ltp_mem_length,
        w.0.prev_gain_q16 == w.1.prev_gain_q16 == next.prev_gain_q16,
        next.out_buf == w.1.out_buf,
        next.s_lpc_q14_buf == w.0.s_lpc_q14_buf,
        next.fs_khz == d.fs_khz,
        next.frame_length == d.frame_length,
        next.ltp_mem_length == d.ltp_mem_length,
        next.s_plc.fs_khz == d.fs_khz,
        next.s_plc.prev_gain_q16@[1] == input.ctrl.gains_q16@[d.nb_subfr - 1],
        out.len() == frame.len(),
{
    let (d1, d2, d3) = choose|d1: SilkDecoderState, d2: SilkDecoderState, d3: SilkDecoderState|
        {
            &&& #[trigger] core_result(
                with_parameters(d, input),
                input.ctrl,
                input.pulses@,
                frame,
                d1,
                c,
                out,
            )
            &&& #[trigger] output_moved(d1, out, d2)
            &&& #[trigger] good_result(d2, c, d3)
            &&& next == (SilkDecoderState {
                loss_cnt: 0,
                prev_signal_type: d.indices.signal_type as i32,
                first_frame_after_reset: 0,
                ..d3
            })
        };
    reveal(core_result);
    crate::silk::core_laws::lemma_core_result_len(
        with_parameters(d, input),
        input.ctrl,
        input.pulses@,
        frame,
        d1,
        c,
        out,
    );
    assert(good_result(d2, c, d3));
    (d1, d2, d3)
}

/// A lost frame is as loud as the last good one: what is put out goes on from the
/// end of the signal that was kept, at the gain that was kept, and both are kept
/// on for the next frame.
#[verifier::spinoff_prover]
#[verifier::rlimit(60)]
pub proof fn law_a_lost_frame_keeps_the_level(
    d: SilkDecoderState,
    input: FrameInput,
    frame: Seq<i16>,
    next: SilkDecoderState,
    out: Seq<i16>,
)
    requires
        channel_result(d, 1, input, frame, next, out),
        configured(d),
        d.nb_subfr == 2 || d.nb_subfr == 4,
        d.frame_length <= frame.len(),
        last_gain_q16(d) > 0,
    ensures
        next.s_plc.fs_khz == d.fs_khz,
        last_gain_q16(next) == last_gain_q16(d),
        exists|y: Seq<i32>, e: Seq<i32>|
            {
                let n = d.frame_length as int;
                &&& #[trigger] is_filtered(
                    y,
                    d.s_lpc_q14_buf@,
                    e,
                    next.s_plc.prev_lpc_q12@,
                    d.lpc_order as int,
                )
                &&& e.len() == n
                &&& is_put_out_from(last_frame(next), 0, y, last_gain_q16(d))
                &&& next.s_lpc_q14_buf@ == y.subrange(n, n + 16)
            },
{
    lemma_plc_sizes(d);
    let c = choose|c: SilkDecoderControl|
        #[trigger] frame_result(d, input, 1, frame, next, c, out);
    let (m, x) = choose|m: SilkDecoderState, x: Seq<i16>|
        {
            &&& #[trigger] frame_middle(d, input, 1, frame, m, c, x)
            &&& frame_end(m, c, input.a_q12@, x, next, out)
        };
    assert(lost_part(d, input.inv_gain_q30 as int, frame, m, x, c.pitch_l@[0] as int));
    assert(frame_end(m, c, input.a_q12@, x, next, out));
    let d1 = choose|d1: SilkDecoderState|
        {
            &&& #[trigger] lost_result(
                d,
                input.inv_gain_q30 as int,
                frame,
                d1,
                x,
                c.pitch_l@[0] as int,
            )
            &&& #[trigger] output_moved(d1, x, m)
        };
    law_concealment_goes_on_at_the_last_level(
        d,
        input.inv_gain_q30 as int,
        frame,
        d1,
        x,
        c.pitch_l@[0] as int,
    );
    lemma_concealed_shape(d, input.inv_gain_q30 as int, frame, d1, x, c.pitch_l@[0] as int);
    let (y, e) = choose|y: Seq<i32>, e: Seq<i32>|
        {
            let n = d.frame_length as int;
            &&& #[trigger] is_filtered(
                y,
                d.s_lpc_q14_buf@,
                e,
                d1.s_plc.prev_lpc_q12@,
                d.lpc_order as int,
            )
            &&& e.len() == n
            &&& is_put_out_from(x, 0, y, last_gain_q16(d))
            &&& d1.s_lpc_q14_buf@ == y.subrange(n, n + 16)
        };
    lemma_moved(d1, x, m);
    assert(next.out_buf == m.out_buf);
    assert(last_frame(next) =~= last_frame(m));
    assert(is_filtered(
        y,
        d.s_lpc_q14_buf@,
        e,
        next.s_plc.prev_lpc_q12@,
        d.lpc_order as int,
    ));
    assert forall|i: int| 16 <= i < y.len() implies is_put_out(
        last_frame(next)[0 + i - 16] as int,
        #[trigger] y[i] as int,
        last_gain_q16(d),
    ) by {
        assert(last_frame(m)[i - 16] == x[0 + i - 16]);
    }
}

proof fn lemma_concealed_shape(
    d: SilkDecoderState,
    inv_gain_q30: int,
    frame: Seq<i16>,
    next: SilkDecoderState,
    out: Seq<i16>,
    lag: int,
)
    requires
        lost_result(d, inv_gain_q30, frame, next, out, lag),
    ensures
        out.len() == frame.len(),
        next.frame_length == d.frame_length,
        next.ltp_mem_length == d.ltp_mem_length,
        next.fs_khz == d.fs_khz,
        next.loss_cnt == d.loss_cnt + 1,
{
    reveal(concealed);
}

// ---------------------------------------------------------------------------
// The period
// ---------------------------------------------------------------------------
/// Whether sample `o` is what stood a pitch lag before it, through five weights in
/// Q14, with noise added: to within sixteen. Where the sum leaves 32 bits, nothing
/// is said.
pub open spec fn is_repeated(
    big: Seq<i32>,
    o: int,
    lag: int,
    b: Seq<i16>,
    noise: int,
) -> bool {
    let at = o - lag;
    let s = b[0] * big[at + 2] + b[1] * big[at + 1] + b[2] * big[at] + b[3] * big[at - 1] + b[4]
        * big[at - 2] + noise;
    -0x1000_0000_0000 <= s <= 0x1000_0000_0000 ==> -16 * 16384 <= 16384 * big[o] - s <= 16 * 16384
}

/// Whether sample `o` repeats the period with noise of a strength in Q14 drawn
/// from place `x` of the last excitation.
pub open spec fn is_drawn(
    big: Seq<i32>,
    o: int,
    lag: int,
    b: Seq<i16>,
    exc: Seq<i32>,
    scale: int,
    x: int,
) -> bool {
    0 <= x < exc.len() && is_repeated(big, o, lag, b, exc[x] * scale)
}

/// Whether `g` is `f` one subframe on: the weights a little nearer to nought, the
/// noise weaker by a factor in Q15, the pitch lag a little longer and at most 18 ms.
pub open spec fn is_faded(f: Fade, g: Fade, fs_khz: int, loss_cnt: int, noise: int) -> bool {
    let keep: int = if loss_cnt <= 0 {
        32440
    } else {
        31130
    };
    &&& g.b.len() == 5
    &&& forall|j: int|
        0 <= j < 5 ==> f.b[j] * keep - 32768 < 32768 * #[trigger] g.b[j] <= f.b[j] * keep
    &&& f.rand_scale >= 0 ==> 0 <= g.rand_scale <= f.rand_scale
    &&& f.rand_scale * noise - 32768 < 32768 * g.rand_scale <= f.rand_scale * noise
    &&& f.pitch_q8 <= g.pitch_q8 <= fs_khz * 4608
    &&& 65536 * g.pitch_q8 <= f.pitch_q8 * 66191
    &&& g.pitch_q8 == fs_khz * 4608 || f.pitch_q8 * 66191 - 65536 < 65536 * g.pitch_q8
}

proof fn lemma_run_stays(
    f: Fade,
    exc: Seq<i32>,
    base: int,
    idx: int,
    lag: int,
    n: int,
    m: int,
    j: int,
)
    requires
        0 <= idx,
        0 <= m <= n,
        idx + n <= f.buf.len(),
        0 <= j < idx + m,
    ensures
        faded_run(f, exc, base, idx, lag, n)[j] == faded_run(f, exc, base, idx, lag, m)[j],
    decreases n - m,
{
    if n > m {
        lemma_run_stays(f, exc, base, idx, lag, n - 1, m, j);
        lemma_run_len(f, exc, base, idx, lag, n - 1);
    }
}

proof fn lemma_steps_stay(
    d: SilkDecoderState,
    f: Fade,
    base: int,
    rg: int,
    k: int,
    m: int,
    j: int,
)
    requires
        configured(d),
        d.nb_subfr == 2 || d.nb_subfr == 4,
        0 <= m <= k <= d.nb_subfr,
        f.buf.len() == d.ltp_mem_length + d.frame_length,
        0 <= j < d.ltp_mem_length + m * d.subfr_length,
    ensures
        fade_steps(d, f, base, rg, k).buf[j] == fade_steps(d, f, base, rg, m).buf[j],
    decreases k - m,
{
    if k > m {
        lemma_steps_stay(d, f, base, rg, k - 1, m, j);
        lemma_faded_len(d, f, base, rg, k - 1);
        let g = fade_steps(d, f, base, rg, k - 1);
        let n: int = d.subfr_length as int;
        let nb: int = d.nb_subfr as int;
        assert(m * n <= (k - 1) * n && 0 <= (k - 1) * n && (k - 1) * n + n <= n * nb)
            by (nonlinear_arith)
            requires
                m <= k - 1,
                1 <= k <= nb,
                n >= 0,
        ;
        lemma_run_stays(
            g,
            d.exc_q14@,
            base,
            d.ltp_mem_length + (k - 1) * n,
            rshift_round(g.pitch_q8, 8),
            n,
            0,
            j,
        );
    }
}

#[verifier::spinoff_prover]
#[verifier::rlimit(60)]
proof fn lemma_sample_is_drawn(
    f: Fade,
    exc: Seq<i32>,
    base: int,
    idx: int,
    lag: int,
    n: int,
    i: int,
    big: Seq<i32>,
)
    requires
        0 <= idx - lag - 2,
        3 <= lag,
        0 <= i < n,
        idx + n <= f.buf.len(),
        exc.len() == 320,
        0 <= base <= 192,
        -32768 <= f.rand_scale <= 32767,
        big.len() >= idx + n,
        forall|j: int|
            0 <= j < idx + n ==> #[trigger] big[j] == faded_run(f, exc, base, idx, lag, n)[j],
    ensures
        exists|x: int|
            base <= x < base + 128 && #[trigger] is_drawn(
                big,
                idx + i,
                lag,
                f.b,
                exc,
                f.rand_scale,
                x,
            ),
{
    let o = idx + i;
    let at = o - lag + 2;
    let buf = faded_run(f, exc, base, idx, lag, i);
    lemma_run_len(f, exc, base, idx, lag, i);
    let x = base + draw_index(random_state(f.seed, i + 1));
    assert(0 <= x < 320);
    let drawn = exc[x] as int;
    lemma_run_stays(f, exc, base, idx, lag, n, i, at);
    lemma_run_stays(f, exc, base, idx, lag, n, i, at - 1);
    lemma_run_stays(f, exc, base, idx, lag, n, i, at - 2);
    lemma_run_stays(f, exc, base, idx, lag, n, i, at - 3);
    lemma_run_stays(f, exc, base, idx, lag, n, i, at - 4);
    lemma_run_stays(f, exc, base, idx, lag, n, i + 1, o);
    let lt = long_term(buf, at, f.b, 5);
    lemma_long_term_is_the_sum(buf, at, f.b);
    let s = f.b[0] * buf[at] + f.b[1] * buf[at - 1] + f.b[2] * buf[at - 2] + f.b[3] * buf[at - 3]
        + f.b[4] * buf[at - 4];
    let v = choose|v: int|
        #[trigger] wrap(v) == long_term(buf, at, f.b, 5) && s - 0x5_0000 <= 0x1_0000 * (v - 2) <= s;
    lemma_tap(drawn, f.rand_scale);
    let p = smulwb(drawn, f.rand_scale);
    let t = smlawb(lt, drawn, f.rand_scale);
    lemma_wraps_once(v, p);
    assert(t == wrap(v + p));
    vstd::arithmetic::power2::lemma2_to64();
    let e = lshift(t, 2);
    lemma_wrap_is_word(t * 4);
    assert(faded_run(f, exc, base, idx, lag, i + 1)[o] == e as i32);
    assert(big[o] == e);
    let noise = exc[x] * f.rand_scale;
    assert(noise == f.rand_scale * drawn) by (nonlinear_arith)
        requires
            noise == drawn * f.rand_scale,
    ;
    assert(big[o - lag + 2] == buf[at] && big[o - lag + 1] == buf[at - 1] && big[o - lag]
        == buf[at - 2] && big[o - lag - 1] == buf[at - 3] && big[o - lag - 2] == buf[at - 4]);
    let total = s + noise;
    if -0x1000_0000_0000 <= total <= 0x1000_0000_0000 {
        lemma_wrap_is_word(v + p);
        lemma_wrap_is_word(t * 4);
        assert(e == 4 * (v + p));
    }
    assert(is_repeated(big, o, lag, f.b, noise));
    assert(is_drawn(big, o, lag, f.b, exc, f.rand_scale, x));
}

proof fn lemma_step_is_faded(d: SilkDecoderState, f: Fade, base: int, rg: int, k: int)
    requires
        configured(d),
        f.b.len() == 5,
        -32768 <= f.rand_scale <= 32767,
        0 <= rg <= 32767,
        0 <= f.pitch_q8 <= d.fs_khz * 4608,
    ensures
        is_faded(f, fade_step(d, f, base, rg, k), d.fs_khz as int, d.loss_cnt as int, rg),
        -32768 <= fade_step(d, f, base, rg, k).rand_scale <= 32767,
{
    vstd::arithmetic::power2::lemma2_to64();
    let g = fade_step(d, f, base, rg, k);
    let keep: int = if d.loss_cnt <= 0 {
        32440
    } else {
        31130
    };
    assert forall|j: int| 0 <= j < 5 implies f.b[j] * keep - 32768 < 32768 * #[trigger] g.b[j]
        <= f.b[j] * keep by {
        let x: int = f.b[j] as int;
        lemma_wrap_is_word(keep);
        lemma_wrap_is_word(x);
        assert(smulbb(keep, x) == keep * x);
        assert(keep * x == x * keep) by (nonlinear_arith);
        let q = x * keep / 32768;
        assert(-32768 <= q <= 32767);
        lemma_wrap_is_word(q);
    }
    let r = f.rand_scale;
    lemma_wrap_is_word(r);
    lemma_wrap_is_word(rg);
    let w = r * rg / 32768;
    assert(-32768 <= w <= 32767 && (r >= 0 ==> 0 <= w <= r)) by (nonlinear_arith)
        requires
            w == r * rg / 32768,
            -32768 <= r <= 32767,
            0 <= rg <= 32767,
    ;
    lemma_wrap_is_word(w);
    assert(g.rand_scale == w);
    let p = f.pitch_q8;
    lemma_wrap_is_word(655);
    lemma_wrap_is_word(p + p * 655 / 0x1_0000);
    lemma_wrap_is_word(18);
    lemma_wrap_is_word(d.fs_khz as int);
    lemma_wrap_is_word(18 * d.fs_khz * 256);
    assert(smlawb(p, p, 655) == p + p * 655 / 0x1_0000);
    assert(lshift(smulbb(18, d.fs_khz as int), 8) == d.fs_khz * 4608);
}

proof fn lemma_noise_gain(d: SilkDecoderState, inv_gain_q30: int)
    requires
        d.loss_cnt >= 0,
    ensures
        0 <= rand_gain_q15(d, inv_gain_q30) <= 32767,
        is_noise_kept(d, inv_gain_q30, rand_gain_q15(d, inv_gain_q30)),
{
    vstd::arithmetic::power2::lemma2_to64();
    lemma_wrap_is_word(rand_fade_q15(d));
    if d.loss_cnt == 0 && d.prev_signal_type != 2 {
        let down = larger(0x40_0000, smaller(0x800_0000, inv_gain_q30)) * 8;
        assert(0 <= down <= 0x4000_0000);
        assert(rand_fade_q15(d) == 32440);
        let q = down * 32440 / 0x1_0000;
        assert(smulwb(down, 32440) == q);
        assert(rand_gain_q15(d, inv_gain_q30) == q / 16384);
    }
}

proof fn lemma_first_noise(d: SilkDecoderState, p: SilkPlcState)
    requires
        p.ltp_coef_q14 == d.s_plc.ltp_coef_q14,
        p.rand_scale_q14 == d.s_plc.rand_scale_q14,
        p.prev_ltp_scale_q14 == d.s_plc.prev_ltp_scale_q14,
    ensures
        -32768 <= first_rand_scale(d, p) <= 32767,
        is_first_noise(d, first_rand_scale(d, p)),
{
    vstd::arithmetic::power2::lemma2_to64();
    let b = d.s_plc.ltp_coef_q14@;
    let share = larger(16384 - b[0] - b[1] - b[2] - b[3] - b[4], 3277);
    let s: int = d.s_plc.prev_ltp_scale_q14 as int;
    lemma_wrap_is_word(share);
    lemma_wrap_is_word(s);
    if share <= 32767 && 0 <= s <= 16383 {
        let t = share * s;
        assert(0 <= t <= 32767 * 16383) by (nonlinear_arith)
            requires
                t == share * s,
                0 <= share <= 32767,
                0 <= s <= 16383,
        ;
        lemma_wrap_is_word(t / 16384);
        assert(smulbb(share, s) == t);
    }
}

/// The subframes of a concealed frame, each with what it fades to.
spec fn fades(d: SilkDecoderState, f: Fade, base: int, rg: int) -> Seq<Fade> {
    Seq::new((d.nb_subfr + 1) as nat, |k: int| fade_steps(d, f, base, rg, k))
}

proof fn lemma_fades(d: SilkDecoderState, f: Fade, base: int, rg: int, k: int)
    requires
        configured(d),
        f.b.len() == 5,
        -32768 <= f.rand_scale <= 32767,
        0 <= rg <= 32767,
        0 <= f.pitch_q8 <= d.fs_khz * 4608,
        0 <= k,
    ensures
        ({
            let g = fade_steps(d, f, base, rg, k);
            &&& g.b.len() == 5
            &&& -32768 <= g.rand_scale <= 32767
            &&& f.pitch_q8 <= g.pitch_q8 <= d.fs_khz * 4608
            &&& is_faded(
                g,
                fade_steps(d, f, base, rg, k + 1),
                d.fs_khz as int,
                d.loss_cnt as int,
                rg,
            )
        }),
    decreases k,
{
    if k > 0 {
        lemma_fades(d, f, base, rg, k - 1);
        lemma_step_is_faded(d, fade_steps(d, f, base, rg, k - 1), base, rg, k - 1);
    }
    lemma_step_is_faded(d, fade_steps(d, f, base, rg, k), base, rg, k);
}

/// The pitch lag that concealment begins with, Q8: half a frame where the rate has
/// changed.
pub open spec fn last_pitch_q8(d: SilkDecoderState) -> int {
    if d.fs_khz != d.s_plc.fs_khz {
        d.frame_length * 128
    } else {
        d.s_plc.pitch_l_q8 as int
    }
}

/// Whether noise of strength `scale`, Q14, is what a lost frame begins with: what the
/// last lost one left; in the first lost frame behind a voiced one what the period
/// leaves, a fifth at least, by the frame's own scale; all of it behind any other.
pub open spec fn is_first_noise(d: SilkDecoderState, scale: int) -> bool {
    let b = d.s_plc.ltp_coef_q14@;
    let left = 16384 - b[0] - b[1] - b[2] - b[3] - b[4];
    let share: int = if left < 3277 {
        3277
    } else {
        left
    };
    &&& d.loss_cnt != 0 ==> scale == d.s_plc.rand_scale_q14
    &&& d.loss_cnt == 0 && d.prev_signal_type != 2 ==> scale == 16384
    &&& d.loss_cnt == 0 && d.prev_signal_type == 2 && share <= 32767 && 0
        <= d.s_plc.prev_ltp_scale_q14 <= 16383 ==> share * d.s_plc.prev_ltp_scale_q14 - 16384
        < 16384 * scale <= share * d.s_plc.prev_ltp_scale_q14
}

/// Whether noise is kept by a factor in Q15 from subframe to subframe: less the
/// longer the loss, and behind a frame that is not voiced less the higher its
/// prediction gain.
pub open spec fn is_noise_kept(d: SilkDecoderState, inv_gain_q30: int, noise: int) -> bool {
    let inv: int = if inv_gain_q30 < 0x40_0000 {
        0x40_0000
    } else if inv_gain_q30 > 0x800_0000 {
        0x800_0000
    } else {
        inv_gain_q30
    };
    &&& d.prev_signal_type == 2 ==> noise == if d.loss_cnt <= 0 {
        31130int
    } else {
        26214
    }
    &&& d.prev_signal_type != 2 && d.loss_cnt > 0 ==> noise == 29491
    &&& d.prev_signal_type != 2 && d.loss_cnt == 0 ==> 32440 * inv - 0x1000_0000 < 0x800_0000
        * noise <= 32440 * inv
}

/// Whether the excitation `big` of a lost frame, behind that of the past, goes on
/// with the last period through the subframes' `f`.
pub open spec fn repeats_the_period(
    d: SilkDecoderState,
    big: Seq<i32>,
    f: Seq<Fade>,
    noise: int,
) -> bool {
    &&& big.len() == d.ltp_mem_length + d.frame_length
    &&& f.len() == d.nb_subfr + 1
    &&& f[0].b == d.s_plc.ltp_coef_q14@
    &&& f[0].pitch_q8 == last_pitch_q8(d)
    &&& is_first_noise(d, f[0].rand_scale)
    &&& forall|k: int, j: int|
        #![trigger f[k], f[j]]
        0 <= k < d.nb_subfr && j == k + 1 ==> is_faded(
            f[k],
            f[j],
            d.fs_khz as int,
            d.loss_cnt as int,
            noise,
        )
    &&& forall|i: int|
        d.ltp_mem_length <= i < big.len() ==> is_repeated_somehow(
            d,
            big,
            #[trigger] f[(i - d.ltp_mem_length) / (d.subfr_length as int)],
            i,
        )
}

/// Whether sample `o` repeats the period of its subframe, with noise drawn from the
/// last excitation.
pub open spec fn is_repeated_somehow(
    d: SilkDecoderState,
    big: Seq<i32>,
    f: Fade,
    o: int,
) -> bool {
    exists|x: int|
        is_draw_place(d, x) && #[trigger] is_drawn(
            big,
            o,
            (f.pitch_q8 + 128) / 256,
            f.b,
            d.exc_q14@,
            f.rand_scale,
            x,
        )
}

/// Whether noise is drawn from place `x` of the last excitation: one of the 128
/// samples that end with the last good frame, or with its last subframe but one.
pub open spec fn is_draw_place(d: SilkDecoderState, x: int) -> bool {
    let whole = if d.fs_khz != d.s_plc.fs_khz {
        40
    } else {
        d.s_plc.nb_subfr * d.s_plc.subfr_length
    };
    let less = if d.fs_khz != d.s_plc.fs_khz {
        20
    } else {
        (d.s_plc.nb_subfr - 1) * d.s_plc.subfr_length
    };
    let last: int = if whole > 128 {
        whole - 128
    } else {
        0
    };
    let before: int = if less > 128 {
        less - 128
    } else {
        0
    };
    last <= x < last + 128 || before <= x < before + 128
}

/// Whether `x`, Q14, is the residual `r` of the output without its gain in Q16.
pub open spec fn is_without_gain(x: int, r: int, gain_q16: int) -> bool {
    -(11 * gain_q16 + 0x8_0000) <= gain_q16 * x - 0x4000_0000 * r <= 11 * gain_q16 + 0x8_0000
}

/// Whether `big` at `i` is what prediction leaves of the last output, without the
/// last gain.
pub open spec fn is_past_excitation(
    d: SilkDecoderState,
    big: Seq<i32>,
    a: Seq<i16>,
    i: int,
) -> bool {
    exists|r: int|
        #[trigger] is_residual(d.out_buf@, i, a, d.lpc_order as int, r) && is_without_gain(
            big[i] as int,
            r,
            last_gain_q16(d),
        )
}

proof fn lemma_past_excitation(
    d: SilkDecoderState,
    p: SilkPlcState,
    a: Seq<i16>,
    i: int,
)
    requires
        plc_start(d, p),
        configured(d),
        p.prev_gain_q16@[1] == last_gain_q16(d),
        0x1_0000 <= last_gain_q16(d),
        lag_fits(d, rshift_round(p.pitch_l_q8 as int, 8)),
        d.ltp_mem_length - rshift_round(p.pitch_l_q8 as int, 8) - 2 <= i < d.ltp_mem_length,
        d.frame_length >= 0,
    ensures
        is_past_excitation(d, faded_past(d, p, a), a, i),
{
    reveal(faded_past);
    vstd::arithmetic::power2::lemma2_to64();
    lemma_pow2_adds(32, 14);
    let mem = d.ltp_mem_length as int;
    let order = d.lpc_order as int;
    let lag = rshift_round(p.pitch_l_q8 as int, 8);
    let start = mem - lag - order - 2;
    let g = last_gain_q16(d);
    let x = d.out_buf@.skip(start);
    let r = residual(x, a, i - start, order);
    law_the_residual_is_what_prediction_leaves(x, a, i - start, order);
    lemma_weights_alike(x, i - start, d.out_buf@, i, a, order);
    assert(is_residual(d.out_buf@, i, a, order, r));
    law_the_inverse_is_close(g, 46);
    let full = inverse32_varq(g, 46);
    let inv = smaller(full, 0x3fff_ffff);
    assert(full <= 0x4000_0010) by (nonlinear_arith)
        requires
            g * full <= 0x4000_0000_0000 + 0x10_0000,
            g >= 0x1_0000,
    ;
    let cut = full - inv;
    assert(0 <= cut <= 17);
    assert(g * inv == g * full - g * cut && 0 <= g * cut <= 17 * g) by (nonlinear_arith)
        requires
            cut == full - inv,
            0 <= cut <= 17,
            g > 0,
    ;
    let off = g * inv - 0x4000_0000_0000;
    assert(-(18 * g + 0x10_0000) <= off <= 0x10_0000);
    lemma_wrap_is_word(r);
    let e = smulwb(inv, r);
    assert(e == inv * r / 0x1_0000);
    assert(0 <= inv <= 0x3fff_ffff);
    assert(-0x4000_0000 * 32768 <= inv * r <= 0x4000_0000 * 32768) by (nonlinear_arith)
        requires
            0 <= inv <= 0x3fff_ffff,
            -32768 <= r <= 32767,
    ;
    assert(faded_past(d, p, a)[i] == e);
    let rest = inv * r - 0x1_0000 * e;
    assert(0 <= rest < 0x1_0000);
    assert(0x1_0000 * (g * e) == 0x4000_0000_0000 * r + off * r - g * rest) by (nonlinear_arith)
        requires
            rest == inv * r - 0x1_0000 * e,
            off == g * inv - 0x4000_0000_0000,
    ;
    assert(-(32768 * (18 * g + 0x10_0000)) <= off * r <= 32768 * (18 * g + 0x10_0000))
        by (nonlinear_arith)
        requires
            -(18 * g + 0x10_0000) <= off <= 18 * g + 0x10_0000,
            -32768 <= r <= 32767,
            g > 0,
    ;
    assert(0 <= g * rest <= 0x1_0000 * g) by (nonlinear_arith)
        requires
            0 <= rest < 0x1_0000,
            g > 0,
    ;
}

/// A concealed frame goes on with the last period. Its excitation is, sample by
/// sample, what stood a pitch lag before it, through the last weights, with noise
/// drawn from the last excitation; from subframe to subframe the weights and the
/// noise grow weaker and the lag longer. In front of it stands what prediction
/// leaves of the last output, without the last gain. That excitation, filtered behind the end
/// of the last signal and put out at the last gain, is the frame; and what it has
/// faded to is kept.
#[verifier::spinoff_prover]
#[verifier::rlimit(80)]
pub proof fn law_concealment_goes_on_with_the_period(
    d: SilkDecoderState,
    inv_gain_q30: int,
    frame: Seq<i16>,
    next: SilkDecoderState,
    out: Seq<i16>,
    lag: int,
)
    requires
        lost_result(d, inv_gain_q30, frame, next, out, lag),
        configured(d),
        d.nb_subfr == 2 || d.nb_subfr == 4,
        plc_inv(d),
        d.loss_cnt >= 0,
        d.frame_length <= frame.len(),
        640 <= last_pitch_q8(d) <= d.fs_khz * 4608,
        0x1_0000 <= last_gain_q16(d),
    ensures
        exists|y: Seq<i32>, e: Seq<i32>, big: Seq<i32>, f: Seq<Fade>, noise: int|
            {
                let n = d.frame_length as int;
                let mem = d.ltp_mem_length as int;
                &&& e == big.subrange(mem, mem + n)
                &&& #[trigger] is_filtered(
                    y,
                    d.s_lpc_q14_buf@,
                    e,
                    next.s_plc.prev_lpc_q12@,
                    d.lpc_order as int,
                )
                &&& is_put_out_from(out, 0, y, last_gain_q16(d))
                &&& #[trigger] repeats_the_period(d, big, f, noise)
                &&& is_noise_kept(d, inv_gain_q30, noise)
                &&& forall|i: int|
                    mem - (last_pitch_q8(d) + 128) / 256 - 2 <= i < mem
                        ==> #[trigger] is_past_excitation(d, big, next.s_plc.prev_lpc_q12@, i)
                &&& next.s_plc.ltp_coef_q14@ == f[d.nb_subfr as int].b
                &&& next.s_plc.pitch_l_q8 == f[d.nb_subfr as int].pitch_q8
                &&& next.s_plc.rand_scale_q14 == f[d.nb_subfr as int].rand_scale
                &&& lag == (next.s_plc.pitch_l_q8 + 128) / 256
            },
{
    lemma_plc_sizes(d);
    let (p, a) = choose|p: SilkPlcState, a: Seq<i16>|
        plc_start(d, p) && #[trigger] concealed(
            d,
            p,
            a,
            inv_gain_q30,
            frame,
            with_loss_count(next, d.loss_cnt),
            out,
            lag,
        );
    vstd::arithmetic::power2::lemma2_to64();
    lemma_wrap_is_word(d.frame_length * 128);
    lemma_concealed_signal(d, p, a, inv_gain_q30, frame, next, out, lag);
    let n = d.frame_length as int;
    let mem = d.ltp_mem_length as int;
    let sn: int = d.subfr_length as int;
    let nb: int = d.nb_subfr as int;
    let start = fading_start(d, p, a);
    let base = draw_base(d, p);
    let rg = rand_gain_q15(d, inv_gain_q30);
    let big = fading_end(d, p, a, inv_gain_q30).buf;
    let f = fades(d, start, base, rg);
    let y = concealed_signal(d, p, a, inv_gain_q30);
    assert(start.pitch_q8 == last_pitch_q8(d));
    assert(start.b == d.s_plc.ltp_coef_q14@);
    lemma_noise_gain(d, inv_gain_q30);
    lemma_first_noise(d, p);
    lemma_draw_base(d, p);
    assert(f[0] == start);
    assert forall|k: int, j: int|
        #![trigger f[k], f[j]]
        0 <= k < d.nb_subfr && j == k + 1 implies is_faded(
        f[k],
        f[j],
        d.fs_khz as int,
        d.loss_cnt as int,
        rg,
    ) by {
        lemma_fades(d, start, base, rg, k);
    }
    assert forall|i: int| mem <= i < big.len() implies is_repeated_somehow(
        d,
        big,
        #[trigger] f[(i - mem) / sn],
        i,
    ) by {
        let k = (i - mem) / sn;
        let m = (i - mem) % sn;
        assert(0 <= k < nb && i == mem + k * sn + m && 0 <= m < sn && (k + 1) * sn == k * sn + sn
            && (k + 1) * sn <= n) by (nonlinear_arith)
            requires
                0 <= i - mem < n,
                n == nb * sn,
                sn > 0,
                k == (i - mem) / sn,
                m == (i - mem) % sn,
        ;
        lemma_fades(d, start, base, rg, k);
        let g = fade_steps(d, start, base, rg, k);
        lemma_faded_len(d, start, base, rg, k);
        let lag_k = rshift_round(g.pitch_q8, 8);
        assert(lag_k == (g.pitch_q8 + 128) / 256);
        let idx = mem + k * sn;
        assert forall|j: int| 0 <= j < idx + sn implies #[trigger] big[j] == faded_run(
            g,
            d.exc_q14@,
            base,
            idx,
            lag_k,
            sn,
        )[j] by {
            lemma_steps_stay(d, start, base, rg, nb, k + 1, j);
        }
        lemma_sample_is_drawn(g, d.exc_q14@, base, idx, lag_k, sn, m, big);
        let x = choose|x: int|
            base <= x < base + 128 && #[trigger] is_drawn(
                big,
                idx + m,
                lag_k,
                g.b,
                d.exc_q14@,
                g.rand_scale,
                x,
            );
        assert(is_draw_place(d, x));
        assert(is_drawn(
            big,
            i,
            (f[k].pitch_q8 + 128) / 256,
            f[k].b,
            d.exc_q14@,
            f[k].rand_scale,
            x,
        ));
    }
    assert(repeats_the_period(d, big, f, rg));
    assert forall|i: int| mem - (last_pitch_q8(d) + 128) / 256 - 2 <= i < mem implies
        #[trigger] is_past_excitation(d, big, next.s_plc.prev_lpc_q12@, i) by {
        lemma_past_excitation(d, p, a, i);
        assert(0 * sn == 0);
        lemma_steps_stay(d, start, base, rg, nb, 0, i);
        assert(big[i] == faded_past(d, p, a)[i]);
        let r = choose|r: int|
            #[trigger] is_residual(d.out_buf@, i, a, d.lpc_order as int, r) && is_without_gain(
                faded_past(d, p, a)[i] as int,
                r,
                last_gain_q16(d),
            );
        assert(is_residual(d.out_buf@, i, a, d.lpc_order as int, r));
    }
    assert(is_filtered(
        y,
        d.s_lpc_q14_buf@,
        big.subrange(mem, mem + n),
        next.s_plc.prev_lpc_q12@,
        d.lpc_order as int,
    ));
    assert(f[nb] == fading_end(d, p, a, inv_gain_q30));
    reveal(concealed);
    assert(with_loss_count(next, d.loss_cnt).s_plc == next.s_plc);
}

proof fn lemma_draw_base(d: SilkDecoderState, p: SilkPlcState)
    requires
        plc_start(d, p),
        plc_inv(d),
    ensures
        0 <= draw_base(d, p) <= 192,
        forall|x: int|
            draw_base(d, p) <= x < draw_base(d, p) + 128 ==> #[trigger] is_draw_place(d, x),
{
    let a: int = p.nb_subfr as int;
    let b: int = p.subfr_length as int;
    assert(0 <= a <= 4 && 0 <= b <= 80);
    assert(0 <= a * b <= 320 && (a - 1) * b <= 320) by (nonlinear_arith)
        requires
            0 <= a <= 4,
            0 <= b <= 80,
    ;
    if d.fs_khz != d.s_plc.fs_khz {
        assert(a * b == 40 && (a - 1) * b == 20) by (nonlinear_arith)
            requires
                a == 2,
                b == 20,
        ;
    } else {
        assert(a * b == d.s_plc.nb_subfr * d.s_plc.subfr_length);
        assert((a - 1) * b == (d.s_plc.nb_subfr - 1) * d.s_plc.subfr_length);
    }
    assert(draw_base(d, p) == larger(0, (a - 1) * b - 128) || draw_base(d, p) == larger(
        0,
        a * b - 128,
    ));
}

/// Concealment goes on with the last good frame's prediction, drawn in a little:
/// every weight keeps its sign and loses at most a sixth. Right after a reset there
/// is none.
pub proof fn law_concealment_draws_the_prediction_in(
    d: SilkDecoderState,
    inv_gain_q30: int,
    frame: Seq<i16>,
    next: SilkDecoderState,
    out: Seq<i16>,
    lag: int,
    i: int,
)
    requires
        lost_result(d, inv_gain_q30, frame, next, out, lag),
        configured(d),
        0 <= i < d.lpc_order,
    ensures
        ({
            let w: int = d.s_plc.prev_lpc_q12@[i] as int;
            let e: int = next.s_plc.prev_lpc_q12@[i] as int;
            &&& d.first_frame_after_reset == 0 && w >= 0 ==> 5 * w - 6 <= 6 * e && e <= w
            &&& d.first_frame_after_reset == 0 && w <= 0 ==> w <= e && 6 * e <= 5 * w + 6
            &&& d.first_frame_after_reset != 0 ==> e == 0
        }),
{
    reveal(concealed);
    let (p, a) = choose|p: SilkPlcState, a: Seq<i16>|
        plc_start(d, p) && #[trigger] concealed(
            d,
            p,
            a,
            inv_gain_q30,
            frame,
            with_loss_count(next, d.loss_cnt),
            out,
            lag,
        );
    assert(a[i] == fading_lpc(d, p, i));
    law_expansion_draws_weights_in(p.prev_lpc_q12@, i);
    law_expansion_draws_weights_in(Seq::new(16, |j: int| 0i16), i);
    assert(next.s_plc.prev_lpc_q12@ == a);
}

proof fn lemma_kept_tap(gain: int)
    requires
        359 <= gain <= 32767,
    ensures
        11457 <= kept_tap(gain) <= 15565,
        11469 <= gain <= 15565 ==> kept_tap(gain) == gain,
{
    vstd::arithmetic::power2::lemma2_to64();
    lemma_wrap_is_word(gain);
    let whole: int = if gain < 11469 {
        11_744_256
    } else {
        255_016_960
    };
    let q = whole / gain;
    let rest = whole % gain;
    vstd::arithmetic::div_mod::lemma_fundamental_div_mod(whole, gain);
    assert(0 <= rest < gain) by (nonlinear_arith)
        requires
            rest == whole % gain,
            gain > 0,
    ;
    if gain < 11469 {
        assert(0 <= q <= 32767) by (nonlinear_arith)
            requires
                11_744_256 == gain * q + rest,
                0 <= rest < gain,
                gain >= 359,
        ;
        lemma_wrap_is_word(q);
        let v = gain * q / 1024;
        assert(11457 <= v <= 11469);
        lemma_wrap_is_word(v);
    } else if gain > 15565 {
        assert(0 <= q <= 16383) by (nonlinear_arith)
            requires
                255_016_960 == gain * q + rest,
                0 <= rest < gain,
                gain >= 15566,
        ;
        lemma_wrap_is_word(q);
        let v = gain * q / 16384;
        assert(15562 <= v <= 15565);
        lemma_wrap_is_word(v);
    }
}

/// What a good frame leaves for concealment to repeat. Of a voiced frame one
/// weight, kept between 0.7 and 0.95, and the pitch lag of a subframe of its last
/// period, the one with the strongest prediction; of any other nothing to repeat,
/// at 18 ms. Its prediction and its last gain are kept as they are.
pub proof fn law_a_good_frame_leaves_its_period(
    d: SilkDecoderState,
    c: SilkDecoderControl,
    next: SilkDecoderState,
)
    requires
        good_result(d, c, next),
        configured(d),
        d.nb_subfr == 2 || d.nb_subfr == 4,
        forall|k: int| 0 <= k < d.nb_subfr ==> 2 <= #[trigger] c.pitch_l@[k] <= 320,
        forall|k: int| 0 <= k < d.nb_subfr ==> #[trigger] tap_sum(c.ltp_coef_q14@, k) <= 32767,
    ensures
        next.s_plc.prev_gain_q16@[1] == c.gains_q16@[d.nb_subfr - 1],
        next.s_plc.prev_gain_q16@[0] == c.gains_q16@[d.nb_subfr - 2],
        next.prev_signal_type == d.indices.signal_type,
        forall|i: int|
            0 <= i < d.lpc_order ==> #[trigger] next.s_plc.prev_lpc_q12@[i]
                == c.pred_coef_q12@[1]@[i],
        next.s_plc.ltp_coef_q14@[0] == 0 && next.s_plc.ltp_coef_q14@[1] == 0
            && next.s_plc.ltp_coef_q14@[3] == 0 && next.s_plc.ltp_coef_q14@[4] == 0,
        d.indices.signal_type != 2 ==> next.s_plc.ltp_coef_q14@[2] == 0 && next.s_plc.pitch_l_q8
            == 4608 * d.fs_khz,
        d.indices.signal_type == 2 && tap_sum(c.ltp_coef_q14@, d.nb_subfr - 1) >= 359 ==> {
            &&& 11457 <= next.s_plc.ltp_coef_q14@[2] <= 15565
            &&& exists|k: int|
                {
                    &&& 0 <= k < d.nb_subfr
                    &&& next.s_plc.pitch_l_q8 == 256 * #[trigger] c.pitch_l@[k]
                    &&& tap_sum(c.ltp_coef_q14@, k) >= tap_sum(c.ltp_coef_q14@, d.nb_subfr - 1)
                    &&& (d.nb_subfr - 1 - k) * d.subfr_length < c.pitch_l@[d.nb_subfr - 1]
                    &&& 11469 <= tap_sum(c.ltp_coef_q14@, k) <= 15565
                        ==> next.s_plc.ltp_coef_q14@[2] == tap_sum(c.ltp_coef_q14@, k)
                }
        },
{
    vstd::arithmetic::power2::lemma2_to64();
    let p = choose|p: SilkPlcState|
        plc_start(d, p) && #[trigger] plc_refreshed(d, c, p, next.s_plc);
    assert(plc_refreshed(d, c, p, next.s_plc));
    let nb = d.nb_subfr as int;
    lemma_wrap_is_word(d.fs_khz as int);
    lemma_wrap_is_word(18);
    lemma_wrap_is_word(d.fs_khz * 18 * 256);
    let j = last_period(c.pitch_l@[nb - 1] as int, d.subfr_length as int, nb, 0);
    lemma_last_period_reaches(c.pitch_l@[nb - 1] as int, d.subfr_length as int, nb, 0);
    assert(c.pitch_l@[nb - 1] >= 2);
    assert(0 * d.subfr_length == 0);
    assert(last_period(c.pitch_l@[nb - 1] as int, d.subfr_length as int, nb, 0) == last_period(
        c.pitch_l@[nb - 1] as int,
        d.subfr_length as int,
        nb,
        1,
    ));
    lemma_last_period_reaches(c.pitch_l@[nb - 1] as int, d.subfr_length as int, nb, 1);
    assert(1 <= j <= nb);
    if d.indices.signal_type == 2 && tap_sum(c.ltp_coef_q14@, nb - 1) >= 359 {
        let k = lemma_best(c, nb, p.pitch_l_q8 as int, j);
        assert(2 <= c.pitch_l@[k] <= 320);
        lemma_wrap_is_word(c.pitch_l@[k] * 256);
        assert(tap_sum(c.ltp_coef_q14@, k) <= 32767);
        lemma_kept_tap(tap_sum(c.ltp_coef_q14@, k));
        assert((nb - 1 - k) * d.subfr_length < c.pitch_l@[nb - 1]);
    }
}

proof fn lemma_last_period_reaches(pitch: int, subfr: int, nb: int, j: int)
    requires
        0 <= j <= nb,
        subfr >= 0,
    ensures
        j <= last_period(pitch, subfr, nb, j) <= nb,
        forall|m: int|
            j <= m < last_period(pitch, subfr, nb, j) ==> #[trigger] (m * subfr) < pitch,
    decreases nb - j,
{
    if j < nb && j * subfr < pitch {
        lemma_last_period_reaches(pitch, subfr, nb, j + 1);
    }
}

proof fn lemma_best(c: SilkDecoderControl, nb: int, last: int, j: int) -> (k: int)
    requires
        1 <= j <= nb,
        tap_sum(c.ltp_coef_q14@, nb - 1) > 0,
    ensures
        nb - j <= k < nb,
        best_gain(c.ltp_coef_q14@, nb, j) == tap_sum(c.ltp_coef_q14@, k),
        best_lag_q8(c.ltp_coef_q14@, c.pitch_l@, nb, last, j) == lshift(c.pitch_l@[k] as int, 8),
        tap_sum(c.ltp_coef_q14@, k) >= tap_sum(c.ltp_coef_q14@, nb - 1),
    decreases j,
{
    assert(best_gain(c.ltp_coef_q14@, nb, 0) == 0);
    if j == 1 {
        assert(best_lag_q8(c.ltp_coef_q14@, c.pitch_l@, nb, last, 1) == lshift(
            c.pitch_l@[nb - 1] as int,
            8,
        ));
        nb - 1
    } else {
        let k = lemma_best(c, nb, last, j - 1);
        if tap_sum(c.ltp_coef_q14@, nb - j) > best_gain(c.ltp_coef_q14@, nb, j - 1) {
            nb - j
        } else {
            k
        }
    }
}

} // verus!
