//! What a frame's synthesis is for: pulses into excitation, excitation into the
//! signal at its gain.

use vstd::prelude::*;

use crate::silk::decode_core::{
    control_valid, core_result, core_run, core_start, core_step, dither, excitation,
    frame_excitation, gain_step, is_voiced, lag_fits, lag_of, level_offset, long_term,
    output_before, past_before, past_scale, ready_past, scaled_history, subframe_plan,
    subframe_residual, subframe_synthesis, taps_of, voiced_residual, voiced_run, voiced_sample,
    CoreState,
};
use crate::silk::decoder_structs::{SilkDecoderControl, SilkDecoderState};
use crate::silk::init_decoder::configured;
use crate::silk::macros::{
    is_word, lemma_wrap_is_word, lshift, rand_next, rshift, smulwb, smulww, wrap,
};
use crate::silk::sigproc_fix::{div32_varq, inverse32_varq, residual};
use crate::silk::sigproc_laws::{
    is_residual, law_the_inverse_is_close, law_the_quotient_is_close,
    law_the_residual_is_what_prediction_leaves, lemma_weights_alike,
};
use crate::silk::synthesis::{lemma_synthesis_elsewhere, scaled_sample};
use crate::silk::synthesis_laws::{
    is_predicted, is_put_out, law_a_sample_is_put_out_at_its_gain,
    law_synthesis_puts_the_prediction_back, lemma_long_term_is_the_sum,
};
use crate::silk::tables::SILK_QUANTIZATION_OFFSETS_Q10;

verus! {

// ---------------------------------------------------------------------------
// Excitation
// ---------------------------------------------------------------------------
/// The level that the pulses of a frame are offset by, Q14: higher the noisier
/// the frame.
pub open spec fn offset_q14(signal_type: int, quant_offset_type: int) -> int {
    if signal_type == 2 {
        if quant_offset_type == 0 {
            512
        } else {
            1600
        }
    } else {
        if quant_offset_type == 0 {
            1600
        } else {
            3840
        }
    }
}

/// Whether `r` are the numbers of a generator that multiplies by 196314165 and
/// adds 907633515 modulo two to the 32nd, started with `seed` and stirred by
/// every pulse.
pub open spec fn stirs(r: Seq<int>, seed: int, pulses: Seq<i16>) -> bool {
    &&& forall|i: int| 0 <= i < r.len() ==> -0x8000_0000 <= #[trigger] r[i] <= 0x7fff_ffff
    &&& r.len() > 0 ==> (r[0] - 907633515 - 196314165 * seed) % 0x1_0000_0000 == 0
    &&& forall|i: int, j: int|
        #![trigger r[i], r[j]]
        0 <= i && j == i + 1 && j < r.len() ==> (r[j] - 907633515 - 196314165 * (r[i]
            + pulses[i])) % 0x1_0000_0000 == 0
}

proof fn lemma_offset(d: SilkDecoderState)
    requires
        0 <= d.indices.signal_type <= 2,
        0 <= d.indices.quant_offset_type <= 1,
    ensures
        16 * level_offset(d) == offset_q14(
            d.indices.signal_type as int,
            d.indices.quant_offset_type as int,
        ),
{
    assert(SILK_QUANTIZATION_OFFSETS_Q10@[0]@[0] == 100 && SILK_QUANTIZATION_OFFSETS_Q10@[0]@[1]
        == 240 && SILK_QUANTIZATION_OFFSETS_Q10@[1]@[0] == 32
        && SILK_QUANTIZATION_OFFSETS_Q10@[1]@[1] == 100);
}

/// Wrapping around takes off a multiple of two to the 32nd.
proof fn lemma_wrapped_off(v: int) -> (q: int)
    ensures
        v == wrap(v) + 0x1_0000_0000 * q,
{
    if v % 0x1_0000_0000 >= 0x8000_0000 {
        v / 0x1_0000_0000 + 1
    } else {
        v / 0x1_0000_0000
    }
}

proof fn lemma_multiple(q: int)
    ensures
        (0x1_0000_0000 * q) % 0x1_0000_0000 == 0,
{
    vstd::arithmetic::div_mod::lemma_mod_multiples_basic(q, 0x1_0000_0000);
}

proof fn lemma_random(x: int)
    ensures
        is_word(rand_next(x)),
        (rand_next(x) - 907633515 - 196314165 * x) % 0x1_0000_0000 == 0,
        (rand_next(wrap(x)) - 907633515 - 196314165 * x) % 0x1_0000_0000 == 0,
{
    lemma_wrap_is_word(907633515 + x * 196314165);
    let q = lemma_wrapped_off(907633515 + x * 196314165);
    lemma_multiple(-q);
    assert(rand_next(x) - 907633515 - 196314165 * x == 0x1_0000_0000 * (-q));
    let w = wrap(x);
    let u = lemma_wrapped_off(x);
    let t = lemma_wrapped_off(907633515 + w * 196314165);
    let z = -t - 196314165 * u;
    lemma_multiple(z);
    assert(rand_next(w) - 907633515 - 196314165 * x == 0x1_0000_0000 * z);
}

/// The random numbers of a frame.
spec fn frame_random(d: SilkDecoderState, pulses: Seq<i16>) -> Seq<int> {
    Seq::new(
        d.frame_length as nat,
        |i: int| dither(d.indices.seed as int, pulses, i),
    )
}

proof fn lemma_frame_random(d: SilkDecoderState, pulses: Seq<i16>)
    requires
        d.frame_length >= 0,
    ensures
        stirs(frame_random(d, pulses), d.indices.seed as int, pulses),
{
    let r = frame_random(d, pulses);
    assert forall|i: int| 0 <= i < r.len() implies -0x8000_0000 <= #[trigger] r[i]
        <= 0x7fff_ffff by {
        if i == 0 {
            lemma_random(d.indices.seed as int);
        } else {
            lemma_random(wrap(dither(d.indices.seed as int, pulses, i - 1) + pulses[i - 1]));
        }
    }
    if r.len() > 0 {
        lemma_random(d.indices.seed as int);
    }
    assert forall|i: int, j: int|
        #![trigger r[i], r[j]]
        0 <= i && j == i + 1 && j < r.len() implies (r[j] - 907633515 - 196314165 * (r[i]
        + pulses[i])) % 0x1_0000_0000 == 0 by {
        lemma_random(r[i] + pulses[i]);
    }
}

/// The excitation of a frame follows its pulses: every sample is its pulse, in
/// steps of 16384, pulled 1280 towards zero, offset, and its sign turned where the
/// random number of that sample is negative.
pub proof fn law_excitation_follows_the_pulses(
    d: SilkDecoderState,
    c: SilkDecoderControl,
    pulses: Seq<i16>,
    xq: Seq<i16>,
    next: SilkDecoderState,
    next_c: SilkDecoderControl,
    out: Seq<i16>,
)
    requires
        core_result(d, c, pulses, xq, next, next_c, out),
        0 <= d.frame_length <= 320,
        0 <= d.indices.signal_type <= 2,
        0 <= d.indices.quant_offset_type <= 1,
    ensures
        exists|r: Seq<int>|
            {
                &&& r.len() == d.frame_length
                &&& #[trigger] stirs(r, d.indices.seed as int, pulses)
                &&& forall|i: int|
                    0 <= i < d.frame_length ==> {
                        let turned = if r[i] < 0 {
                            -(#[trigger] next.exc_q14@[i])
                        } else {
                            next.exc_q14@[i] as int
                        };
                        let pull = turned - (pulses[i] * 16384 + offset_q14(
                            d.indices.signal_type as int,
                            d.indices.quant_offset_type as int,
                        ));
                        &&& -1280 <= pull <= 1280
                        &&& pulses[i] > 0 ==> pull == -1280
                        &&& pulses[i] < 0 ==> pull == 1280
                        &&& pulses[i] == 0 ==> pull == 0
                    }
            },
{
    reveal(core_result);
    lemma_frame_random(d, pulses);
    lemma_offset(d);
    let r = frame_random(d, pulses);
    assert(stirs(r, d.indices.seed as int, pulses));
    assert forall|i: int| 0 <= i < d.frame_length implies {
        let turned = if r[i] < 0 {
            -(#[trigger] next.exc_q14@[i])
        } else {
            next.exc_q14@[i] as int
        };
        let pull = turned - (pulses[i] * 16384 + offset_q14(
            d.indices.signal_type as int,
            d.indices.quant_offset_type as int,
        ));
        &&& -1280 <= pull <= 1280
        &&& pulses[i] > 0 ==> pull == -1280
        &&& pulses[i] < 0 ==> pull == 1280
        &&& pulses[i] == 0 ==> pull == 0
    } by {
        assert(next.exc_q14@[i] == frame_excitation(d, pulses)[i]);
    }
}

/// Apart from the offset the excitation is odd in the pulse: two frames that
/// agree up to a sample and differ there in the pulse's sign have excitations
/// there that mirror each other about the offset. Without the offset, a pulse and
/// its negative give a value and its negative.
pub proof fn law_excitation_is_odd_in_the_pulse(
    d: SilkDecoderState,
    c: SilkDecoderControl,
    pulses: Seq<i16>,
    mirrored: Seq<i16>,
    xq: Seq<i16>,
    next: SilkDecoderState,
    other: SilkDecoderState,
    next_c: SilkDecoderControl,
    other_c: SilkDecoderControl,
    out: Seq<i16>,
    other_out: Seq<i16>,
    i: int,
)
    requires
        core_result(d, c, pulses, xq, next, next_c, out),
        core_result(d, c, mirrored, xq, other, other_c, other_out),
        0 <= i < d.frame_length <= 320,
        0 <= d.indices.signal_type <= 2,
        0 <= d.indices.quant_offset_type <= 1,
        forall|j: int| 0 <= j < i ==> #[trigger] pulses[j] == mirrored[j],
        mirrored[i] == -pulses[i],
    ensures
        forall|j: int| 0 <= j < i ==> #[trigger] next.exc_q14@[j] == other.exc_q14@[j],
        ({
            let sum = next.exc_q14@[i] + other.exc_q14@[i];
            let offset = offset_q14(
                d.indices.signal_type as int,
                d.indices.quant_offset_type as int,
            );
            let away = next.exc_q14@[i] - other.exc_q14@[i];
            &&& sum == 2 * offset || sum == -2 * offset
            &&& sum == 2 * offset && pulses[i] > 0 ==> away > 0
            &&& sum == 2 * offset && pulses[i] < 0 ==> away < 0
            &&& sum == -2 * offset && pulses[i] > 0 ==> away < 0
            &&& sum == -2 * offset && pulses[i] < 0 ==> away > 0
        }),
{
    reveal(core_result);
    lemma_offset(d);
    assert forall|j: int| 0 <= j < i implies #[trigger] next.exc_q14@[j]
        == other.exc_q14@[j] by {
        lemma_dither_alike(d.indices.seed as int, pulses, mirrored, j);
        assert(next.exc_q14@[j] == frame_excitation(d, pulses)[j]);
        assert(other.exc_q14@[j] == frame_excitation(d, mirrored)[j]);
    }
    lemma_dither_alike(d.indices.seed as int, pulses, mirrored, i);
    assert(next.exc_q14@[i] == frame_excitation(d, pulses)[i]);
    assert(other.exc_q14@[i] == frame_excitation(d, mirrored)[i]);
}

proof fn lemma_dither_alike(seed: int, p: Seq<i16>, q: Seq<i16>, i: int)
    requires
        forall|j: int| 0 <= j < i ==> #[trigger] p[j] == q[j],
    ensures
        dither(seed, p, i) == dither(seed, q, i),
    decreases i,
{
    if i > 0 {
        lemma_dither_alike(seed, p, q, i - 1);
        assert(p[i - 1] == q[i - 1]);
    }
}

// ---------------------------------------------------------------------------
// The signal
// ---------------------------------------------------------------------------
/// Whether `y` is `e` with short-term prediction put back, behind the last 16
/// samples `past` of the signal it goes on from.
pub open spec fn is_filtered(
    y: Seq<i32>,
    past: Seq<i32>,
    e: Seq<i32>,
    a: Seq<i16>,
    order: int,
) -> bool {
    &&& y.len() == 16 + e.len()
    &&& forall|i: int| 0 <= i < 16 ==> #[trigger] y[i] == past[i]
    &&& forall|i: int|
        0 <= i < e.len() ==> is_predicted(y, 16 + i, #[trigger] e[i] as int, a, order)
}

/// Whether the samples of `out` from `at` on are the signal in `y` behind its
/// first 16 samples, at a gain.
pub open spec fn is_put_out_from(out: Seq<i16>, at: int, y: Seq<i32>, gain_q16: int) -> bool {
    forall|i: int|
        16 <= i < y.len() ==> is_put_out(
            out[at + i - 16] as int,
            #[trigger] y[i] as int,
            gain_q16,
        )
}

proof fn lemma_core_sizes(d: SilkDecoderState, k: int)
    requires
        configured(d),
        d.nb_subfr == 2 || d.nb_subfr == 4,
        0 <= k < d.nb_subfr,
    ensures
        40 <= d.subfr_length <= 80,
        0 <= k * d.subfr_length,
        k * d.subfr_length + d.subfr_length <= d.frame_length <= 320,
        d.nb_subfr * d.subfr_length == d.frame_length,
        k + 1 < d.nb_subfr ==> (k + 1) * d.subfr_length == k * d.subfr_length + d.subfr_length,
{
    let n: int = d.subfr_length as int;
    let nb: int = d.nb_subfr as int;
    assert(0 <= k * n && k * n + n <= n * nb && n * nb <= 320 && nb * n == n * nb && (k + 1) * n
        == k * n + n) by (nonlinear_arith)
        requires
            0 <= k < nb <= 4,
            0 <= n <= 80,
    ;
}

proof fn lemma_core_run_sizes(
    d: SilkDecoderState,
    c: SilkDecoderControl,
    exc: Seq<i32>,
    xq: Seq<i16>,
    k: int,
)
    requires
        configured(d),
        d.nb_subfr == 2 || d.nb_subfr == 4,
        0 <= k <= d.nb_subfr,
        exc.len() == 320,
    ensures
        core_run(d, c, exc, core_start(d, xq), k).lpc.len() == 16,
        core_run(d, c, exc, core_start(d, xq), k).xq.len() == xq.len(),
        core_run(d, c, exc, core_start(d, xq), k).prev_gain == if k == 0 {
            d.prev_gain_q16 as int
        } else {
            c.gains_q16@[k - 1] as int
        },
    decreases k,
{
    if k > 0 {
        lemma_core_run_sizes(d, c, exc, xq, k - 1);
        reveal(core_step);
        lemma_core_sizes(d, k - 1);
        let st = core_run(d, c, exc, core_start(d, xq), k - 1);
        let p = subframe_plan(d, c, k - 1);
        lemma_step_lens(d, st, c, exc, k - 1);
    }
}

proof fn lemma_step_lens(
    d: SilkDecoderState,
    st: CoreState,
    c: SilkDecoderControl,
    exc: Seq<i32>,
    k: int,
)
    requires
        configured(d),
        d.nb_subfr == 2 || d.nb_subfr == 4,
        0 <= k < d.nb_subfr,
        st.lpc.len() == 16,
        exc.len() == 320,
    ensures
        ({
            let p = subframe_plan(d, c, k);
            let n = d.subfr_length as int;
            &&& subframe_residual(d, st, p, exc, k).len() == n
            &&& scaled_history(st.lpc, st.prev_gain, p.gain).len() == 16
            &&& subframe_synthesis(d, st, p, exc, k).len() == 16 + n
        }),
{
    lemma_core_sizes(d, k);
    let p = subframe_plan(d, c, k);
    let n = d.subfr_length as int;
    let b = scaled_history(st.lpc, st.prev_gain, p.gain) + subframe_residual(d, st, p, exc, k);
    lemma_synthesis_elsewhere(b, 16, p.a, d.lpc_order as int, n, 0);
}

proof fn lemma_run_keeps_output(
    d: SilkDecoderState,
    c: SilkDecoderControl,
    exc: Seq<i32>,
    st: CoreState,
    k: int,
    m: int,
    i: int,
)
    requires
        configured(d),
        d.nb_subfr == 2 || d.nb_subfr == 4,
        0 <= k < m <= d.nb_subfr,
        0 <= i < st.xq.len(),
        k * d.subfr_length <= i < k * d.subfr_length + d.subfr_length,
    ensures
        core_run(d, c, exc, st, m).xq.len() == st.xq.len(),
        core_run(d, c, exc, st, m).xq[i] == core_run(d, c, exc, st, k + 1).xq[i],
    decreases m,
{
    reveal(core_step);
    lemma_xq_len(d, c, exc, st, m);
    if m > k + 1 {
        lemma_run_keeps_output(d, c, exc, st, k, m - 1, i);
        lemma_xq_len(d, c, exc, st, m - 1);
        let n: int = d.subfr_length as int;
        assert((m - 1) * n >= k * n + n) by (nonlinear_arith)
            requires
                m - 1 >= k + 1,
                n >= 0,
        ;
    }
}

proof fn lemma_xq_len(
    d: SilkDecoderState,
    c: SilkDecoderControl,
    exc: Seq<i32>,
    st: CoreState,
    m: int,
)
    ensures
        core_run(d, c, exc, st, m).xq.len() == st.xq.len(),
    decreases m,
{
    if m > 0 {
        reveal(core_step);
        lemma_xq_len(d, c, exc, st, m - 1);
    }
}

pub(crate) proof fn lemma_core_result_len(
    d: SilkDecoderState,
    c: SilkDecoderControl,
    pulses: Seq<i16>,
    xq: Seq<i16>,
    next: SilkDecoderState,
    next_c: SilkDecoderControl,
    out: Seq<i16>,
)
    requires
        core_result(d, c, pulses, xq, next, next_c, out),
    ensures
        out.len() == xq.len(),
{
    reveal(core_result);
    lemma_xq_len(d, c, frame_excitation(d, pulses), core_start(d, xq), d.nb_subfr as int);
}

/// A subframe is its residual filtered and put out at its own gain. Without
/// long-term prediction the residual is the excitation. It goes on from the
/// signal in front of it, as it is where the gain stays; and behind the last
/// subframe the decoder keeps the end of the signal, at the last gain.
#[verifier::spinoff_prover]
#[verifier::rlimit(60)]
pub proof fn law_a_subframe_is_put_out_at_its_gain(
    d: SilkDecoderState,
    c: SilkDecoderControl,
    pulses: Seq<i16>,
    xq: Seq<i16>,
    next: SilkDecoderState,
    next_c: SilkDecoderControl,
    out: Seq<i16>,
    k: int,
)
    requires
        core_result(d, c, pulses, xq, next, next_c, out),
        configured(d),
        d.nb_subfr == 2 || d.nb_subfr == 4,
        control_valid(d, c),
        d.frame_length <= xq.len(),
        0 <= k < d.nb_subfr,
    ensures
        exists|y: Seq<i32>, past: Seq<i32>, e: Seq<i32>|
            {
                let n = d.subfr_length as int;
                &&& #[trigger] is_filtered(
                    y,
                    past,
                    e,
                    c.pred_coef_q12@[k / 2]@,
                    d.lpc_order as int,
                )
                &&& e.len() == n
                &&& past.len() == 16
                &&& is_put_out_from(out, k * n, y, c.gains_q16@[k] as int)
                &&& d.indices.signal_type != 2 && (d.loss_cnt == 0 || d.prev_signal_type != 2 || k
                    >= 2) ==> e == next.exc_q14@.subrange(k * n, k * n + n)
                &&& k == 0 && d.prev_gain_q16 == c.gains_q16@[0] ==> past == d.s_lpc_q14_buf@
                &&& k == d.nb_subfr - 1 ==> next.s_lpc_q14_buf@ == y.subrange(n, n + 16)
                &&& next.prev_gain_q16 == c.gains_q16@[d.nb_subfr - 1]
            },
{
    reveal(core_result);
    reveal(core_step);
    lemma_core_sizes(d, k);
    let n = d.subfr_length as int;
    let exc = frame_excitation(d, pulses);
    let start = core_start(d, xq);
    let st = core_run(d, c, exc, start, k);
    let p = subframe_plan(d, c, k);
    lemma_core_run_sizes(d, c, exc, xq, k);
    lemma_core_run_sizes(d, c, exc, xq, d.nb_subfr as int);
    lemma_step_lens(d, st, c, exc, k);
    let past = scaled_history(st.lpc, st.prev_gain, p.gain);
    let e = subframe_residual(d, st, p, exc, k);
    let y = subframe_synthesis(d, st, p, exc, k);
    lemma_subframe_is_filtered(d, st, c, exc, k);
    assert(is_filtered(y, past, e, p.a, d.lpc_order as int));
    lemma_subframe_is_put_out(d, c, pulses, xq, next, next_c, out, k);
}

proof fn lemma_scaled_is_short(x: int, g: int)
    ensures
        scaled_sample(x, g) as i16 == scaled_sample(x, g),
{
}

// ---------------------------------------------------------------------------
// Gains that change
// ---------------------------------------------------------------------------
/// Whether `z` at gain `g` is as loud as `x` at gain `h`: to within `g` and the
/// quotient's own rounding. Where one gain dwarfs the other, or the signal leaves
/// its range, nothing is said.
pub open spec fn is_carried(z: int, g: int, x: int, h: int) -> bool {
    let m: int = if x < 0 {
        -x
    } else {
        x
    };
    0 < h <= 4096 * g && g <= 131072 * h && m * h <= 0x3000_0000 * g ==> {
        let slack = g + (m / 0x1_0000 + 1) * (g + h / 512 + 1);
        -slack <= z * g - x * h <= slack
    }
}

proof fn lemma_carried(x: int, g: int, h: int)
    requires
        is_word(x),
        0 < g <= 0x7fff_ffff,
        h <= 0x7fff_ffff,
        g != h,
    ensures
        is_carried(smulww(gain_step(h, g), x), g, x, h),
{
    let m: int = if x < 0 {
        -x
    } else {
        x
    };
    if 0 < h <= 4096 * g && g <= 131072 * h && m * h <= 0x3000_0000 * g {
        law_the_quotient_is_close(h, g);
        let r = div32_varq(h, g, 16);
        let off = g * r - 0x1_0000 * h;
        let u = g + h / 512 + 1;
        assert(-u <= off <= u);
        let q = r * x / 0x1_0000;
        let rest = r * x - 0x1_0000 * q;
        assert(0 <= rest < 0x1_0000);
        assert(0x1_0000 * (g * q) == 0x1_0000 * (h * x) + off * x - g * rest) by (nonlinear_arith)
            requires
                rest == r * x - 0x1_0000 * q,
                off == g * r - 0x1_0000 * h,
        ;
        let v = u * m;
        assert(-v <= off * x <= v) by (nonlinear_arith)
            requires
                v == u * m,
                -u <= off <= u,
                m == (if x < 0 {
                    -x
                } else {
                    x
                }),
        ;
        assert(0 <= g * rest <= 0x1_0000 * g) by (nonlinear_arith)
            requires
                0 <= rest < 0x1_0000,
                g > 0,
        ;
        let w = (m / 0x1_0000 + 1) * u;
        assert(v <= 0x1_0000 * w) by (nonlinear_arith)
            requires
                v == u * m,
                w == (m / 0x1_0000 + 1) * u,
                u >= 0,
                m >= 0,
        ;
        assert(g * q == q * g && h * x == x * h) by (nonlinear_arith);
        assert(-(g + w) <= q * g - x * h <= g + w);
        // The product stays within a word.
        lemma_carried_fits(q, g, x, h, m, w, u);
        lemma_wrap_is_word(q);
        assert(smulww(r, x) == q);
    }
}

proof fn lemma_carried_fits(q: int, g: int, x: int, h: int, m: int, w: int, u: int)
    requires
        0 < g <= 0x7fff_ffff,
        0 < h <= 4096 * g,
        0 <= m <= 0x8000_0000,
        m == (if x < 0 {
            -x
        } else {
            x
        }),
        m * h <= 0x3000_0000 * g,
        u == g + h / 512 + 1,
        w == (m / 0x1_0000 + 1) * u,
        -(g + w) <= q * g - x * h <= g + w,
    ensures
        is_word(q),
{
    assert(u <= 10 * g);
    assert(m / 0x1_0000 + 1 <= 0x8001);
    assert(w <= 0x8001 * (10 * g)) by (nonlinear_arith)
        requires
            w == (m / 0x1_0000 + 1) * u,
            0 <= m / 0x1_0000 + 1 <= 0x8001,
            0 <= u <= 10 * g,
            m >= 0,
    ;
    assert(-(0x3000_0000 * g) <= x * h <= 0x3000_0000 * g) by (nonlinear_arith)
        requires
            m * h <= 0x3000_0000 * g,
            m == (if x < 0 {
                -x
            } else {
                x
            }),
            h > 0,
    ;
    assert(-(0x4000_0000 * g) <= q * g <= 0x4000_0000 * g);
    assert(-0x4000_0000 <= q <= 0x4000_0000) by (nonlinear_arith)
        requires
            -(0x4000_0000 * g) <= q * g <= 0x4000_0000 * g,
            g > 0,
    ;
}

/// The gain in front of subframe `k`, Q16.
pub open spec fn gain_before(d: SilkDecoderState, c: SilkDecoderControl, k: int) -> int {
    if k == 0 {
        d.prev_gain_q16 as int
    } else {
        c.gains_q16@[k - 1] as int
    }
}

/// Where the gain changes, the signal goes on at its level: the first subframe
/// behind a frame, and every further one, begins with the end of the signal in
/// front of it, as loud at the new gain as it was at the old.
#[verifier::spinoff_prover]
#[verifier::rlimit(60)]
pub proof fn law_subframes_join_at_their_level(
    d: SilkDecoderState,
    c: SilkDecoderControl,
    pulses: Seq<i16>,
    xq: Seq<i16>,
    next: SilkDecoderState,
    next_c: SilkDecoderControl,
    out: Seq<i16>,
    k: int,
)
    requires
        core_result(d, c, pulses, xq, next, next_c, out),
        configured(d),
        d.nb_subfr == 2 || d.nb_subfr == 4,
        control_valid(d, c),
        d.frame_length <= xq.len(),
        0 <= k < d.nb_subfr,
    ensures
        exists|before: Seq<i32>, y: Seq<i32>|
            {
                let n = d.subfr_length as int;
                &&& before.len() == 16 + n
                &&& y.len() == 16 + n
                &&& k == 0 ==> before.subrange(n, n + 16) == d.s_lpc_q14_buf@
                &&& k > 0 ==> is_put_out_from(
                    out,
                    (k - 1) * n,
                    before,
                    c.gains_q16@[k - 1] as int,
                )
                &&& is_put_out_from(out, k * n, y, c.gains_q16@[k] as int)
                &&& #[trigger] joins(
                    before,
                    gain_before(d, c, k),
                    y,
                    c.gains_q16@[k] as int,
                    d.subfr_length as int,
                )
            },
{
    reveal(core_result);
    lemma_core_sizes(d, k);
    let n = d.subfr_length as int;
    let exc = frame_excitation(d, pulses);
    let start = core_start(d, xq);
    let st = core_run(d, c, exc, start, k);
    let p = subframe_plan(d, c, k);
    lemma_core_run_sizes(d, c, exc, xq, k);
    lemma_step_lens(d, st, c, exc, k);
    lemma_subframe_is_put_out(d, c, pulses, xq, next, next_c, out, k);
    let g: int = c.gains_q16@[k] as int;
    let h: int = st.prev_gain;
    let past = scaled_history(st.lpc, st.prev_gain, p.gain);
    let y = subframe_synthesis(d, st, p, exc, k);
    let before = if k == 0 {
        Seq::new(n as nat, |i: int| 0i32) + d.s_lpc_q14_buf@
    } else {
        subframe_synthesis(
            d,
            core_run(d, c, exc, start, k - 1),
            subframe_plan(d, c, k - 1),
            exc,
            k - 1,
        )
    };
    if k > 0 {
        reveal(core_step);
        lemma_core_sizes(d, k - 1);
        lemma_core_run_sizes(d, c, exc, xq, k - 1);
        lemma_step_lens(d, core_run(d, c, exc, start, k - 1), c, exc, k - 1);
        lemma_subframe_is_put_out(d, c, pulses, xq, next, next_c, out, k - 1);
    } else {
        assert(before.subrange(n, n + 16) =~= d.s_lpc_q14_buf@);
    }
    assert(st.lpc =~= before.subrange(n, n + 16));
    assert forall|i: int| 0 <= i < 16 implies is_carried(
        #[trigger] y[i] as int,
        g,
        before[n + i] as int,
        h,
    ) && (g == h ==> y[i] == before[n + i]) by {
        let b = past + subframe_residual(d, st, p, exc, k);
        lemma_synthesis_elsewhere(b, 16, p.a, d.lpc_order as int, n, i);
        assert(y[i] == past[i]);
        assert(st.lpc[i] == before[n + i]);
        assert(c.gains_q16@[k] > 0);
        if g != h {
            lemma_carried(st.lpc[i] as int, g, h);
            lemma_wrap_is_word(gain_step(h, g) * st.lpc[i] / 0x1_0000);
        } else {
            let x: int = st.lpc[i] as int;
            assert(x * g - x * h == 0) by (nonlinear_arith)
                requires
                    g == h,
            ;
            let m: int = if x < 0 {
                -x
            } else {
                x
            };
            assert((m / 0x1_0000 + 1) * (g + h / 512 + 1) >= 0) by (nonlinear_arith)
                requires
                    m >= 0,
                    g > 0,
                    g == h,
            ;
        }
    }
    assert(h == gain_before(d, c, k));
    assert(joins(
        before,
        gain_before(d, c, k),
        y,
        c.gains_q16@[k] as int,
        d.subfr_length as int,
    ));
    assert(is_put_out_from(out, k * n, y, c.gains_q16@[k] as int));
    assert(before.len() == 16 + n);
    assert(y.len() == 16 + n);
    if k > 0 {
        assert(is_put_out_from(out, (k - 1) * n, before, c.gains_q16@[k - 1] as int));
    }
}

/// Whether `y` begins with the last 16 samples of `before`, each as loud at gain
/// `g` as it was at gain `h`.
pub open spec fn joins(before: Seq<i32>, h: int, y: Seq<i32>, g: int, n: int) -> bool {
    forall|i: int|
        0 <= i < 16 ==> is_carried(#[trigger] y[i] as int, g, before[n + i] as int, h) && (g == h
            ==> y[i] == before[n + i])
}

proof fn lemma_subframe_is_put_out(
    d: SilkDecoderState,
    c: SilkDecoderControl,
    pulses: Seq<i16>,
    xq: Seq<i16>,
    next: SilkDecoderState,
    next_c: SilkDecoderControl,
    out: Seq<i16>,
    k: int,
)
    requires
        core_result(d, c, pulses, xq, next, next_c, out),
        configured(d),
        d.nb_subfr == 2 || d.nb_subfr == 4,
        control_valid(d, c),
        d.frame_length <= xq.len(),
        0 <= k < d.nb_subfr,
    ensures
        ({
            let exc = frame_excitation(d, pulses);
            let st = core_run(d, c, exc, core_start(d, xq), k);
            is_put_out_from(
                out,
                k * d.subfr_length,
                subframe_synthesis(d, st, subframe_plan(d, c, k), exc, k),
                c.gains_q16@[k] as int,
            )
        }),
{
    reveal(core_result);
    reveal(core_step);
    lemma_core_sizes(d, k);
    let n = d.subfr_length as int;
    let exc = frame_excitation(d, pulses);
    let start = core_start(d, xq);
    let st = core_run(d, c, exc, start, k);
    let p = subframe_plan(d, c, k);
    lemma_core_run_sizes(d, c, exc, xq, k);
    lemma_step_lens(d, st, c, exc, k);
    let y = subframe_synthesis(d, st, p, exc, k);
    assert forall|i: int| 16 <= i < y.len() implies is_put_out(
        out[k * n + i - 16] as int,
        #[trigger] y[i] as int,
        c.gains_q16@[k] as int,
    ) by {
        let at = k * n + i - 16;
        lemma_run_keeps_output(d, c, exc, start, k, d.nb_subfr as int, at);
        assert(c.gains_q16@[k] > 0);
        law_a_sample_is_put_out_at_its_gain(y[i] as int, c.gains_q16@[k] as int);
        assert(16 + at - k * n == i);
        assert(core_run(d, c, exc, start, k + 1).xq[at] == scaled_sample(
            y[i] as int,
            rshift(p.gain, 6),
        ) as i16);
        lemma_scaled_is_short(y[i] as int, rshift(p.gain, 6));
    }
}

// ---------------------------------------------------------------------------
// Voiced subframes
// ---------------------------------------------------------------------------
/// Whether `e`, Q14, is the excitation `x` with what stood a pitch lag before it
/// added, through five weights in Q14 out of the past `big` in Q15; and whether it
/// stands in `big` itself. Where the sum leaves its range, nothing is said.
pub open spec fn is_recalled(
    big: Seq<i32>,
    o: int,
    lag: int,
    b: Seq<i16>,
    x: int,
    e: int,
) -> bool {
    let at = o - lag;
    let s = b[0] * big[at + 2] + b[1] * big[at + 1] + b[2] * big[at] + b[3] * big[at - 1] + b[4]
        * big[at - 2];
    -0x800_0000_0000 <= s <= 0x800_0000_0000 && -0x2100_0000 <= x <= 0x2100_0000 ==> {
        &&& -0x3_0000 <= 0x8000 * (e - x) - s <= 0x3_0000
        &&& big[o] == 2 * e
    }
}

proof fn lemma_voiced_len(
    ltp: Seq<i32>,
    exc: Seq<i32>,
    from: int,
    idx: int,
    lag: int,
    taps: Seq<i16>,
    n: int,
)
    requires
        0 <= idx,
        idx + n <= ltp.len(),
    ensures
        voiced_run(ltp, exc, from, idx, lag, taps, n).len() == ltp.len(),
    decreases n,
{
    if n > 0 {
        lemma_voiced_len(ltp, exc, from, idx, lag, taps, n - 1);
    }
}

proof fn lemma_voiced_stays(
    ltp: Seq<i32>,
    exc: Seq<i32>,
    from: int,
    idx: int,
    lag: int,
    taps: Seq<i16>,
    n: int,
    m: int,
    j: int,
)
    requires
        0 <= idx,
        0 <= m <= n,
        idx + n <= ltp.len(),
        0 <= j < idx + m,
    ensures
        voiced_run(ltp, exc, from, idx, lag, taps, n)[j] == voiced_run(
            ltp,
            exc,
            from,
            idx,
            lag,
            taps,
            m,
        )[j],
    decreases n - m,
{
    if n > m {
        lemma_voiced_stays(ltp, exc, from, idx, lag, taps, n - 1, m, j);
        lemma_voiced_len(ltp, exc, from, idx, lag, taps, n - 1);
    }
}

#[verifier::spinoff_prover]
#[verifier::rlimit(60)]
proof fn lemma_recalled(
    ltp: Seq<i32>,
    exc: Seq<i32>,
    from: int,
    idx: int,
    lag: int,
    taps: Seq<i16>,
    n: int,
    i: int,
)
    requires
        3 <= lag,
        0 <= idx - lag - 2,
        idx + n <= ltp.len(),
        0 <= i < n,
    ensures
        is_recalled(
            voiced_run(ltp, exc, from, idx, lag, taps, n),
            idx + i,
            lag,
            taps,
            exc[from + i] as int,
            voiced_residual(ltp, exc, from, idx, lag, taps, n)[i] as int,
        ),
{
    let big = voiced_run(ltp, exc, from, idx, lag, taps, n);
    let b = voiced_run(ltp, exc, from, idx, lag, taps, i);
    let o = idx + i;
    let at = idx - lag + 2 + i;
    lemma_voiced_len(ltp, exc, from, idx, lag, taps, i);
    lemma_voiced_stays(ltp, exc, from, idx, lag, taps, n, i, at);
    lemma_voiced_stays(ltp, exc, from, idx, lag, taps, n, i, at - 1);
    lemma_voiced_stays(ltp, exc, from, idx, lag, taps, n, i, at - 2);
    lemma_voiced_stays(ltp, exc, from, idx, lag, taps, n, i, at - 3);
    lemma_voiced_stays(ltp, exc, from, idx, lag, taps, n, i, at - 4);
    lemma_voiced_stays(ltp, exc, from, idx, lag, taps, n, i + 1, o);
    lemma_long_term_is_the_sum(b, at, taps);
    vstd::arithmetic::power2::lemma2_to64();
    let s = taps[0] * b[at] + taps[1] * b[at - 1] + taps[2] * b[at - 2] + taps[3] * b[at - 3]
        + taps[4] * b[at - 4];
    let v = choose|v: int|
        #[trigger] wrap(v) == long_term(b, at, taps, 5) && s - 0x5_0000 <= 0x1_0000 * (v - 2) <= s;
    let x: int = exc[from + i] as int;
    let e = voiced_sample(b, exc, from, idx, lag, taps, i);
    lemma_wrap_is_word(x + lshift(long_term(b, at, taps, 5), 1));
    assert(voiced_residual(ltp, exc, from, idx, lag, taps, n)[i] == e);
    assert(big[o] == lshift(e, 1) as i32);
    lemma_wrap_is_word(e * 2);
    assert(big[o - lag + 2] == b[at] && big[o - lag + 1] == b[at - 1] && big[o - lag] == b[at - 2]
        && big[o - lag - 1] == b[at - 3] && big[o - lag - 2] == b[at - 4]);
    if -0x800_0000_0000 <= s <= 0x800_0000_0000 && -0x2100_0000 <= x <= 0x2100_0000 {
        lemma_wrap_is_word(v);
        lemma_wrap_is_word(v * 2);
        lemma_wrap_is_word(x + v * 2);
        assert(e == x + 2 * v);
        lemma_wrap_is_word(e * 2);
    }
}

/// Whether subframe `k` has a period: its frame is voiced, or it leads out of a
/// lost voiced frame.
pub open spec fn has_period(d: SilkDecoderState, k: int) -> bool {
    d.indices.signal_type == 2 || (d.loss_cnt > 0 && d.prev_signal_type == 2 && k < 2)
}

proof fn lemma_ltp_len(
    d: SilkDecoderState,
    c: SilkDecoderControl,
    exc: Seq<i32>,
    xq: Seq<i16>,
    k: int,
)
    requires
        configured(d),
        d.nb_subfr == 2 || d.nb_subfr == 4,
        0 <= k <= d.nb_subfr,
    ensures
        core_run(d, c, exc, core_start(d, xq), k).ltp.len() == d.ltp_mem_length + d.frame_length,
    decreases k,
{
    if k == 0 {
        lemma_core_sizes(d, 0);
    } else {
        lemma_ltp_len(d, c, exc, xq, k - 1);
        lemma_core_sizes(d, k - 1);
        reveal(core_step);
        reveal(ready_past);
        let st = core_run(d, c, exc, core_start(d, xq), k - 1);
        let p = subframe_plan(d, c, k - 1);
        let n = d.subfr_length as int;
        if p.voiced {
            lemma_voiced_len(
                past_before(d, st, p, k - 1),
                exc,
                (k - 1) * n,
                d.ltp_mem_length + (k - 1) * n,
                p.lag,
                p.taps,
                n,
            );
        }
    }
}

/// The output that a subframe which starts its period anew looks back on: the last
/// frames', with the first half of this one behind it for the second half.
pub open spec fn output_behind(d: SilkDecoderState, out: Seq<i16>, k: int) -> Seq<i16> {
    Seq::new(
        480,
        |i: int|
            if k == 2 && d.ltp_mem_length <= i < d.ltp_mem_length + 2 * d.subfr_length {
                out[i - d.ltp_mem_length]
            } else {
                d.out_buf@[i]
            },
    )
}

/// The scale of a period that starts anew, Q14: the frame's in its first subframe.
pub open spec fn scale_of(c: SilkDecoderControl, k: int) -> int {
    if k == 0 {
        c.ltp_scale_q14 as int
    } else {
        16384
    }
}

/// Whether the period of subframe `k` starts from the output: what prediction leaves
/// of it, without the gain, and in the first subframe scaled in Q14.
pub open spec fn starts_from_output(
    d: SilkDecoderState,
    c: SilkDecoderControl,
    out: Seq<i16>,
    k: int,
    lag: int,
    big: Seq<i32>,
) -> bool {
    let idx = d.ltp_mem_length + k * d.subfr_length;
    forall|i: int|
        idx - lag - 2 <= i < idx ==> #[trigger] is_scaled_residual(
            output_behind(d, out, k),
            i,
            c.pred_coef_q12@[k / 2]@,
            d.lpc_order as int,
            c.gains_q16@[k] as int,
            scale_of(c, k),
            big[i] as int,
        )
}

/// Whether `e`, Q15, is what prediction leaves of sample `i`, scaled in Q14, without
/// the gain in Q16.
pub open spec fn is_scaled_residual(
    x: Seq<i16>,
    i: int,
    a: Seq<i16>,
    order: int,
    gain_q16: int,
    scale_q14: int,
    e: int,
) -> bool {
    exists|r: int|
        #[trigger] is_residual(x, i, a, order, r) && is_without(e, r, gain_q16, scale_q14)
}

/// Whether `e` times the gain is `r` times the scale, up to rounding.
pub open spec fn is_without(e: int, r: int, gain_q16: int, scale_q14: int) -> bool {
    -(4 * gain_q16 + 0x10_0000) <= gain_q16 * e - 0x2_0000 * (scale_q14 * r) <= 4 * gain_q16
        + 0x10_0000
}

proof fn lemma_without(g: int, s: int, r: int, k: int)
    requires
        0x1_0000 <= g <= 0x7fff_ffff,
        0 <= s <= 16384,
        -32768 <= r <= 32767,
        k != 0 ==> s == 16384,
    ensures
        is_without(smulwb(past_scale(g, s, k), r), r, g, s),
        is_word(smulwb(past_scale(g, s, k), r)),
{
    vstd::arithmetic::power2::lemma2_to64();
    vstd::arithmetic::power2::lemma_pow2_adds(32, 15);
    law_the_inverse_is_close(g, 47);
    let inv = inverse32_varq(g, 47);
    let off = g * inv - 0x8000_0000_0000;
    assert(-(g + 0x20_0000) <= off <= 0x20_0000);
    lemma_wrap_is_word(s);
    lemma_wrap_is_word(r);
    // The scale, times 2^14, is the inverse times `s` but for less than 2^16.
    let scale = past_scale(g, s, k);
    let p = inv * s;
    assert(0 <= p <= 0x7fff_ffff * 16384) by (nonlinear_arith)
        requires
            p == inv * s,
            0 <= inv <= 0x7fff_ffff,
            0 <= s <= 16384,
    ;
    let cut = p - 16384 * scale;
    assert(0 <= cut < 0x1_0000 && 0 <= scale <= 0x7fff_ffff) by {
        if k == 0 {
            let q = p / 0x1_0000;
            assert(smulwb(inv, s) == q);
            lemma_wrap_is_word(q * 4);
        } else {
            assert(p == 16384 * inv) by (nonlinear_arith)
                requires
                    p == inv * s,
                    s == 16384,
            ;
        }
    }
    let sr = scale * r;
    assert(-0x8000_0000 * 32768 <= sr <= 0x8000_0000 * 32768) by (nonlinear_arith)
        requires
            sr == scale * r,
            0 <= scale <= 0x7fff_ffff,
            -32768 <= r <= 32767,
    ;
    let e = sr / 0x1_0000;
    assert(smulwb(scale, r) == e);
    let rest = sr - 0x1_0000 * e;
    // 2^30 * g * e == 2^47 * s * r + off * s * r - g * cut * r - 2^14 * g * rest.
    let t = s * r;
    assert(-16384 * 32768 <= t <= 16384 * 32768) by (nonlinear_arith)
        requires
            t == s * r,
            0 <= s <= 16384,
            -32768 <= r <= 32767,
    ;
    assert(0x1_0000 * (g * e) == g * sr - g * rest) by (nonlinear_arith)
        requires
            rest == sr - 0x1_0000 * e,
    ;
    assert(16384 * sr == inv * t - cut * r) by (nonlinear_arith)
        requires
            sr == scale * r,
            cut == p - 16384 * scale,
            p == inv * s,
            t == s * r,
    ;
    let gt = (g * inv) * t;
    assert(16384 * (g * sr) == gt - g * (cut * r)) by (nonlinear_arith)
        requires
            16384 * sr == inv * t - cut * r,
            gt == (g * inv) * t,
    ;
    assert(gt == 0x8000_0000_0000 * t + off * t) by (nonlinear_arith)
        requires
            gt == (g * inv) * t,
            off == g * inv - 0x8000_0000_0000,
    ;
    let bound = g + 0x20_0000;
    assert(-(16384 * 32768 * bound) <= off * t <= 16384 * 32768 * bound) by (nonlinear_arith)
        requires
            -bound <= off <= bound,
            -16384 * 32768 <= t <= 16384 * 32768,
    ;
    let cr = cut * r;
    assert(-0x1_0000 * 32768 <= cr <= 0x1_0000 * 32768) by (nonlinear_arith)
        requires
            cr == cut * r,
            0 <= cut < 0x1_0000,
            -32768 <= r <= 32767,
    ;
    assert(-(0x1_0000 * 32768 * g) <= g * cr <= 0x1_0000 * 32768 * g) by (nonlinear_arith)
        requires
            -0x1_0000 * 32768 <= cr <= 0x1_0000 * 32768,
            g > 0,
    ;
    assert(0 <= g * rest <= 0x1_0000 * g) by (nonlinear_arith)
        requires
            0 <= rest < 0x1_0000,
            g > 0,
    ;
    assert(g * (cut * r) == g * cr);
    let ge = g * e;
    let ot = off * t;
    let gr = g * rest;
    let gc = g * cr;
    assert(0x4000_0000 * (ge - 0x2_0000 * t) == ot - gc - 16384 * gr);
    let far = ge - 0x2_0000 * t;
    assert(-(0x2000_0000 * g + 0x4_0000_0000_0000) <= ot <= 0x2000_0000 * g + 0x4_0000_0000_0000);
    assert(-(0x8000_0000 * g) <= gc <= 0x8000_0000 * g);
    assert(0 <= 16384 * gr <= 0x4000_0000 * g);
    assert(0x4000_0000 * far <= 0xe000_0000 * g + 0x4_0000_0000_0000);
    assert(0x4000_0000 * far >= -(0xe000_0000 * g + 0x4_0000_0000_0000));
    assert(-(4 * g + 0x10_0000) <= far <= 4 * g + 0x10_0000);
    assert(is_without(e, r, g, s));
}

#[verifier::spinoff_prover]
#[verifier::rlimit(60)]
proof fn lemma_starts_from_output(
    d: SilkDecoderState,
    c: SilkDecoderControl,
    pulses: Seq<i16>,
    xq: Seq<i16>,
    out: Seq<i16>,
    k: int,
)
    requires
        configured(d),
        d.nb_subfr == 2 || d.nb_subfr == 4,
        d.frame_length <= xq.len(),
        0 <= k < d.nb_subfr,
        is_voiced(d, k),
        k == 0 || (k == 2 && d.indices.nlsf_interp_coef_q2 < 4),
        lag_fits(d, lag_of(d, c.pitch_l@, k)),
        0x1_0000 <= c.gains_q16@[k],
        0 <= c.ltp_scale_q14 <= 16384,
        out == core_run(
            d,
            c,
            frame_excitation(d, pulses),
            core_start(d, xq),
            d.nb_subfr as int,
        ).xq,
    ensures
        ({
            let st = core_run(d, c, frame_excitation(d, pulses), core_start(d, xq), k);
            starts_from_output(
                d,
                c,
                out,
                k,
                lag_of(d, c.pitch_l@, k),
                past_before(d, st, subframe_plan(d, c, k), k),
            )
        }),
{
    reveal(ready_past);
    lemma_core_sizes(d, k);
    let n = d.subfr_length as int;
    let exc = frame_excitation(d, pulses);
    let start = core_start(d, xq);
    let st = core_run(d, c, exc, start, k);
    let p = subframe_plan(d, c, k);
    let big = past_before(d, st, p, k);
    let lag = lag_of(d, c.pitch_l@, k);
    let mem = d.ltp_mem_length as int;
    let order = d.lpc_order as int;
    let idx = mem + k * n;
    let x = output_behind(d, out, k);
    let seen = output_before(d, st, p, k);
    lemma_out_buf(d, c, exc, xq, k);
    lemma_ltp_len(d, c, exc, xq, k);
    lemma_xq_len(d, c, exc, start, k);
    assert forall|i: int| 0 <= i < idx implies #[trigger] seen[i] == x[i] by {
        if k == 2 && i >= mem {
            let at = i - mem;
            let j: int = if at < n {
                0
            } else {
                1
            };
            assert(j * n <= at < j * n + n);
            lemma_run_keeps_output(d, c, exc, start, j, d.nb_subfr as int, at);
            lemma_run_keeps_output(d, c, exc, start, j, 2, at);
        }
    }
    let from = mem - lag - order - 2 + k * n;
    assert forall|i: int| idx - lag - 2 <= i < idx implies #[trigger] is_scaled_residual(
        x,
        i,
        c.pred_coef_q12@[k / 2]@,
        order,
        c.gains_q16@[k] as int,
        scale_of(c, k),
        big[i] as int,
    ) by {
        let z = seen.skip(from);
        let r = residual(z, p.a, i - from, order);
        law_the_residual_is_what_prediction_leaves(z, p.a, i - from, order);
        assert(z[i - from] == seen[i]);
        assert forall|j: int| 1 <= j <= order implies #[trigger] z[i - from - j] == x[i - j] by {
            assert(z[i - from - j] == seen[i - j]);
        }
        lemma_weights_alike(z, i - from, x, i, p.a, order);
        assert(is_residual(x, i, p.a, order, r));
        let s = scale_of(c, k);
        lemma_without(p.gain, s, r, k);
        assert(past_scale(p.gain, p.ltp_scale_q14, k) == past_scale(p.gain, s, k));
        assert(mem - (idx - i) - (mem - lag - order - 2) == i - from);
        assert(big[i] == smulwb(past_scale(p.gain, p.ltp_scale_q14, k), r));
    }
}

proof fn lemma_out_buf(
    d: SilkDecoderState,
    c: SilkDecoderControl,
    exc: Seq<i32>,
    xq: Seq<i16>,
    k: int,
)
    requires
        0 <= k <= 2,
    ensures
        core_run(d, c, exc, core_start(d, xq), k).out_buf == d.out_buf@,
    decreases k,
{
    if k > 0 {
        reveal(core_step);
        lemma_out_buf(d, c, exc, xq, k - 1);
    }
}

/// A voiced subframe goes on with its period: its residual is the excitation with
/// what stood a pitch lag before it added, through the subframe's weights, and the
/// residual filtered and put out at the gain is the frame. Where the prediction is
/// new, the past that is looked back on is what it leaves of the output. A subframe
/// that leads
/// out of a lost voiced frame has that frame's lag and a quarter of its period.
#[verifier::spinoff_prover]
#[verifier::rlimit(80)]
pub proof fn law_a_voiced_subframe_goes_on_with_its_period(
    d: SilkDecoderState,
    c: SilkDecoderControl,
    pulses: Seq<i16>,
    xq: Seq<i16>,
    next: SilkDecoderState,
    next_c: SilkDecoderControl,
    out: Seq<i16>,
    k: int,
)
    requires
        core_result(d, c, pulses, xq, next, next_c, out),
        configured(d),
        d.nb_subfr == 2 || d.nb_subfr == 4,
        control_valid(d, c),
        d.frame_length <= xq.len(),
        0 <= k < d.nb_subfr,
        has_period(d, k),
        next_c.pitch_l@[k] >= 3,
    ensures
        d.indices.signal_type == 2 ==> {
            &&& next_c.pitch_l@[k] == c.pitch_l@[k]
            &&& forall|j: int|
                0 <= j < 5 ==> next_c.ltp_coef_q14@[5 * k + j] == #[trigger] c.ltp_coef_q14@[5 * k
                    + j]
        },
        d.indices.signal_type != 2 ==> {
            &&& next_c.pitch_l@[k] == d.lag_prev
            &&& next_c.ltp_coef_q14@[5 * k] == 0 && next_c.ltp_coef_q14@[5 * k + 1] == 0
            &&& next_c.ltp_coef_q14@[5 * k + 2] == 4096
            &&& next_c.ltp_coef_q14@[5 * k + 3] == 0 && next_c.ltp_coef_q14@[5 * k + 4] == 0
        },
        exists|y: Seq<i32>, past: Seq<i32>, e: Seq<i32>, big: Seq<i32>|
            {
                let n = d.subfr_length as int;
                &&& #[trigger] is_filtered(
                    y,
                    past,
                    e,
                    c.pred_coef_q12@[k / 2]@,
                    d.lpc_order as int,
                )
                &&& e.len() == n
                &&& is_put_out_from(out, k * n, y, c.gains_q16@[k] as int)
                &&& #[trigger] recalls(d, next, next_c, k, big, e)
                &&& (k == 0 || (k == 2 && d.indices.nlsf_interp_coef_q2 < 4)) && 0x1_0000
                    <= c.gains_q16@[k] && 0 <= c.ltp_scale_q14 <= 16384 ==> starts_from_output(
                    d,
                    c,
                    out,
                    k,
                    next_c.pitch_l@[k] as int,
                    big,
                )
            },
{
    reveal(core_result);
    lemma_core_sizes(d, k);
    let n = d.subfr_length as int;
    let exc = frame_excitation(d, pulses);
    let start = core_start(d, xq);
    let st = core_run(d, c, exc, start, k);
    let p = subframe_plan(d, c, k);
    lemma_core_run_sizes(d, c, exc, xq, k);
    lemma_step_lens(d, st, c, exc, k);
    lemma_ltp_len(d, c, exc, xq, k);
    lemma_subframe_is_put_out(d, c, pulses, xq, next, next_c, out, k);
    let past = scaled_history(st.lpc, st.prev_gain, p.gain);
    let e = subframe_residual(d, st, p, exc, k);
    let y = subframe_synthesis(d, st, p, exc, k);
    lemma_subframe_is_filtered(d, st, c, exc, k);
    assert(is_voiced(d, k));
    assert(is_filtered(y, past, e, c.pred_coef_q12@[k / 2]@, d.lpc_order as int));
    let ltp = past_before(d, st, p, k);
    assert(ltp.len() == st.ltp.len()) by {
        reveal(ready_past);
    }
    let idx = d.ltp_mem_length + k * n;
    assert(lag_fits(d, lag_of(d, c.pitch_l@, k)));
    assert(p.lag == next_c.pitch_l@[k]);
    let big = voiced_run(ltp, exc, k * n, idx, p.lag, p.taps, n);
    lemma_voiced_len(ltp, exc, k * n, idx, p.lag, p.taps, n);
    let taps = next_c.ltp_coef_q14@.subrange(5 * k, 5 * k + 5);
    assert forall|j: int| 0 <= j < 5 implies #[trigger] taps[j] == p.taps[j] by {
        assert((5 * k + j) / 5 == k && (5 * k + j) % 5 == j);
        assert(next_c.ltp_coef_q14@[5 * k + j] == taps_of(d, c.ltp_coef_q14@, (5 * k + j) / 5)[(5
            * k + j) % 5]);
    }
    assert(p.taps.len() == 5);
    assert(taps =~= p.taps);
    assert forall|i: int| 0 <= i < n implies is_recalled(
        big,
        idx + i,
        next_c.pitch_l@[k] as int,
        next_c.ltp_coef_q14@.subrange(5 * k, 5 * k + 5),
        next.exc_q14@[k * n + i] as int,
        #[trigger] e[i] as int,
    ) by {
        lemma_recalled(ltp, exc, k * n, idx, p.lag, p.taps, n, i);
    }
    assert(recalls(d, next, next_c, k, big, e));
    if (k == 0 || (k == 2 && d.indices.nlsf_interp_coef_q2 < 4)) && 0x1_0000 <= c.gains_q16@[k] && 0
        <= c.ltp_scale_q14 <= 16384 {
        lemma_starts_from_output(d, c, pulses, xq, out, k);
        lemma_same_start(d, c, out, k, p.lag, ltp, big, idx, exc, k * n, p.taps, n);
    }
    if d.indices.signal_type == 2 {
        assert forall|j: int| 0 <= j < 5 implies next_c.ltp_coef_q14@[5 * k + j]
            == #[trigger] c.ltp_coef_q14@[5 * k + j] by {
            assert(taps[j] == p.taps[j]);
        }
    } else {
        assert(taps[0] == 0 && taps[1] == 0 && taps[2] == 4096 && taps[3] == 0 && taps[4] == 0);
    }
}

proof fn lemma_same_start(
    d: SilkDecoderState,
    c: SilkDecoderControl,
    out: Seq<i16>,
    k: int,
    lag: int,
    ltp: Seq<i32>,
    big: Seq<i32>,
    idx: int,
    exc: Seq<i32>,
    from: int,
    taps: Seq<i16>,
    n: int,
)
    requires
        starts_from_output(d, c, out, k, lag, ltp),
        idx == d.ltp_mem_length + k * d.subfr_length,
        0 <= idx - lag - 2,
        0 <= n,
        idx + n <= ltp.len(),
        big == voiced_run(ltp, exc, from, idx, lag, taps, n),
    ensures
        starts_from_output(d, c, out, k, lag, big),
{
    let x = output_behind(d, out, k);
    assert forall|i: int| idx - lag - 2 <= i < idx implies #[trigger] is_scaled_residual(
        x,
        i,
        c.pred_coef_q12@[k / 2]@,
        d.lpc_order as int,
        c.gains_q16@[k] as int,
        scale_of(c, k),
        big[i] as int,
    ) by {
        lemma_voiced_stays(ltp, exc, from, idx, lag, taps, n, 0, i);
        assert(big[i] == ltp[i]);
        assert(is_scaled_residual(
            x,
            i,
            c.pred_coef_q12@[k / 2]@,
            d.lpc_order as int,
            c.gains_q16@[k] as int,
            scale_of(c, k),
            ltp[i] as int,
        ));
    }
}

/// Whether the residual `e` of subframe `k` goes on with the period in `big`.
pub open spec fn recalls(
    d: SilkDecoderState,
    next: SilkDecoderState,
    c: SilkDecoderControl,
    k: int,
    big: Seq<i32>,
    e: Seq<i32>,
) -> bool {
    let n = d.subfr_length as int;
    &&& big.len() == d.ltp_mem_length + d.frame_length
    &&& forall|i: int|
        0 <= i < n ==> is_recalled(
            big,
            d.ltp_mem_length + k * n + i,
            c.pitch_l@[k] as int,
            c.ltp_coef_q14@.subrange(5 * k, 5 * k + 5),
            next.exc_q14@[k * n + i] as int,
            #[trigger] e[i] as int,
        )
}

proof fn lemma_subframe_is_filtered(
    d: SilkDecoderState,
    st: CoreState,
    c: SilkDecoderControl,
    exc: Seq<i32>,
    k: int,
)
    requires
        configured(d),
        d.nb_subfr == 2 || d.nb_subfr == 4,
        0 <= k < d.nb_subfr,
        st.lpc.len() == 16,
        exc.len() == 320,
    ensures
        ({
            let p = subframe_plan(d, c, k);
            is_filtered(
                subframe_synthesis(d, st, p, exc, k),
                scaled_history(st.lpc, st.prev_gain, p.gain),
                subframe_residual(d, st, p, exc, k),
                p.a,
                d.lpc_order as int,
            )
        }),
{
    lemma_core_sizes(d, k);
    lemma_step_lens(d, st, c, exc, k);
    let n = d.subfr_length as int;
    let p = subframe_plan(d, c, k);
    let past = scaled_history(st.lpc, st.prev_gain, p.gain);
    let e = subframe_residual(d, st, p, exc, k);
    let y = subframe_synthesis(d, st, p, exc, k);
    let b = past + e;
    assert forall|i: int| 0 <= i < 16 implies #[trigger] y[i] == past[i] by {
        lemma_synthesis_elsewhere(b, 16, p.a, d.lpc_order as int, n, i);
    }
    assert forall|i: int| 0 <= i < e.len() implies is_predicted(
        y,
        16 + i,
        #[trigger] e[i] as int,
        p.a,
        d.lpc_order as int,
    ) by {
        law_synthesis_puts_the_prediction_back(b, 16, p.a, d.lpc_order as int, n, i);
        assert(b[16 + i] == e[i]);
    }
}

} // verus!
