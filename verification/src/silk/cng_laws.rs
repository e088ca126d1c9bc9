//! What comfort noise and the joining of frames are for: noise of the
//! background's kind under losses only, and no jump in level behind them.

use vstd::arithmetic::power2::{lemma2_to64, lemma_pow2_adds, lemma_pow2_pos, pow2};
use vstd::prelude::*;

use crate::silk::cng::{
    cng_frame, cng_learned, cng_result, cng_start, loudest, loudest_gain, noise_excitation,
    noise_gain_q10, noise_index, noise_range, smoothed_gain, smoothed_nlsf,
};
use crate::silk::core_laws::is_filtered;
use crate::silk::decoder_structs::{SilkCngState, SilkDecoderState};
use crate::silk::init_decoder::configured;
use crate::silk::macros::{
    clz, div_trunc, lemma_clz_range, lemma_wrap_is_word, lshift, rshift, sat16, smulwb, smulww,
};
use crate::silk::plc::{
    common_energies, glue_result, join_gain, join_gain_at, join_slope, joined, still_joining,
};
use crate::silk::sigproc_fix::{fraction_q7, lemma_sqrt_bound, sqrt_approx};
use crate::silk::sigproc_laws::law_the_root_is_close;
use crate::silk::synthesis::{lemma_synthesis_elsewhere, random_state, scaled_sample, synthesis};
use crate::silk::synthesis_laws::{is_predicted, law_synthesis_puts_the_prediction_back};

verus! {

// ---------------------------------------------------------------------------
// Learning the background
// ---------------------------------------------------------------------------
proof fn lemma_smoothed_nlsf(smth: int, prev: int)
    requires
        -32768 <= smth <= 32767,
        -32768 <= prev <= 32767,
    ensures
        ({
            let s = smoothed_nlsf(smth, prev);
            &&& prev >= smth ==> smth <= s <= prev && 4 * (s - smth) <= prev - smth && 5 * (s
                - smth) >= prev - smth - 5
            &&& prev <= smth ==> prev <= s <= smth && 4 * (smth - s) <= smth - prev + 4 && 5 * (
            smth - s) >= smth - prev - 5
        }),
{
    lemma_wrap_is_word(16348);
    let m = prev - smth;
    let q = m * 16348 / 0x1_0000;
    lemma_wrap_is_word(smth + q);
}

proof fn lemma_smoothed_gain(smth: int, gains: Seq<i32>, n: int, lo: int, hi: int)
    requires
        0 <= lo <= smth <= hi <= 0x7fff_ffff,
        0 <= n <= gains.len(),
        forall|k: int| 0 <= k < n ==> lo <= #[trigger] gains[k] <= hi,
    ensures
        lo <= smoothed_gain(smth, gains, n) <= hi,
    decreases n,
{
    if n > 0 {
        lemma_smoothed_gain(smth, gains, n - 1, lo, hi);
        let s = smoothed_gain(smth, gains, n - 1);
        let g: int = gains[n - 1] as int;
        lemma_wrap_is_word(4634);
        lemma_wrap_is_word(g - s);
        let p = (g - s) * 4634 / 0x1_0000;
        assert(smulwb(g - s, 4634) == p);
        lemma_wrap_is_word(s + p);
    }
}

proof fn lemma_loudest(gains: Seq<i32>, n: int)
    requires
        1 <= n <= gains.len(),
        forall|k: int| 0 <= k < n ==> #[trigger] gains[k] > 0,
    ensures
        0 <= loudest(gains, n) < n,
        gains[loudest(gains, n)] == loudest_gain(gains, n),
        forall|k: int| 0 <= k < n ==> #[trigger] gains[k] <= loudest_gain(gains, n),
    decreases n,
{
    assert(loudest_gain(gains, 0) == 0);
    assert(gains[n - 1] > 0);
    if n > 1 {
        lemma_loudest(gains, n - 1);
    }
}

/// A frame that is there comes through comfort noise as it is. Where it has voice
/// activity nothing is learned from it; where it has none, the background is drawn
/// towards it: each of its frequencies by about a quarter of the way, its level
/// without passing the frame's gains, and the excitation of the frame's loudest
/// subframe comes to the front.
#[verifier::spinoff_prover]
#[verifier::rlimit(40)]
pub proof fn law_noise_is_learned_between_words(
    d: SilkDecoderState,
    gains: Seq<i32>,
    a_q12: Seq<i16>,
    length: int,
    frame: Seq<i16>,
    next: SilkDecoderState,
    out: Seq<i16>,
    lo: int,
    hi: int,
)
    requires
        cng_result(d, gains, a_q12, length, frame, next, out),
        configured(d),
        d.nb_subfr == 2 || d.nb_subfr == 4,
        d.fs_khz == d.s_cng.fs_khz,
        d.loss_cnt == 0,
        gains.len() == 4,
        0 < lo <= hi,
        lo <= d.s_cng.cng_smth_gain_q16 <= hi <= 0x7fff_ffff,
        forall|k: int| 0 <= k < d.nb_subfr ==> lo <= #[trigger] gains[k] <= hi,
    ensures
        out == frame,
        d.prev_signal_type != 0 ==> {
            &&& next.s_cng.cng_smth_nlsf_q15 == d.s_cng.cng_smth_nlsf_q15
            &&& next.s_cng.cng_smth_gain_q16 == d.s_cng.cng_smth_gain_q16
            &&& next.s_cng.cng_exc_buf_q14 == d.s_cng.cng_exc_buf_q14
        },
        d.prev_signal_type == 0 ==> {
            &&& lo <= next.s_cng.cng_smth_gain_q16 <= hi
            &&& forall|i: int|
                0 <= i < d.lpc_order ==> {
                    let from: int = d.s_cng.cng_smth_nlsf_q15@[i] as int;
                    let to: int = d.prev_nlsf_q15@[i] as int;
                    let at: int = #[trigger] next.s_cng.cng_smth_nlsf_q15@[i] as int;
                    &&& to >= from ==> from <= at <= to && 4 * (at - from) <= to - from && 5 * (at
                        - from) >= to - from - 5
                    &&& to <= from ==> to <= at <= from && 4 * (from - at) <= from - to + 4 && 5
                        * (from - at) >= from - to - 5
                }
            &&& exists|k: int|
                {
                    &&& 0 <= k < d.nb_subfr
                    &&& forall|j: int|
                        0 <= j < d.nb_subfr ==> #[trigger] gains[j] <= #[trigger] gains[k]
                    &&& forall|i: int|
                        0 <= i < d.subfr_length ==> #[trigger] next.s_cng.cng_exc_buf_q14@[i]
                            == d.exc_q14@[k * d.subfr_length + i]
                }
        },
{
    let c = choose|c: SilkCngState|
        cng_start(d, c) && #[trigger] cng_frame(
            d,
            c,
            gains,
            a_q12,
            length,
            frame,
            next.s_cng,
            out,
        );
    assert(c == d.s_cng);
    assert(out == frame);
    if d.prev_signal_type == 0 {
        let nb = d.nb_subfr as int;
        let n = d.subfr_length as int;
        let learned = SilkCngState { cng_synth_state: c.cng_synth_state, ..next.s_cng };
        assert(cng_learned(d, c, gains, learned));
        lemma_smoothed_gain(c.cng_smth_gain_q16 as int, gains, nb, lo, hi);
        assert forall|k: int| 0 <= k < nb implies #[trigger] gains[k] > 0 by {}
        lemma_loudest(gains, nb);
        let k = loudest(gains, nb);
        assert(0 <= k * n && k * n + n <= nb * n && n <= nb * n && nb * n <= 320)
            by (nonlinear_arith)
            requires
                0 <= k < nb <= 4,
                0 <= n <= 80,
        ;
        assert forall|i: int| 0 <= i < d.lpc_order implies {
            let from: int = d.s_cng.cng_smth_nlsf_q15@[i] as int;
            let to: int = d.prev_nlsf_q15@[i] as int;
            let at: int = #[trigger] next.s_cng.cng_smth_nlsf_q15@[i] as int;
            &&& to >= from ==> from <= at <= to && 4 * (at - from) <= to - from && 5 * (at - from)
                >= to - from - 5
            &&& to <= from ==> to <= at <= from && 4 * (from - at) <= from - to + 4 && 5 * (from
                - at) >= from - to - 5
        } by {
            assert(learned.cng_smth_nlsf_q15@[i] == next.s_cng.cng_smth_nlsf_q15@[i]);
            lemma_smoothed_nlsf(
                d.s_cng.cng_smth_nlsf_q15@[i] as int,
                d.prev_nlsf_q15@[i] as int,
            );
        }
        assert(gains[k] == loudest_gain(gains, nb));
        assert forall|i: int| 0 <= i < n implies #[trigger] next.s_cng.cng_exc_buf_q14@[i]
            == d.exc_q14@[k * n + i] by {}
    }
}

// ---------------------------------------------------------------------------
// Noise under a loss
// ---------------------------------------------------------------------------
/// Whether the excitation `e` of noise is drawn from the background's.
pub open spec fn is_drawn_from(e: Seq<i32>, background: Seq<i32>) -> bool {
    forall|i: int| 0 <= i < e.len() ==> background.take(256).contains(#[trigger] e[i])
}

/// Noise is added to a lost frame and to nothing behind it: it is drawn from the
/// excitation of the background, filtered by the background's prediction behind the
/// noise so far, and one gain puts all of it out. What was learned of the background
/// stays.
#[verifier::spinoff_prover]
#[verifier::rlimit(60)]
pub proof fn law_noise_is_added_to_losses(
    d: SilkDecoderState,
    gains: Seq<i32>,
    a_q12: Seq<i16>,
    length: int,
    frame: Seq<i16>,
    next: SilkDecoderState,
    out: Seq<i16>,
)
    requires
        cng_result(d, gains, a_q12, length, frame, next, out),
        configured(d),
        d.fs_khz == d.s_cng.fs_khz,
        d.loss_cnt != 0,
        1 <= length <= 320,
        length <= frame.len(),
    ensures
        next.s_cng.cng_smth_nlsf_q15 == d.s_cng.cng_smth_nlsf_q15,
        next.s_cng.cng_smth_gain_q16 == d.s_cng.cng_smth_gain_q16,
        next.s_cng.cng_exc_buf_q14 == d.s_cng.cng_exc_buf_q14,
        forall|i: int| length <= i < frame.len() ==> #[trigger] out[i] == frame[i],
        exists|y: Seq<i32>, e: Seq<i32>, gain_q10: int|
            {
                &&& #[trigger] is_filtered(
                    y,
                    d.s_cng.cng_synth_state@,
                    e,
                    a_q12,
                    d.lpc_order as int,
                )
                &&& e.len() == length
                &&& is_drawn_from(e, d.s_cng.cng_exc_buf_q14@)
                &&& next.s_cng.cng_synth_state@ == y.skip(length)
                &&& #[trigger] is_mixed_in(out, frame, y, gain_q10)
                &&& is_noise_level(
                    d.s_cng.cng_smth_gain_q16 as int,
                    d.s_plc.rand_scale_q14 * d.s_plc.prev_gain_q16@[1] / 0x1_0000,
                    gain_q10,
                )
            },
{
    let c = choose|c: SilkCngState|
        cng_start(d, c) && #[trigger] cng_frame(
            d,
            c,
            gains,
            a_q12,
            length,
            frame,
            next.s_cng,
            out,
        );
    assert(c == d.s_cng);
    let order = d.lpc_order as int;
    let b = noise_excitation(c, length);
    let y = synthesis(b, 16, a_q12, order, length);
    let e = b.skip(16);
    let gain = noise_gain_q10(
        d.s_plc.rand_scale_q14 as int,
        d.s_plc.prev_gain_q16@[1] as int,
        c.cng_smth_gain_q16 as int,
    );
    lemma_synthesis_elsewhere(b, 16, a_q12, order, length, 0);
    assert forall|i: int| 0 <= i < 16 implies #[trigger] y[i] == d.s_cng.cng_synth_state@[i] by {
        lemma_synthesis_elsewhere(b, 16, a_q12, order, length, i);
    }
    assert forall|i: int| 0 <= i < e.len() implies is_predicted(
        y,
        16 + i,
        #[trigger] e[i] as int,
        a_q12,
        order,
    ) by {
        law_synthesis_puts_the_prediction_back(b, 16, a_q12, order, length, i);
        assert(b[16 + i] == e[i]);
    }
    assert(is_filtered(y, d.s_cng.cng_synth_state@, e, a_q12, order));
    lemma_noise_range(255, length);
    assert forall|i: int| 0 <= i < e.len() implies d.s_cng.cng_exc_buf_q14@.take(256).contains(
        #[trigger] e[i],
    ) by {
        let mask = noise_range(255, length);
        let x = noise_index(random_state(c.rand_seed as int, i + 1), mask);
        let v = rshift(random_state(c.rand_seed as int, i + 1), 24) + 256;
        assert(0 <= v % (mask + 1) < mask + 1) by (nonlinear_arith)
            requires
                mask >= 0,
        ;
        assert(d.s_cng.cng_exc_buf_q14@.take(256)[x] == e[i]);
    }
    assert(e.len() == length);
    assert(is_drawn_from(e, d.s_cng.cng_exc_buf_q14@));
    assert(next.s_cng.cng_synth_state@ == y.skip(length));
    assert forall|i: int| 16 <= i < y.len() implies out[i - 16] == sat16(
        frame[i - 16] + scaled_sample(#[trigger] y[i] as int, gain),
    ) by {
        assert(out[i - 16] == out[i - 16]);
        assert(y[16 + (i - 16)] == y[i]);
    }
    assert(is_mixed_in(out, frame, y, gain));
    lemma_noise_level(
        d.s_plc.rand_scale_q14 as int,
        d.s_plc.prev_gain_q16@[1] as int,
        c.cng_smth_gain_q16 as int,
    );
}

/// Whether a gain in Q10 brings noise to the background's level, Q16, beside
/// concealment that has noise of level `own` already: its square is the difference
/// of the squares, to within a tenth; where concealment is loud enough, there is no
/// noise. Of levels close to each other, and of very loud ones, nothing is said.
pub open spec fn is_noise_level(background: int, own: int, gain_q10: int) -> bool {
    let d = background * background / 0x1_0000 - 32 * (own * own / 0x1_0000);
    0 <= background <= 0x80_0000 && 0 <= own <= 0x10_0000 ==> {
        &&& d <= 0 ==> gain_q10 == 0
        &&& d >= 0x1_0000 ==> 16 * (9 * d) <= 10 * (gain_q10 * gain_q10) && 20 * (gain_q10
            * gain_q10) <= 16 * (21 * d)
    }
}

proof fn lemma_noise_level(scale: int, gain: int, smth: int)
    requires
        -32768 <= scale <= 32767,
        -0x8000_0000 <= gain <= 0x7fff_ffff,
    ensures
        is_noise_level(smth, scale * gain / 0x1_0000, noise_gain_q10(scale, gain, smth)),
{
    lemma2_to64();
    let own = scale * gain / 0x1_0000;
    if 0 <= smth <= 0x80_0000 && 0 <= own <= 0x10_0000 {
        lemma_wrap_is_word(own);
        assert(smulww(scale, gain) == own);
        let ss = smth * smth;
        let oo = own * own;
        assert(0 <= ss <= 0x80_0000 * 0x80_0000 && 0 <= oo <= 0x10_0000 * 0x10_0000)
            by (nonlinear_arith)
            requires
                ss == smth * smth,
                oo == own * own,
                0 <= smth <= 0x80_0000,
                0 <= own <= 0x10_0000,
        ;
        let a = ss / 0x1_0000;
        let b = oo / 0x1_0000;
        lemma_wrap_is_word(a);
        lemma_wrap_is_word(b);
        lemma_wrap_is_word(b * 32);
        lemma_wrap_is_word(a - b * 32);
        let d = a - 32 * b;
        assert(smulww(smth, smth) == a && smulww(own, own) == b && lshift(b, 5) == b * 32);
        let y = sqrt_approx(d);
        if d >= 0x1_0000 {
            law_the_root_is_close(d);
            lemma_sqrt_bound(d);
            lemma_wrap_is_word(y * 256);
            assert(rshift(lshift(y, 8), 6) == 4 * y);
            let g = 4 * y;
            assert(g * g == 16 * (y * y)) by (nonlinear_arith)
                requires
                    g == 4 * y,
            ;
        } else if d <= 0 {
            lemma_wrap_is_word(0);
        }
    }
}

/// Whether `out` is `frame` with the signal `y` behind its first 16 samples added at
/// a gain in Q10, as far as 16 bits reach.
pub open spec fn is_mixed_in(
    out: Seq<i16>,
    frame: Seq<i16>,
    y: Seq<i32>,
    gain_q10: int,
) -> bool {
    forall|i: int|
        16 <= i < y.len() ==> out[i - 16] == sat16(
            frame[i - 16] + scaled_sample(#[trigger] y[i] as int, gain_q10),
        )
}

proof fn lemma_noise_range(mask: int, length: int)
    requires
        0 <= mask <= 255,
    ensures
        0 <= noise_range(mask, length) <= 255,
    decreases mask,
{
    if mask > length && mask > 0 {
        lemma_noise_range(mask / 2, length);
    }
}

// ---------------------------------------------------------------------------
// Joining frames
// ---------------------------------------------------------------------------
proof fn lemma_root_of_one(x: int)
    requires
        x <= 0x104_0000,
    ensures
        0 <= sqrt_approx(x) <= 4122,
{
    lemma2_to64();
    if x > 0 {
        let c = clz(x);
        lemma_clz_range(x);
        let p: int = pow2((c / 2) as nat) as int;
        lemma_pow2_pos((c / 2) as nat);
        let top: int = if c % 2 == 1 {
            32768
        } else {
            46214
        };
        let base = top / p;
        let frac = fraction_q7(x);
        assert(0 <= frac <= 127);
        lemma_wrap_is_word(213);
        lemma_wrap_is_word(frac);
        lemma_wrap_is_word(213 * frac);
        if c <= 6 {
            vstd::arithmetic::power2::lemma_pow2_strictly_increases(24, (31 - c) as nat);
            lemma_pow2_adds(1, 24);
            if 31 - c > 25 {
                vstd::arithmetic::power2::lemma_pow2_strictly_increases(25, (31 - c) as nat);
            }
            assert(false);
        }
        if c == 7 {
            assert((c / 2) as nat == 3 && pow2(3) == 8 && top == 32768);
            assert(p == 8);
            assert(base == 4096) by (nonlinear_arith)
                requires
                    base == top / p,
                    top == 32768,
                    p == 8,
            ;
            assert(pow2(17) == 131072);
            assert(frac == x / 131072 % 128);
            assert(128 <= x / 131072 <= 130);
            assert(frac <= 2);
            assert(213 * frac <= 426);
            assert(4096 * (213 * frac) / 0x1_0000 <= 26);
        } else {
            if c / 2 > 4 {
                vstd::arithmetic::power2::lemma_pow2_strictly_increases(4, (c / 2) as nat);
            }
            assert(p >= 16);
            assert(0 <= base <= 2888) by (nonlinear_arith)
                requires
                    base == top / p,
                    0 <= top <= 46214,
                    p >= 16,
            ;
            let t = 213 * frac;
            assert(0 <= base * t <= 2888 * 27051) by (nonlinear_arith)
                requires
                    0 <= base <= 2888,
                    0 <= t <= 27051,
            ;
        }
        lemma_wrap_is_word(base + base * (213 * frac) / 0x1_0000);
    }
}

proof fn lemma_join_gain(conc: int, energy: int)
    requires
        128 <= conc < energy <= 0x7fff_ffff,
    ensures
        0 <= join_gain(conc, energy) <= 65952,
{
    lemma2_to64();
    let h = crate::silk::sigproc_laws::lemma_headroom(conc);
    assert(h == clz(conc) - 1);
    let p: int = pow2(h as nat) as int;
    if h > 23 {
        assert(pow2((31 - h) as nat) <= pow2(7)) by {
            if 31 - h < 7 {
                vstd::arithmetic::power2::lemma_pow2_strictly_increases((31 - h) as nat, 7);
            }
        }
        assert(false);
    }
    let k = 24 - h;
    let t: int = pow2(k as nat) as int;
    lemma_pow2_pos(k as nat);
    lemma_pow2_adds(k as nat, h as nat);
    assert(t * p == 0x100_0000);
    let n = conc * p;
    let e = energy / t;
    assert(rshift(energy, k as nat) == e);
    let rest = energy % t;
    vstd::arithmetic::div_mod::lemma_fundamental_div_mod(energy, t);
    assert(0 <= rest < t) by (nonlinear_arith)
        requires
            rest == energy % t,
            t > 0,
    ;
    // conc < (e + 1) * t.
    assert(conc * p <= (e + 1) * 0x100_0000) by (nonlinear_arith)
        requires
            conc < energy,
            energy == t * e + rest,
            0 <= rest < t,
            t * p == 0x100_0000,
            p > 0,
    ;
    lemma_pow2_adds(6, k as nat);
    assert(energy >= 64 * t);
    assert(e >= 64) by (nonlinear_arith)
        requires
            energy >= 64 * t,
            energy == t * e + rest,
            0 <= rest < t,
    ;
    let q = n / e;
    let left = n % e;
    vstd::arithmetic::div_mod::lemma_fundamental_div_mod(n, e);
    assert(0 <= left < e) by (nonlinear_arith)
        requires
            left == n % e,
            e > 0,
    ;
    assert(q <= 0x104_0000) by (nonlinear_arith)
        requires
            n == e * q + left,
            0 <= left,
            n <= (e + 1) * 0x100_0000,
            e >= 64,
    ;
    lemma_root_of_one(q);
    assert(div_trunc(n, e) == q);
    let y = sqrt_approx(q);
    lemma_wrap_is_word(y * 16);
}

proof fn lemma_joining(gain: int, n: int, i: int)
    requires
        0 <= gain <= 65952,
        1 <= n <= 0x4000,
        0 <= i <= n,
        still_joining(gain, join_slope(gain, n), i),
    ensures
        0 <= join_gain_at(gain, join_slope(gain, n), i) <= 65952,
        join_gain_at(gain, join_slope(gain, n), i) == gain + join_slope(gain, n) * i,
    decreases i,
{
    lemma2_to64();
    let s = join_slope(gain, n);
    let w = 0x1_0000 - gain;
    let q = div_trunc(w, n);
    assert(-416 <= q <= 0x1_0000 && (w >= 0 ==> 0 <= q) && (w < 0 ==> q * n >= w && q <= 0)) by {
        if w >= 0 {
            assert(0 <= w / n <= w) by (nonlinear_arith)
                requires
                    w >= 0,
                    n >= 1,
            ;
        } else {
            let m = -w;
            assert(0 <= m / n <= m && (m / n) * n <= m) by (nonlinear_arith)
                requires
                    m >= 0,
                    n >= 1,
            ;
            assert(q == -(m / n));
            assert((-(m / n)) * n == -((m / n) * n)) by (nonlinear_arith);
        }
    }
    lemma_wrap_is_word(q * 4);
    assert(s == 4 * q);
    if i == 0 {
        assert(s * 0 == 0);
    } else {
        assert(still_joining(gain, s, i - 1)) by {
            assert forall|j: int| 1 <= j <= i - 1 implies #[trigger] join_gain_at(gain, s, j)
                <= 0x1_0000 by {
                assert(join_gain_at(gain, s, j) <= 0x1_0000);
            }
        }
        lemma_joining(gain, n, i - 1);
        let g = join_gain_at(gain, s, i - 1);
        lemma_wrap_is_word(g + s);
        assert(s * i == s * (i - 1) + s) by (nonlinear_arith);
        assert(join_gain_at(gain, s, i) <= 0x1_0000);
        if w < 0 {
            assert(s * i >= 4 * w) by (nonlinear_arith)
                requires
                    s == 4 * q,
                    q * n >= w,
                    q <= 0,
                    0 <= i <= n,
            ;
        } else {
            assert(s * i >= 0) by (nonlinear_arith)
                requires
                    s >= 0,
                    i >= 0,
            ;
        }
    }
}

/// Frames join without a jump. Behind a frame that was there, and while frames are
/// lost, a frame comes out as it is; the first behind a loss is faded in where it is
/// louder than what was concealed: no sample turns its sign or grows by more than a
/// rounding, and nothing changes behind the frame's end. A frame that is no louder
/// comes out as it is too. Of a loss in near silence nothing is said.
#[verifier::spinoff_prover]
#[verifier::rlimit(60)]
pub proof fn law_frames_join_without_a_jump(
    d: SilkDecoderState,
    frame: Seq<i16>,
    n: int,
    next: SilkDecoderState,
    out: Seq<i16>,
    i: int,
)
    requires
        glue_result(d, frame, n, next, out),
        1 <= n <= 0x4000,
        n <= frame.len(),
        0 <= i < frame.len(),
    ensures
        next.s_plc.last_frame_lost == if d.loss_cnt != 0 {
            1int
        } else {
            0
        },
        d.loss_cnt != 0 || d.s_plc.last_frame_lost == 0 || i >= n ==> out[i] == frame[i],
        common_energies(d.s_plc, frame, n).1 <= common_energies(d.s_plc, frame, n).0 ==> out[i]
            == frame[i],
        128 <= common_energies(d.s_plc, frame, n).0 && common_energies(d.s_plc, frame, n).1
            <= 0x7fff_ffff && -32500 <= frame[i] <= 32500 ==> {
            &&& frame[i] >= 0 ==> 0 <= out[i] <= frame[i] + 207
            &&& frame[i] <= 0 ==> frame[i] - 207 <= out[i] <= 0
        },
{
    if d.loss_cnt == 0 && d.s_plc.last_frame_lost != 0 {
        let (conc, energy) = common_energies(d.s_plc, frame, n);
        let gain = join_gain(conc, energy);
        let slope = join_slope(gain, n);
        assert(out[i] == joined(d.s_plc, frame, n, i));
        if energy > conc && i < n && still_joining(gain, slope, i) && 128 <= conc && energy
            <= 0x7fff_ffff {
            lemma_join_gain(conc, energy);
            lemma_joining(gain, n, i);
            let g = join_gain_at(gain, slope, i);
            let f: int = frame[i] as int;
            lemma_wrap_is_word(f);
            assert(smulwb(g, f) == g * f / 0x1_0000);
            if -32500 <= f <= 32500 {
                assert((f >= 0 ==> 0 <= g * f <= 65952 * f) && (f <= 0 ==> 65952 * f <= g * f
                    <= 0)) by (nonlinear_arith)
                    requires
                        0 <= g <= 65952,
                ;
                lemma_wrap_is_word(g * f / 0x1_0000);
            }
        }
    } else {
        assert(out[i] == frame[i]);
    }
}

} // verus!
