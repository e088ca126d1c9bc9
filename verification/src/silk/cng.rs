//! Comfort noise.
//!
//! Where frames without voice activity arrive, the noise behind the speech is
//! learned: its spectrum, its gain and its excitation. Where frames are lost,
//! noise of that kind is added to what concealment gives.

use vstd::arithmetic::power2::lemma2_to64;
use vstd::prelude::*;

use crate::silk::decoder_structs::{SilkCngState, SilkDecoderControl, SilkDecoderState};
use crate::silk::macros::{
    larger, lemma_product_bound, lemma_wrap_is_word, low16, lshift, rshift, sat16,
    silk_add32_ovflw, silk_add_sat16, silk_lshift, silk_rand, silk_rshift, silk_smulwb,
    silk_smulww, silk_sub32_ovflw, silk_sub_lshift32, silk_trunc16, smulwb, smulww, wrap,
};
use crate::silk::sigproc_fix::{silk_sqrt_approx, sqrt_approx};
use crate::silk::synthesis::{
    lpc_synthesis, random_state, scale_sample, scaled_sample, synthesis,
};

verus! {

/// Whether frequencies are evenly spread over the band.
pub open spec fn flat_nlsf(nlsf: Seq<i16>, order: int) -> bool {
    forall|i: int| 0 <= i < order ==> #[trigger] nlsf[i] == (i + 1) * (32767int / (order + 1))
}

/// Start over with a flat spectrum, no gain and the first seed.
pub fn silk_cng_reset(ps_dec: &mut SilkDecoderState)
    requires
        0 <= old(ps_dec).lpc_order <= 16,
    ensures
        flat_nlsf(final(ps_dec).s_cng.cng_smth_nlsf_q15@, old(ps_dec).lpc_order as int),
        forall|i: int|
            old(ps_dec).lpc_order <= i < 16
                ==> #[trigger] final(ps_dec).s_cng.cng_smth_nlsf_q15@[i] == old(
                ps_dec,
            ).s_cng.cng_smth_nlsf_q15@[i],
        final(ps_dec).s_cng == (SilkCngState {
            cng_smth_nlsf_q15: final(ps_dec).s_cng.cng_smth_nlsf_q15,
            cng_smth_gain_q16: 0,
            rand_seed: 3176576,
            ..old(ps_dec).s_cng
        }),
        *final(ps_dec) == (SilkDecoderState { s_cng: final(ps_dec).s_cng, ..*old(ps_dec) }),
{
    let order: usize = ps_dec.lpc_order as usize;
    let step: i32 = 32767 / (ps_dec.lpc_order + 1);
    let mut nlsf: [i16; 16] = ps_dec.s_cng.cng_smth_nlsf_q15;
    let mut acc: i32 = 0;
    let mut i: usize = 0;
    proof {
        assert(step * 0 == 0) by (nonlinear_arith);
        let s: int = step as int;
        let o: int = order as int;
        assert(s * o <= 32767) by (nonlinear_arith)
            requires
                s == 32767int / (o + 1),
                o >= 0,
        ;
    }
    while i < order
        invariant
            i <= order <= 16,
            0 <= step,
            step * order <= 32767,
            acc == step * i,
            forall|j: int| 0 <= j < i ==> #[trigger] nlsf@[j] == (j + 1) * step,
            forall|j: int| order <= j < 16 ==> #[trigger] nlsf@[j] == ps_dec.s_cng.cng_smth_nlsf_q15@[j],
        decreases order - i,
    {
        proof {
            let s: int = step as int;
            let k: int = i as int;
            let o: int = order as int;
            assert(s * (k + 1) == s * k + s && s * (k + 1) <= s * o && 0 <= s * k && s * (k + 1) == (
            k + 1) * s) by (nonlinear_arith)
                requires
                    0 <= k < o,
                    s >= 0,
            ;
        }
        acc = acc + step;
        nlsf[i] = acc as i16;
        i += 1;
    }
    ps_dec.s_cng.cng_smth_nlsf_q15 = nlsf;
    ps_dec.s_cng.cng_smth_gain_q16 = 0;
    ps_dec.s_cng.rand_seed = 3176576;
}

/// How the frequencies move towards those of a frame without voice activity.
pub open spec fn smoothed_nlsf(smth: int, prev: int) -> int {
    low16(smth + smulwb(prev - smth, 16348))
}

/// The loudest of the first `n` subframes, the first where there are several.
pub open spec fn loudest(gains: Seq<i32>, n: int) -> int
    decreases n,
{
    if n <= 0 {
        0
    } else {
        let best = loudest(gains, n - 1);
        if gains[n - 1] > loudest_gain(gains, n - 1) {
            n - 1
        } else {
            best
        }
    }
}

/// Its gain, or nought where none is above it.
pub open spec fn loudest_gain(gains: Seq<i32>, n: int) -> int
    decreases n,
{
    if n <= 0 {
        0
    } else {
        larger(loudest_gain(gains, n - 1), gains[n - 1] as int)
    }
}

/// The smoothed gain behind `n` subframes: pulled towards each gain, and down
/// to it where it is well above.
pub open spec fn smoothed_gain(smth: int, gains: Seq<i32>, n: int) -> int
    decreases n,
{
    if n <= 0 {
        smth
    } else {
        let s = smoothed_gain(smth, gains, n - 1);
        let g = gains[n - 1] as int;
        let t = wrap(s + smulwb(wrap(g - s), 4634));
        if smulww(t, 46396) > g {
            g
        } else {
            t
        }
    }
}

/// The excitation of the background with the loudest subframe in front.
pub open spec fn learned_excitation(
    old_buf: Seq<i32>,
    exc: Seq<i32>,
    k: int,
    subfr: int,
    nb: int,
) -> Seq<i32> {
    Seq::new(
        old_buf.len(),
        |i: int|
            if i < subfr {
                exc[k * subfr + i]
            } else if i < nb * subfr {
                old_buf[i - subfr]
            } else {
                old_buf[i]
            },
    )
}

/// The product of two upper halves.
pub open spec fn smultt(a: int, b: int) -> int {
    wrap(rshift(a, 16) * rshift(b, 16))
}

/// The gain of the noise, Q10: what is missing from the concealed signal to the
/// level of the background.
pub open spec fn noise_gain_q10(rand_scale_q14: int, prev_gain_q16: int, smth: int) -> int {
    let g = smulww(rand_scale_q14, prev_gain_q16);
    let q16 = if g >= 0x20_0000 || smth > 0x80_0000 {
        lshift(sqrt_approx(wrap(smultt(smth, smth) - lshift(smultt(g, g), 5))), 16)
    } else {
        lshift(sqrt_approx(wrap(smulww(smth, smth) - lshift(smulww(g, g), 5))), 8)
    };
    rshift(q16, 6)
}

/// The samples of background that noise is drawn from: the largest power of two
/// less one that does not exceed the frame.
pub open spec fn noise_range(mask: int, length: int) -> int
    decreases mask,
{
    if mask <= length || mask <= 0 {
        mask
    } else {
        noise_range(mask / 2, length)
    }
}

/// The place in the background that random state `seed` draws from.
pub open spec fn noise_index(seed: int, mask: int) -> int {
    (rshift(seed, 24) + 256) % (mask + 1)
}

/// The excitation of the noise behind the state of its synthesis.
pub open spec fn noise_excitation(c: SilkCngState, length: int) -> Seq<i32> {
    c.cng_synth_state@ + Seq::new(
        length as nat,
        |i: int|
            c.cng_exc_buf_q14@[noise_index(
                random_state(c.rand_seed as int, i + 1),
                noise_range(255, length),
            )],
    )
}

/// Whether the rate has changed since the noise was learned.
pub open spec fn cng_restarts(d: SilkDecoderState) -> bool {
    d.fs_khz != d.s_cng.fs_khz
}

/// Whether a state is the one that noise is learned into or made from: `d`'s
/// own, or a fresh one where the rate has changed.
pub open spec fn cng_start(d: SilkDecoderState, c: SilkCngState) -> bool {
    if cng_restarts(d) {
        &&& flat_nlsf(c.cng_smth_nlsf_q15@, d.lpc_order as int)
        &&& forall|i: int|
            d.lpc_order <= i < 16 ==> #[trigger] c.cng_smth_nlsf_q15@[i]
                == d.s_cng.cng_smth_nlsf_q15@[i]
        &&& c == (SilkCngState {
            cng_smth_nlsf_q15: c.cng_smth_nlsf_q15,
            cng_smth_gain_q16: 0,
            rand_seed: 3176576,
            fs_khz: d.fs_khz,
            ..d.s_cng
        })
    } else {
        c == d.s_cng
    }
}

/// Whether `next` has learned from a frame what `c` did not know.
pub open spec fn cng_learned(
    d: SilkDecoderState,
    c: SilkCngState,
    gains: Seq<i32>,
    next: SilkCngState,
) -> bool {
    &&& forall|i: int|
        0 <= i < 16 ==> #[trigger] next.cng_smth_nlsf_q15@[i] == if i < d.lpc_order {
            smoothed_nlsf(c.cng_smth_nlsf_q15@[i] as int, d.prev_nlsf_q15@[i] as int)
        } else {
            c.cng_smth_nlsf_q15@[i] as int
        }
    &&& next.cng_exc_buf_q14@ == learned_excitation(
        c.cng_exc_buf_q14@,
        d.exc_q14@,
        loudest(gains, d.nb_subfr as int),
        d.subfr_length as int,
        d.nb_subfr as int,
    )
    &&& next.cng_smth_gain_q16 == smoothed_gain(
        c.cng_smth_gain_q16 as int,
        gains,
        d.nb_subfr as int,
    )
    &&& next.rand_seed == c.rand_seed
    &&& next.fs_khz == c.fs_khz
    &&& next.cng_synth_state == c.cng_synth_state
}

fn cng_begin(ps_dec: &mut SilkDecoderState)
    requires
        0 <= old(ps_dec).lpc_order <= 16,
    ensures
        cng_start(*old(ps_dec), final(ps_dec).s_cng),
        *final(ps_dec) == (SilkDecoderState { s_cng: final(ps_dec).s_cng, ..*old(ps_dec) }),
{
    if ps_dec.fs_khz != ps_dec.s_cng.fs_khz {
        silk_cng_reset(ps_dec);
        ps_dec.s_cng.fs_khz = ps_dec.fs_khz;
    }
}

fn find_loudest(gains: &[i32; 4], nb: usize) -> (k: usize)
    requires
        1 <= nb <= 4,
    ensures
        k == loudest(gains@, nb as int),
        k < nb,
{
    let mut best: i32 = 0;
    let mut k: usize = 0;
    let mut i: usize = 0;
    while i < nb
        invariant
            i <= nb <= 4,
            nb >= 1,
            k < nb,
            k == loudest(gains@, i as int),
            best == loudest_gain(gains@, i as int),
        decreases nb - i,
    {
        if gains[i] > best {
            best = gains[i];
            k = i;
        }
        i += 1;
    }
    k
}

fn learn_gain(smth: i32, gains: &[i32; 4], nb: usize) -> (s: i32)
    requires
        nb <= 4,
    ensures
        s == smoothed_gain(smth as int, gains@, nb as int),
{
    let mut s: i32 = smth;
    let mut i: usize = 0;
    while i < nb
        invariant
            i <= nb <= 4,
            s == smoothed_gain(smth as int, gains@, i as int),
        decreases nb - i,
    {
        let g: i32 = gains[i];
        s = silk_add32_ovflw(s, silk_smulwb(silk_sub32_ovflw(g, s), 4634));
        if silk_smulww(s, 46396) > g {
            s = g;
        }
        i += 1;
    }
    s
}

fn learn_excitation(buf: &[i32; 320], exc: &[i32; 320], k: usize, subfr: usize, nb: usize) -> (r:
    [i32; 320])
    requires
        1 <= nb <= 4,
        k < nb,
        nb * subfr <= 320,
    ensures
        r@ == learned_excitation(buf@, exc@, k as int, subfr as int, nb as int),
{
    let mut r: [i32; 320] = *buf;
    proof {
        let s: int = subfr as int;
        let n: int = nb as int;
        let ki: int = k as int;
        assert(0 <= ki * s && ki * s + s <= n * s && s <= n * s) by (nonlinear_arith)
            requires
                0 <= ki < n,
                s >= 0,
        ;
    }
    let whole: usize = nb * subfr;
    let from: usize = k * subfr;
    let mut i: usize = 0;
    while i < whole
        invariant
            i <= whole <= 320,
            whole == nb * subfr,
            from == k * subfr,
            subfr <= whole,
            from + subfr <= whole,
            forall|j: int|
                0 <= j < 320 ==> #[trigger] r@[j] == if j < i {
                    learned_excitation(buf@, exc@, k as int, subfr as int, nb as int)[j]
                } else {
                    buf@[j]
                },
        decreases whole - i,
    {
        r[i] = if i < subfr {
            exc[from + i]
        } else {
            buf[i - subfr]
        };
        i += 1;
    }
    assert(r@ =~= learned_excitation(buf@, exc@, k as int, subfr as int, nb as int));
    r
}

fn cng_learn(ps_dec: &mut SilkDecoderState, gains: &[i32; 4])
    requires
        0 <= old(ps_dec).lpc_order <= 16,
        1 <= old(ps_dec).nb_subfr <= 4,
        0 <= old(ps_dec).subfr_length,
        old(ps_dec).nb_subfr * old(ps_dec).subfr_length <= 320,
    ensures
        cng_learned(*old(ps_dec), old(ps_dec).s_cng, gains@, final(ps_dec).s_cng),
        *final(ps_dec) == (SilkDecoderState { s_cng: final(ps_dec).s_cng, ..*old(ps_dec) }),
{
    let order: usize = ps_dec.lpc_order as usize;
    let nb: usize = ps_dec.nb_subfr as usize;
    let subfr: usize = ps_dec.subfr_length as usize;
    let mut nlsf: [i16; 16] = ps_dec.s_cng.cng_smth_nlsf_q15;
    let mut i: usize = 0;
    while i < order
        invariant
            i <= order <= 16,
            forall|j: int|
                0 <= j < 16 ==> #[trigger] nlsf@[j] == if j < i {
                    smoothed_nlsf(
                        ps_dec.s_cng.cng_smth_nlsf_q15@[j] as int,
                        ps_dec.prev_nlsf_q15@[j] as int,
                    )
                } else {
                    ps_dec.s_cng.cng_smth_nlsf_q15@[j] as int
                },
        decreases order - i,
    {
        let s: i32 = nlsf[i] as i32;
        let d: i32 = ps_dec.prev_nlsf_q15[i] as i32 - s;
        proof {
            lemma_wrap_is_word(16348);
        }
        nlsf[i] = silk_trunc16(s + silk_smulwb(d, 16348));
        i += 1;
    }
    let k: usize = find_loudest(gains, nb);
    ps_dec.s_cng.cng_smth_nlsf_q15 = nlsf;
    ps_dec.s_cng.cng_exc_buf_q14 = learn_excitation(
        &ps_dec.s_cng.cng_exc_buf_q14,
        &ps_dec.exc_q14,
        k,
        subfr,
        nb,
    );
    ps_dec.s_cng.cng_smth_gain_q16 = learn_gain(ps_dec.s_cng.cng_smth_gain_q16, gains, nb);
}

fn upper_product(a: i32, b: i32) -> (r: i32)
    ensures
        r == smultt(a as int, b as int),
{
    let x: i32 = silk_rshift(a, 16);
    let y: i32 = silk_rshift(b, 16);
    proof {
        lemma2_to64();
        lemma_product_bound(x as int, y as int, 32768, 32768);
        lemma_wrap_is_word(x * y);
    }
    x * y
}

fn find_noise_gain(rand_scale_q14: i16, prev_gain_q16: i32, smth: i32) -> (g: i32)
    ensures
        g == noise_gain_q10(rand_scale_q14 as int, prev_gain_q16 as int, smth as int),
{
    let g: i32 = silk_smulww(rand_scale_q14 as i32, prev_gain_q16);
    let q16: i32 = if g >= 0x20_0000 || smth > 0x80_0000 {
        let d: i32 = silk_sub_lshift32(upper_product(smth, smth), upper_product(g, g), 5);
        silk_lshift(silk_sqrt_approx(d), 16)
    } else {
        let d: i32 = silk_sub_lshift32(silk_smulww(smth, smth), silk_smulww(g, g), 5);
        silk_lshift(silk_sqrt_approx(d), 8)
    };
    silk_rshift(q16, 6)
}

fn find_noise_range(length: usize) -> (m: i32)
    requires
        length >= 1,
        length <= 320,
    ensures
        m == noise_range(255, length as int),
        0 <= m <= 255,
        m == 255 || m == 127 || m == 63 || m == 31 || m == 15 || m == 7 || m == 3 || m == 1,
{
    let mut m: i32 = 255;
    while m > length as i32
        invariant
            1 <= length <= 320,
            noise_range(m as int, length as int) == noise_range(255, length as int),
            m == 255 || m == 127 || m == 63 || m == 31 || m == 15 || m == 7 || m == 3 || m == 1,
        decreases m,
    {
        m = m / 2;
    }
    m
}

fn draw_noise(c: &SilkCngState, length: usize) -> (r: (Vec<i32>, i32))
    requires
        1 <= length <= 320,
    ensures
        r.0@ == noise_excitation(*c, length as int),
        r.1 == random_state(c.rand_seed as int, length as int),
{
    let mask: i32 = find_noise_range(length);
    let mut v: Vec<i32> = Vec::with_capacity(16 + length);
    let mut seed: i32 = c.rand_seed;
    let mut i: usize = 0;
    while i < 16
        invariant
            i <= 16,
            v@ == c.cng_synth_state@.take(i as int),
        decreases 16 - i,
    {
        v.push(c.cng_synth_state[i]);
        i += 1;
        assert(v@ =~= c.cng_synth_state@.take(i as int));
    }
    let ghost whole = noise_excitation(*c, length as int);
    let mut k: usize = 0;
    assert(v@ =~= whole.take(16));
    while k < length
        invariant
            k <= length <= 320,
            mask == noise_range(255, length as int),
            1 <= mask <= 255,
            whole == noise_excitation(*c, length as int),
            v@ == whole.take(16 + k),
            seed == random_state(c.rand_seed as int, k as int),
        decreases length - k,
    {
        seed = silk_rand(seed);
        proof {
            lemma2_to64();
        }
        let at: usize = ((silk_rshift(seed, 24) + 256) % (mask + 1)) as usize;
        v.push(c.cng_exc_buf_q14[at]);
        k += 1;
        assert(v@ =~= whole.take(16 + k));
    }
    assert(v@ =~= whole);
    (v, seed)
}

/// What one frame does to comfort noise, and comfort noise to it.
pub open spec fn cng_result(
    d: SilkDecoderState,
    gains: Seq<i32>,
    a_q12: Seq<i16>,
    length: int,
    frame: Seq<i16>,
    next: SilkDecoderState,
    out: Seq<i16>,
) -> bool {
    &&& next == (SilkDecoderState { s_cng: next.s_cng, ..d })
    &&& out.len() == frame.len()
    &&& exists|c: SilkCngState|
        cng_start(d, c) && #[trigger] cng_frame(
            d,
            c,
            gains,
            a_q12,
            length,
            frame,
            next.s_cng,
            out,
        )
}

/// Comfort noise for one frame: learn the background from a frame without voice
/// activity, and add noise of its kind to a lost one.
///
/// `a_q12` is the short-term prediction of the smoothed frequencies, of a flat
/// spectrum where the rate has changed; it counts only where a frame was lost.
pub fn silk_cng(
    ps_dec: &mut SilkDecoderState,
    ps_dec_ctrl: &SilkDecoderControl,
    frame: &mut [i16],
    length: usize,
    a_q12: &[i16; 16],
)
    requires
        0 <= old(ps_dec).lpc_order <= 16,
        1 <= old(ps_dec).nb_subfr <= 4,
        0 <= old(ps_dec).subfr_length,
        old(ps_dec).nb_subfr * old(ps_dec).subfr_length <= 320,
        1 <= length <= 320,
        length <= old(frame)@.len(),
    ensures
        cng_result(
            *old(ps_dec),
            ps_dec_ctrl.gains_q16@,
            a_q12@,
            length as int,
            old(frame)@,
            *final(ps_dec),
            final(frame)@,
        ),
{
    let ghost start = *ps_dec;
    let ghost before = frame@;
    cng_begin(ps_dec);
    let ghost c = ps_dec.s_cng;
    if ps_dec.loss_cnt == 0 && ps_dec.prev_signal_type == 0 {
        cng_learn(ps_dec, &ps_dec_ctrl.gains_q16);
    }
    let order: usize = ps_dec.lpc_order as usize;
    if ps_dec.loss_cnt != 0 {
        let gain: i32 = find_noise_gain(
            ps_dec.s_plc.rand_scale_q14,
            ps_dec.s_plc.prev_gain_q16[1],
            ps_dec.s_cng.cng_smth_gain_q16,
        );
        let (mut sig, seed) = draw_noise(&ps_dec.s_cng, length);
        lpc_synthesis(&mut sig, 16, a_q12, order, length);
        let mut i: usize = 0;
        while i < length
            invariant
                i <= length <= frame@.len(),
                length <= 320,
                frame@.len() == before.len(),
                sig@.len() == 16 + length,
                forall|j: int|
                    0 <= j < frame@.len() ==> #[trigger] frame@[j] == if j < i {
                        sat16(before[j] + scaled_sample(sig@[16 + j] as int, gain as int))
                    } else {
                        before[j] as int
                    },
            decreases length - i,
        {
            frame[i] = silk_add_sat16(frame[i], scale_sample(sig[16 + i], gain));
            i += 1;
        }
        let mut tail: [i32; 16] = [0; 16];
        let mut j: usize = 0;
        while j < 16
            invariant
                j <= 16,
                length <= 320,
                sig@.len() == 16 + length,
                forall|t: int| 0 <= t < j ==> #[trigger] tail@[t] == sig@[length + t],
            decreases 16 - j,
        {
            tail[j] = sig[length + j];
            j += 1;
        }
        ps_dec.s_cng.rand_seed = seed;
        ps_dec.s_cng.cng_synth_state = tail;
        assert(tail@ =~= sig@.skip(length as int));
    } else {
        let mut state: [i32; 16] = ps_dec.s_cng.cng_synth_state;
        let mut i: usize = 0;
        while i < order
            invariant
                i <= order <= 16,
                forall|j: int|
                    0 <= j < 16 ==> #[trigger] state@[j] == if j < i {
                        0
                    } else {
                        ps_dec.s_cng.cng_synth_state@[j]
                    },
            decreases order - i,
        {
            state[i] = 0;
            i += 1;
        }
        ps_dec.s_cng.cng_synth_state = state;
    }
    assert(cng_start(start, c));
    assert(cng_frame(
        start,
        c,
        ps_dec_ctrl.gains_q16@,
        a_q12@,
        length as int,
        before,
        ps_dec.s_cng,
        frame@,
    ));
}

/// What one frame does to comfort noise in state `c`, and comfort noise to it.
pub open spec fn cng_frame(
    d: SilkDecoderState,
    c: SilkCngState,
    gains: Seq<i32>,
    a_q12: Seq<i16>,
    length: int,
    frame: Seq<i16>,
    next: SilkCngState,
    out: Seq<i16>,
) -> bool {
    if d.loss_cnt != 0 {
        let sig = synthesis(noise_excitation(c, length), 16, a_q12, d.lpc_order as int, length);
        let gain = noise_gain_q10(
            d.s_plc.rand_scale_q14 as int,
            d.s_plc.prev_gain_q16@[1] as int,
            c.cng_smth_gain_q16 as int,
        );
        &&& forall|j: int|
            0 <= j < frame.len() ==> #[trigger] out[j] == if j < length {
                sat16(frame[j] + scaled_sample(sig[16 + j] as int, gain))
            } else {
                frame[j] as int
            }
        &&& next == (SilkCngState {
            rand_seed: next.rand_seed,
            cng_synth_state: next.cng_synth_state,
            ..c
        })
        &&& next.rand_seed == random_state(c.rand_seed as int, length)
        &&& next.cng_synth_state@ == sig.skip(length)
    } else {
        let learned = d.prev_signal_type == 0;
        &&& out == frame
        &&& forall|j: int|
            0 <= j < 16 ==> #[trigger] next.cng_synth_state@[j] == if j < d.lpc_order {
                0
            } else {
                c.cng_synth_state@[j]
            }
        &&& learned ==> cng_learned(
            d,
            c,
            gains,
            (SilkCngState { cng_synth_state: c.cng_synth_state, ..next }),
        )
        &&& !learned ==> next == (SilkCngState { cng_synth_state: next.cng_synth_state, ..c })
    }
}

} // verus!
