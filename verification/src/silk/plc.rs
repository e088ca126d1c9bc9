//! Loss concealment.
//!
//! A lost frame is extrapolated from the last one: its prediction goes on, fed
//! by its excitation in random order, both fading. A good frame refreshes what
//! that needs, and the first good frame behind a loss is brought to the level
//! that concealment left.

use vstd::arithmetic::power2::lemma2_to64;
use vstd::prelude::*;

use crate::silk::decode_core::{lag_fits, long_term};
use crate::silk::decoder_structs::{SilkDecoderControl, SilkDecoderState, SilkPlcState};
use crate::silk::init_decoder::configured;
use crate::silk::macros::{
    clz, div_trunc, larger, lemma_wrap_is_word, low16, lshift, rshift, rshift_round, sat16,
    silk_add32_ovflw, silk_clz32, silk_div32, silk_lshift, silk_max_int, silk_min_int, silk_rand,
    silk_rshift, silk_rshift_round, silk_sat16, silk_smlawb, silk_smulbb, silk_smulwb, silk_smulww,
    silk_trunc16, smaller, smlawb, smulbb, smulwb, smulww, wrap,
};
use crate::silk::sigproc_fix::{
    expanded, inverse32_varq, lemma_energy_has_headroom, lemma_sqrt_bound, residual,
    silk_bwexpander, silk_inverse32_varq, silk_lpc_analysis_filter, silk_sqrt_approx,
    silk_sum_sqr_shift, sqrt_approx, sum_sqr_shift,
};
use crate::silk::synthesis::{
    lpc_synthesis, random_state, scale_sample, scaled_sample, synthesis,
};

verus! {

/// What concealment starts from after a change of rate.
pub open spec fn plc_fresh(d: SilkDecoderState, p: SilkPlcState) -> bool {
    &&& p.pitch_l_q8 == lshift(d.frame_length as int, 7)
    &&& p.prev_gain_q16@ == seq![65536i32, 65536]
    &&& p.subfr_length == 20
    &&& p.nb_subfr == 2
    &&& p == (SilkPlcState {
        pitch_l_q8: p.pitch_l_q8,
        prev_gain_q16: p.prev_gain_q16,
        subfr_length: 20,
        nb_subfr: 2,
        ..d.s_plc
    })
}

/// Start over.
pub fn silk_plc_reset(ps_dec: &mut SilkDecoderState)
    ensures
        plc_fresh(*old(ps_dec), final(ps_dec).s_plc),
        *final(ps_dec) == (SilkDecoderState { s_plc: final(ps_dec).s_plc, ..*old(ps_dec) }),
{
    ps_dec.s_plc.pitch_l_q8 = silk_lshift(ps_dec.frame_length, 7);
    ps_dec.s_plc.prev_gain_q16 = [65536, 65536];
    ps_dec.s_plc.subfr_length = 20;
    ps_dec.s_plc.nb_subfr = 2;
    assert(ps_dec.s_plc.prev_gain_q16@ =~= seq![65536i32, 65536]);
}

/// Whether a state is the one a frame is met with: `d`'s own, or a fresh one
/// where the rate has changed.
pub open spec fn plc_start(d: SilkDecoderState, p: SilkPlcState) -> bool {
    if d.fs_khz != d.s_plc.fs_khz {
        p.fs_khz == d.fs_khz && plc_fresh(
            (SilkDecoderState {
                s_plc: (SilkPlcState { fs_khz: d.fs_khz, ..d.s_plc }),
                ..d
            }),
            p,
        )
    } else {
        p == d.s_plc
    }
}

/// Whether a frame can be concealed from a state.
pub open spec fn plc_usable(d: SilkDecoderState, p: SilkPlcState) -> bool {
    &&& 0 <= p.nb_subfr <= 4
    &&& 0 <= p.subfr_length <= 80
    &&& p.prev_gain_q16@[1] > 0
    &&& 0 <= p.pitch_l_q8 <= 0x1_ffff
    &&& lag_fits(d, rshift_round(p.pitch_l_q8 as int, 8))
}

/// What holds of concealment between frames.
pub open spec fn plc_inv(d: SilkDecoderState) -> bool {
    &&& d.s_plc.fs_khz == d.fs_khz ==> plc_usable(d, d.s_plc)
    &&& 0 <= d.s_plc.conc_energy
    &&& 0 <= d.s_plc.conc_energy_shift <= 17
}

fn plc_begin(ps_dec: &mut SilkDecoderState)
    requires
        configured(*old(ps_dec)),
        old(ps_dec).nb_subfr == 2 || old(ps_dec).nb_subfr == 4,
        plc_inv(*old(ps_dec)),
    ensures
        plc_start(*old(ps_dec), final(ps_dec).s_plc),
        plc_usable(*old(ps_dec), final(ps_dec).s_plc),
        final(ps_dec).s_plc.fs_khz == old(ps_dec).fs_khz,
        plc_inv(*final(ps_dec)),
        *final(ps_dec) == (SilkDecoderState { s_plc: final(ps_dec).s_plc, ..*old(ps_dec) }),
{
    if ps_dec.fs_khz != ps_dec.s_plc.fs_khz {
        let ghost d = *ps_dec;
        ps_dec.s_plc.fs_khz = ps_dec.fs_khz;
        silk_plc_reset(ps_dec);
        proof {
            lemma2_to64();
            let n: int = d.frame_length as int;
            assert(n == d.subfr_length * d.nb_subfr);
            assert(n == 10 * d.fs_khz || n == 20 * d.fs_khz) by (nonlinear_arith)
                requires
                    n == d.subfr_length * d.nb_subfr,
                    d.subfr_length == 5 * d.fs_khz,
                    d.nb_subfr == 2 || d.nb_subfr == 4,
            ;
            lemma_wrap_is_word(n * 128);
        }
    }
}

// ---------------------------------------------------------------------------
// A good frame
// ---------------------------------------------------------------------------
/// The sum of the five taps of subframe `k`.
pub open spec fn tap_sum(taps: Seq<i16>, k: int) -> int {
    taps[5 * k] + taps[5 * k + 1] + taps[5 * k + 2] + taps[5 * k + 3] + taps[5 * k + 4]
}

/// The largest tap sum of the last `j` of `nb` subframes, or nought where none
/// is above it.
pub open spec fn best_gain(taps: Seq<i16>, nb: int, j: int) -> int
    decreases j,
{
    if j <= 0 {
        0
    } else {
        larger(best_gain(taps, nb, j - 1), tap_sum(taps, nb - j))
    }
}

/// The pitch lag of that subframe, Q8; the last known one where there is none.
pub open spec fn best_lag_q8(taps: Seq<i16>, pitch_l: Seq<i32>, nb: int, last: int, j: int) -> int
    decreases j,
{
    if j <= 0 {
        last
    } else if tap_sum(taps, nb - j) > best_gain(taps, nb, j - 1) {
        lshift(pitch_l[nb - j] as int, 8)
    } else {
        best_lag_q8(taps, pitch_l, nb, last, j - 1)
    }
}

/// The subframes, from the last one back, that reach into the last period.
pub open spec fn last_period(pitch: int, subfr: int, nb: int, j: int) -> int
    decreases nb - j,
{
    if j < nb && j * subfr < pitch {
        last_period(pitch, subfr, nb, j + 1)
    } else {
        j
    }
}

/// The single tap that long-term prediction goes on with, Q14: the gain kept
/// between 0.7 and 0.95.
pub open spec fn kept_tap(gain: int) -> int {
    let c = low16(gain);
    if gain < 11469 {
        low16(rshift(smulbb(c, div_trunc(11_744_256, larger(gain, 1))), 10))
    } else if gain > 15565 {
        low16(rshift(smulbb(c, div_trunc(255_016_960, larger(gain, 1))), 14))
    } else {
        c
    }
}

/// What a good frame leaves for concealment.
pub open spec fn plc_refreshed(
    d: SilkDecoderState,
    c: SilkDecoderControl,
    p: SilkPlcState,
    next: SilkPlcState,
) -> bool {
    let nb = d.nb_subfr as int;
    let voiced = d.indices.signal_type == 2;
    let j = last_period(c.pitch_l@[nb - 1] as int, d.subfr_length as int, nb, 0);
    &&& next.pitch_l_q8 == if voiced {
        best_lag_q8(c.ltp_coef_q14@, c.pitch_l@, nb, p.pitch_l_q8 as int, j)
    } else {
        lshift(smulbb(d.fs_khz as int, 18), 8)
    }
    &&& next.ltp_coef_q14@ == if voiced {
        seq![0i16, 0, kept_tap(best_gain(c.ltp_coef_q14@, nb, j)) as i16, 0, 0]
    } else {
        seq![0i16, 0, 0, 0, 0]
    }
    &&& forall|i: int|
        0 <= i < 16 ==> #[trigger] next.prev_lpc_q12@[i] == if i < d.lpc_order {
            c.pred_coef_q12@[1]@[i]
        } else {
            p.prev_lpc_q12@[i]
        }
    &&& next.prev_ltp_scale_q14 == low16(c.ltp_scale_q14 as int)
    &&& next.prev_gain_q16@ == seq![c.gains_q16@[nb - 2], c.gains_q16@[nb - 1]]
    &&& next == (SilkPlcState {
        pitch_l_q8: next.pitch_l_q8,
        ltp_coef_q14: next.ltp_coef_q14,
        prev_lpc_q12: next.prev_lpc_q12,
        prev_ltp_scale_q14: next.prev_ltp_scale_q14,
        prev_gain_q16: next.prev_gain_q16,
        subfr_length: d.subfr_length,
        nb_subfr: d.nb_subfr,
        ..p
    })
}

fn sum_taps(taps: &[i16; 20], k: usize) -> (s: i32)
    requires
        k < 4,
    ensures
        s == tap_sum(taps@, k as int),
        -163840 <= s <= 163835,
{
    let b: usize = 5 * k;
    taps[b] as i32 + taps[b + 1] as i32 + taps[b + 2] as i32 + taps[b + 3] as i32 + taps[b + 4] as i32
}

fn find_best(c: &SilkDecoderControl, subfr: i32, nb: usize, last: i32) -> (r: (i32, i32))
    requires
        2 <= nb <= 4,
        0 <= subfr <= 80,
    ensures
        ({
            let j = last_period(c.pitch_l@[nb - 1] as int, subfr as int, nb as int, 0);
            &&& r.0 == best_gain(c.ltp_coef_q14@, nb as int, j)
            &&& r.1 == best_lag_q8(c.ltp_coef_q14@, c.pitch_l@, nb as int, last as int, j)
            &&& 0 <= j <= nb
        }),
        0 <= r.0 <= 163835,
{
    let pitch: i32 = c.pitch_l[nb - 1];
    let mut gain: i32 = 0;
    let mut lag: i32 = last;
    let mut j: usize = 0;
    let mut reach: i32 = 0;
    while j < nb && reach < pitch
        invariant
            j <= nb,
            2 <= nb <= 4,
            0 <= subfr <= 80,
            reach == j * subfr,
            0 <= reach <= 320,
            pitch == c.pitch_l@[nb - 1],
            0 <= gain <= 163835,
            gain == best_gain(c.ltp_coef_q14@, nb as int, j as int),
            lag == best_lag_q8(c.ltp_coef_q14@, c.pitch_l@, nb as int, last as int, j as int),
            last_period(pitch as int, subfr as int, nb as int, j as int) == last_period(
                pitch as int,
                subfr as int,
                nb as int,
                0,
            ),
        decreases nb - j,
    {
        let k: usize = nb - 1 - j;
        let s: i32 = sum_taps(&c.ltp_coef_q14, k);
        proof {
            let ji: int = j as int;
            let si: int = subfr as int;
            assert((ji + 1) * si == ji * si + si && 0 <= (ji + 1) * si <= 320) by (nonlinear_arith)
                requires
                    0 <= ji < 4,
                    0 <= si <= 80,
            ;
        }
        if s > gain {
            gain = s;
            lag = silk_lshift(c.pitch_l[k], 8);
        }
        j += 1;
        reach = reach + subfr;
    }
    (gain, lag)
}

fn keep_tap(gain: i32) -> (t: i16)
    requires
        0 <= gain <= 163835,
    ensures
        t == kept_tap(gain as int),
{
    let c: i32 = silk_trunc16(gain) as i32;
    if gain < 11469 {
        let scale: i32 = silk_div32(11469 * 1024, silk_max_int(gain, 1));
        silk_trunc16(silk_rshift(silk_smulbb(c, scale), 10))
    } else if gain > 15565 {
        let scale: i32 = silk_div32(15565 * 16384, silk_max_int(gain, 1));
        silk_trunc16(silk_rshift(silk_smulbb(c, scale), 14))
    } else {
        silk_trunc16(gain)
    }
}

proof fn lemma_best_lag(d: SilkDecoderState, c: SilkDecoderControl, last: int, j: int)
    requires
        2 <= d.nb_subfr <= 4,
        0 <= j <= d.nb_subfr,
        configured(d),
        0 <= last <= 0x1_ffff,
        lag_fits(d, rshift_round(last, 8)),
        forall|k: int| 0 <= k < d.nb_subfr ==> lag_fits(d, #[trigger] c.pitch_l@[k] as int),
    ensures
        ({
            let l = best_lag_q8(c.ltp_coef_q14@, c.pitch_l@, d.nb_subfr as int, last, j);
            0 <= l <= 0x1_ffff && lag_fits(d, rshift_round(l, 8))
        }),
    decreases j,
{
    if j > 0 {
        lemma_best_lag(d, c, last, j - 1);
        let nb: int = d.nb_subfr as int;
        let l: int = c.pitch_l@[nb - j] as int;
        assert(lag_fits(d, l));
        lemma2_to64();
        lemma_wrap_is_word(l * 256);
    }
}

fn silk_plc_update(ps_dec: &mut SilkDecoderState, ps_dec_ctrl: &SilkDecoderControl)
    requires
        configured(*old(ps_dec)),
        old(ps_dec).nb_subfr == 2 || old(ps_dec).nb_subfr == 4,
        plc_usable(*old(ps_dec), old(ps_dec).s_plc),
        plc_inv(*old(ps_dec)),
        forall|k: int|
            0 <= k < old(ps_dec).nb_subfr ==> #[trigger] ps_dec_ctrl.gains_q16@[k] > 0,
        old(ps_dec).indices.signal_type == 2 ==> forall|k: int|
            0 <= k < old(ps_dec).nb_subfr ==> lag_fits(
                *old(ps_dec),
                #[trigger] ps_dec_ctrl.pitch_l@[k] as int,
            ),
    ensures
        plc_refreshed(*old(ps_dec), *ps_dec_ctrl, old(ps_dec).s_plc, final(ps_dec).s_plc),
        plc_usable(*old(ps_dec), final(ps_dec).s_plc),
        plc_inv(*final(ps_dec)),
        *final(ps_dec) == (SilkDecoderState {
            s_plc: final(ps_dec).s_plc,
            prev_signal_type: old(ps_dec).indices.signal_type as i32,
            ..*old(ps_dec)
        }),
{
    let ghost d = *ps_dec;
    let nb: usize = ps_dec.nb_subfr as usize;
    let order: usize = ps_dec.lpc_order as usize;
    ps_dec.prev_signal_type = ps_dec.indices.signal_type as i32;
    assert(ps_dec_ctrl.gains_q16@[nb - 1] > 0);
    if ps_dec.indices.signal_type == 2 {
        proof {
            let j = last_period(
                ps_dec_ctrl.pitch_l@[nb - 1] as int,
                d.subfr_length as int,
                nb as int,
                0,
            );
            lemma_last_period(
                ps_dec_ctrl.pitch_l@[nb - 1] as int,
                d.subfr_length as int,
                nb as int,
                0,
            );
            lemma_best_lag(d, *ps_dec_ctrl, d.s_plc.pitch_l_q8 as int, j);
        }
        let (gain, lag) = find_best(ps_dec_ctrl, ps_dec.subfr_length, nb, ps_dec.s_plc.pitch_l_q8);
        let t: i16 = keep_tap(gain);
        ps_dec.s_plc.pitch_l_q8 = lag;
        ps_dec.s_plc.ltp_coef_q14 = [0, 0, t, 0, 0];
        assert(ps_dec.s_plc.ltp_coef_q14@ =~= seq![0i16, 0, t, 0, 0]);
    } else {
        proof {
            lemma2_to64();
            lemma_wrap_is_word(d.fs_khz as int);
            lemma_wrap_is_word(18);
            lemma_wrap_is_word(d.fs_khz * 18 * 256);
        }
        ps_dec.s_plc.pitch_l_q8 = silk_lshift(silk_smulbb(ps_dec.fs_khz, 18), 8);
        ps_dec.s_plc.ltp_coef_q14 = [0, 0, 0, 0, 0];
        assert(ps_dec.s_plc.ltp_coef_q14@ =~= seq![0i16, 0, 0, 0, 0]);
    }
    let mut lpc: [i16; 16] = ps_dec.s_plc.prev_lpc_q12;
    let a: &[i16; 16] = &ps_dec_ctrl.pred_coef_q12[1];
    let mut i: usize = 0;
    while i < order
        invariant
            i <= order <= 16,
            forall|j: int|
                0 <= j < 16 ==> #[trigger] lpc@[j] == if j < i {
                    a@[j]
                } else {
                    d.s_plc.prev_lpc_q12@[j]
                },
        decreases order - i,
    {
        lpc[i] = a[i];
        i += 1;
    }
    ps_dec.s_plc.prev_lpc_q12 = lpc;
    ps_dec.s_plc.prev_ltp_scale_q14 = silk_trunc16(ps_dec_ctrl.ltp_scale_q14);
    ps_dec.s_plc.prev_gain_q16 = [ps_dec_ctrl.gains_q16[nb - 2], ps_dec_ctrl.gains_q16[nb - 1]];
    ps_dec.s_plc.subfr_length = ps_dec.subfr_length;
    ps_dec.s_plc.nb_subfr = ps_dec.nb_subfr;
    assert(ps_dec.s_plc.prev_gain_q16@ =~= seq![
        ps_dec_ctrl.gains_q16@[nb - 2],
        ps_dec_ctrl.gains_q16@[nb - 1],
    ]);
}

proof fn lemma_last_period(pitch: int, subfr: int, nb: int, j: int)
    requires
        0 <= j <= nb,
    ensures
        j <= last_period(pitch, subfr, nb, j) <= nb,
    decreases nb - j,
{
    if j < nb && j * subfr < pitch {
        lemma_last_period(pitch, subfr, nb, j + 1);
    }
}

// ---------------------------------------------------------------------------
// A lost frame
// ---------------------------------------------------------------------------
/// The last gains, Q10.
pub open spec fn last_gain_q10(p: SilkPlcState, k: int) -> int {
    rshift(p.prev_gain_q16@[k] as int, 6)
}

/// One of the last two subframes of excitation at its gain.
pub open spec fn gained_excitation(d: SilkDecoderState, p: SilkPlcState, k: int) -> Seq<i16> {
    let n = d.subfr_length as int;
    Seq::new(
        n as nat,
        |i: int|
            sat16(
                rshift(
                    smulww(
                        d.exc_q14@[i + (k + d.nb_subfr - 2) * n] as int,
                        last_gain_q10(p, k),
                    ),
                    8,
                ),
            ) as i16,
    )
}

/// Where random excitation is drawn from: the end of the last frame, or its last
/// but one subframe where that is the quieter.
pub open spec fn draw_base(d: SilkDecoderState, p: SilkPlcState) -> int {
    let n = d.subfr_length as int;
    let (e1, s1) = sum_sqr_shift(gained_excitation(d, p, 0), n);
    let (e2, s2) = sum_sqr_shift(gained_excitation(d, p, 1), n);
    if rshift(e1, s2 as nat) < rshift(e2, s1 as nat) {
        larger(0, (p.nb_subfr - 1) * p.subfr_length - 128)
    } else {
        larger(0, p.nb_subfr * p.subfr_length - 128)
    }
}

fn gain_excitation(exc: &[i32; 320], from: usize, n: usize, gain_q10: i32) -> (v: Vec<i16>)
    requires
        from + n <= 320,
    ensures
        v@ == Seq::new(
            n as nat,
            |i: int|
                sat16(rshift(smulww(exc@[i + from] as int, gain_q10 as int), 8)) as i16,
        ),
{
    let mut v: Vec<i16> = Vec::with_capacity(n);
    let mut i: usize = 0;
    while i < n
        invariant
            i <= n,
            from + n <= 320,
            v@.len() == i,
            forall|j: int|
                0 <= j < i ==> #[trigger] v@[j] == sat16(
                    rshift(smulww(exc@[j + from] as int, gain_q10 as int), 8),
                ) as i16,
        decreases n - i,
    {
        v.push(silk_sat16(silk_rshift(silk_smulww(exc[from + i], gain_q10), 8)));
        i += 1;
    }
    assert(v@ =~= Seq::new(
        n as nat,
        |i: int| sat16(rshift(smulww(exc@[i + from] as int, gain_q10 as int), 8)) as i16,
    ));
    v
}

fn find_draw_base(d: &SilkDecoderState) -> (b: usize)
    requires
        configured(*d),
        d.nb_subfr == 2 || d.nb_subfr == 4,
        0 <= d.s_plc.nb_subfr <= 4,
        0 <= d.s_plc.subfr_length <= 80,
    ensures
        b == draw_base(*d, d.s_plc),
        b <= 192,
{
    let n: usize = d.subfr_length as usize;
    let nb: usize = d.nb_subfr as usize;
    proof {
        lemma2_to64();
        let ni: int = n as int;
        let nbi: int = nb as int;
        assert((nbi - 2) * ni >= 0 && (nbi - 2) * ni + ni == (nbi - 1) * ni && (nbi - 1) * ni + ni
            == nbi * ni && nbi * ni <= 320 && (0 + nbi - 2) * ni == (nbi - 2) * ni && (1 + nbi - 2)
            * ni == (nbi - 1) * ni) by (nonlinear_arith)
            requires
                2 <= nbi <= 4,
                0 <= ni <= 80,
        ;
    }
    let first: Vec<i16> = gain_excitation(
        &d.exc_q14,
        (nb - 2) * n,
        n,
        silk_rshift(d.s_plc.prev_gain_q16[0], 6),
    );
    let second: Vec<i16> = gain_excitation(
        &d.exc_q14,
        (nb - 1) * n,
        n,
        silk_rshift(d.s_plc.prev_gain_q16[1], 6),
    );
    assert(first@ =~= gained_excitation(*d, d.s_plc, 0));
    assert(second@ =~= gained_excitation(*d, d.s_plc, 1));
    let (e1, s1) = silk_sum_sqr_shift(first.as_slice(), n);
    let (e2, s2) = silk_sum_sqr_shift(second.as_slice(), n);
    proof {
        lemma_energy_has_headroom(first@, n as int);
        lemma_energy_has_headroom(second@, n as int);
        let a: int = d.s_plc.nb_subfr as int;
        let b: int = d.s_plc.subfr_length as int;
        assert(0 <= a * b <= 320 && -80 <= (a - 1) * b <= 320) by (nonlinear_arith)
            requires
                0 <= a <= 4,
                0 <= b <= 80,
        ;
    }
    let base: i32 = if silk_rshift(e1, s2 as u32) < silk_rshift(e2, s1 as u32) {
        silk_max_int(0, (d.s_plc.nb_subfr - 1) * d.s_plc.subfr_length - 128)
    } else {
        silk_max_int(0, d.s_plc.nb_subfr * d.s_plc.subfr_length - 128)
    };
    base as usize
}

/// The prediction a lost frame goes on with, Q12: the last one with its
/// bandwidth expanded, none right after a reset.
pub open spec fn fading_lpc(d: SilkDecoderState, p: SilkPlcState, i: int) -> int {
    let last = if d.first_frame_after_reset != 0 {
        Seq::new(16, |j: int| 0i16)
    } else {
        p.prev_lpc_q12@
    };
    if i < d.lpc_order {
        expanded(last, 64881, i)
    } else {
        last[i] as int
    }
}

/// How fast long-term prediction fades, Q15.
pub open spec fn harm_fade_q15(loss_cnt: int) -> int {
    if loss_cnt <= 0 {
        32440
    } else {
        31130
    }
}

/// How fast random excitation fades, Q15.
pub open spec fn rand_fade_q15(d: SilkDecoderState) -> int {
    if d.prev_signal_type == 2 {
        if d.loss_cnt <= 0 {
            31130
        } else {
            26214
        }
    } else {
        if d.loss_cnt <= 0 {
            32440
        } else {
            29491
        }
    }
}

/// How much random excitation the first subframe gets, Q14: in the first lost
/// frame all that long-term prediction leaves.
pub open spec fn first_rand_scale(d: SilkDecoderState, p: SilkPlcState) -> int {
    if d.loss_cnt != 0 {
        p.rand_scale_q14 as int
    } else if d.prev_signal_type == 2 {
        let b = p.ltp_coef_q14@;
        low16(
            rshift(
                smulbb(
                    larger(16384 - b[0] - b[1] - b[2] - b[3] - b[4], 3277),
                    p.prev_ltp_scale_q14 as int,
                ),
                14,
            ),
        )
    } else {
        16384
    }
}

/// How much of it each further subframe keeps, Q15: in the first lost frame that
/// is not voiced less where the prediction gain is high.
pub open spec fn rand_gain_q15(d: SilkDecoderState, inv_gain_q30: int) -> int {
    if d.loss_cnt == 0 && d.prev_signal_type != 2 {
        let down = larger(0x40_0000, smaller(0x800_0000, inv_gain_q30)) * 8;
        rshift(smulwb(down, rand_fade_q15(d)), 14)
    } else {
        rand_fade_q15(d)
    }
}

/// The excitation of the past that a lost frame begins with, Q14.
#[verifier::opaque]
pub open spec fn faded_past(d: SilkDecoderState, p: SilkPlcState, a: Seq<i16>) -> Seq<i32> {
    let mem = d.ltp_mem_length as int;
    let lag = rshift_round(p.pitch_l_q8 as int, 8);
    let start = mem - lag - d.lpc_order - 2;
    let inv = smaller(inverse32_varq(p.prev_gain_q16@[1] as int, 46), 0x3fff_ffff);
    Seq::new(
        (mem + d.frame_length) as nat,
        |i: int|
            if start + d.lpc_order <= i < mem {
                smulwb(
                    inv,
                    residual(d.out_buf@.skip(start), a, i - start, d.lpc_order as int),
                ) as i32
            } else {
                0
            },
    )
}

/// What fades from subframe to subframe.
#[verifier::ext_equal]
pub struct Fade {
    /// The excitation, Q14.
    pub buf: Seq<i32>,
    /// Long-term taps, Q14.
    pub b: Seq<i16>,
    /// Random excitation, Q14.
    pub rand_scale: int,
    /// Pitch lag, Q8.
    pub pitch_q8: int,
    /// State of the random generator.
    pub seed: int,
}

/// Where in the last excitation a random state draws.
pub open spec fn draw_index(state: int) -> int {
    (rshift(state, 25) + 128) % 128
}

/// The excitation with `n` samples of a subframe behind it.
pub open spec fn faded_run(
    f: Fade,
    exc: Seq<i32>,
    base: int,
    idx: int,
    lag: int,
    n: int,
) -> Seq<i32>
    decreases n,
{
    if n <= 0 {
        f.buf
    } else {
        let buf = faded_run(f, exc, base, idx, lag, n - 1);
        let i = n - 1;
        let drawn = exc[base + draw_index(random_state(f.seed, n))] as int;
        buf.update(
            idx + i,
            lshift(
                smlawb(long_term(buf, idx + i - lag + 2, f.b, 5), drawn, f.rand_scale),
                2,
            ) as i32,
        )
    }
}

/// The state behind subframe `k`.
pub open spec fn fade_step(
    d: SilkDecoderState,
    f: Fade,
    base: int,
    rand_gain: int,
    k: int,
) -> Fade {
    let n = d.subfr_length as int;
    let lag = rshift_round(f.pitch_q8, 8);
    Fade {
        buf: faded_run(f, d.exc_q14@, base, d.ltp_mem_length + k * n, lag, n),
        b: Seq::new(
            5,
            |j: int|
                low16(rshift(smulbb(harm_fade_q15(d.loss_cnt as int), f.b[j] as int), 15)) as i16,
        ),
        rand_scale: low16(rshift(smulbb(f.rand_scale, rand_gain), 15)),
        pitch_q8: smaller(
            smlawb(f.pitch_q8, f.pitch_q8, 655),
            lshift(smulbb(18, d.fs_khz as int), 8),
        ),
        seed: random_state(f.seed, n),
    }
}

/// The state behind the first `k` subframes.
pub open spec fn fade_steps(
    d: SilkDecoderState,
    f: Fade,
    base: int,
    rand_gain: int,
    k: int,
) -> Fade
    decreases k,
{
    if k <= 0 {
        f
    } else {
        fade_step(d, fade_steps(d, f, base, rand_gain, k - 1), base, rand_gain, k - 1)
    }
}

/// The excitation with the history of short-term synthesis put in front of the
/// frame.
pub open spec fn with_lpc_history(d: SilkDecoderState, buf: Seq<i32>) -> Seq<i32> {
    let mem = d.ltp_mem_length as int;
    Seq::new(
        buf.len(),
        |i: int|
            if mem - 16 <= i < mem {
                d.s_lpc_q14_buf@[i - (mem - 16)]
            } else {
                buf[i]
            },
    )
}

/// What a lost frame does: the frame and the state behind it.
#[verifier::opaque]
pub open spec fn concealed(
    d: SilkDecoderState,
    p: SilkPlcState,
    a: Seq<i16>,
    inv_gain_q30: int,
    frame: Seq<i16>,
    next: SilkDecoderState,
    out: Seq<i16>,
    lag: int,
) -> bool {
    let mem = d.ltp_mem_length as int;
    let n = d.frame_length as int;
    let end = fade_steps(
        d,
        Fade {
            buf: faded_past(d, p, a),
            b: p.ltp_coef_q14@,
            rand_scale: first_rand_scale(d, p),
            pitch_q8: p.pitch_l_q8 as int,
            seed: p.rand_seed as int,
        },
        draw_base(d, p),
        rand_gain_q15(d, inv_gain_q30),
        d.nb_subfr as int,
    );
    let y = synthesis(with_lpc_history(d, end.buf), mem, a, d.lpc_order as int, n);
    &&& a.len() == 16
    &&& forall|i: int| 0 <= i < 16 ==> #[trigger] a[i] == fading_lpc(d, p, i)
    &&& out.len() == frame.len()
    &&& forall|i: int|
        0 <= i < frame.len() ==> #[trigger] out[i] == if i < n {
            scaled_sample(y[mem + i] as int, last_gain_q10(p, 1))
        } else {
            frame[i] as int
        }
    &&& next.s_lpc_q14_buf@ == y.subrange(mem + n - 16, mem + n)
    &&& next.s_plc.prev_lpc_q12@ == a
    &&& next.s_plc.ltp_coef_q14@ == end.b
    &&& next.s_plc.rand_scale_q14 == end.rand_scale
    &&& next.s_plc.pitch_l_q8 == end.pitch_q8
    &&& next.s_plc.rand_seed == end.seed
    &&& next.s_plc == (SilkPlcState {
        prev_lpc_q12: next.s_plc.prev_lpc_q12,
        ltp_coef_q14: next.s_plc.ltp_coef_q14,
        rand_scale_q14: next.s_plc.rand_scale_q14,
        pitch_l_q8: next.s_plc.pitch_l_q8,
        rand_seed: next.s_plc.rand_seed,
        ..p
    })
    &&& next == (SilkDecoderState {
        s_lpc_q14_buf: next.s_lpc_q14_buf,
        s_plc: next.s_plc,
        ..d
    })
    &&& lag == rshift_round(end.pitch_q8, 8)
}

fn find_fading_lpc(d: &SilkDecoderState) -> (a: [i16; 16])
    requires
        0 <= d.lpc_order <= 16,
    ensures
        forall|i: int| 0 <= i < 16 ==> #[trigger] a@[i] == fading_lpc(*d, d.s_plc, i),
{
    let last: [i16; 16] = if d.first_frame_after_reset != 0 {
        [0; 16]
    } else {
        d.s_plc.prev_lpc_q12
    };
    assert(last@ =~= if d.first_frame_after_reset != 0 {
        Seq::new(16, |j: int| 0i16)
    } else {
        d.s_plc.prev_lpc_q12@
    });
    silk_bwexpander(&last, d.lpc_order as usize, 64881)
}

fn find_rand_scale(d: &SilkDecoderState) -> (s: i16)
    ensures
        s == first_rand_scale(*d, d.s_plc),
{
    if d.loss_cnt != 0 {
        return d.s_plc.rand_scale_q14;
    }
    if d.prev_signal_type == 2 {
        let b: &[i16; 5] = &d.s_plc.ltp_coef_q14;
        let left: i32 = 16384 - b[0] as i32 - b[1] as i32 - b[2] as i32 - b[3] as i32 - b[4] as i32;
        let rs: i32 = silk_max_int(left, 3277);
        silk_trunc16(silk_rshift(silk_smulbb(rs, d.s_plc.prev_ltp_scale_q14 as i32), 14))
    } else {
        16384
    }
}

fn find_rand_gain(d: &SilkDecoderState, inv_gain_q30: i32) -> (g: i32)
    ensures
        g == rand_gain_q15(*d, inv_gain_q30 as int),
{
    let fade: i32 = if d.prev_signal_type == 2 {
        if d.loss_cnt <= 0 {
            31130
        } else {
            26214
        }
    } else {
        if d.loss_cnt <= 0 {
            32440
        } else {
            29491
        }
    };
    if d.loss_cnt == 0 && d.prev_signal_type != 2 {
        let down: i32 = silk_max_int(0x40_0000, silk_min_int(0x800_0000, inv_gain_q30)) * 8;
        silk_rshift(silk_smulwb(down, fade), 14)
    } else {
        fade
    }
}

fn find_past(d: &SilkDecoderState, a: &[i16; 16]) -> (buf: Vec<i32>)
    requires
        configured(*d),
        0 <= d.frame_length <= 320,
        plc_usable(*d, d.s_plc),
    ensures
        buf@ == faded_past(*d, d.s_plc, a@),
{
    let mem: usize = d.ltp_mem_length as usize;
    let order: usize = d.lpc_order as usize;
    let lag: usize = silk_rshift_round(d.s_plc.pitch_l_q8, 8) as usize;
    let start: usize = mem - lag - order - 2;
    let past: &[i16] = vstd::slice::slice_subrange(
        vstd::array::array_as_slice(&d.out_buf),
        start,
        480,
    );
    assert(past@ =~= d.out_buf@.skip(start as int));
    let filtered: Vec<i16> = silk_lpc_analysis_filter(past, a, mem - start, order);
    let inv: i32 = silk_min_int(silk_inverse32_varq(d.s_plc.prev_gain_q16[1], 46), 0x3fff_ffff);
    let total: usize = mem + d.frame_length as usize;
    let mut buf: Vec<i32> = vec![0i32; total];
    let ghost whole = faded_past(*d, d.s_plc, a@);
    let mut i: usize = start + order;
    proof {
        reveal(faded_past);
    }
    while i < mem
        invariant
            start + order <= i <= mem <= total,
            mem == d.ltp_mem_length,
            order == d.lpc_order,
            start == mem - rshift_round(d.s_plc.pitch_l_q8 as int, 8) - d.lpc_order - 2,
            total == mem + d.frame_length,
            buf@.len() == total,
            filtered@.len() == mem - start,
            inv == smaller(inverse32_varq(d.s_plc.prev_gain_q16@[1] as int, 46), 0x3fff_ffff),
            whole == faded_past(*d, d.s_plc, a@),
            forall|t: int|
                0 <= t < mem - start ==> #[trigger] filtered@[t] == residual(
                    d.out_buf@.skip(start as int),
                    a@,
                    t,
                    order as int,
                ),
            forall|j: int|
                0 <= j < total ==> #[trigger] buf@[j] == if start + order <= j < i {
                    whole[j]
                } else {
                    0
                },
        decreases mem - i,
    {
        reveal(faded_past);
        buf.set(i, silk_smulwb(inv, filtered[i - start] as i32));
        i += 1;
    }
    assert(buf@ =~= whole);
    buf
}

fn apply_five(buf: &Vec<i32>, at: usize, b: &[i16; 5]) -> (r: i32)
    requires
        4 <= at < buf@.len(),
    ensures
        r == long_term(buf@, at as int, b@, 5),
{
    let mut r: i32 = 2;
    let mut j: usize = 0;
    while j < 5
        invariant
            j <= 5,
            4 <= at < buf@.len(),
            r == long_term(buf@, at as int, b@, j as int),
        decreases 5 - j,
    {
        r = silk_smlawb(r, buf[at - j], b[j] as i32);
        j += 1;
    }
    r
}

/// What fades from subframe to subframe.
struct Fading {
    buf: Vec<i32>,
    b: [i16; 5],
    rand_scale: i16,
    pitch_q8: i32,
    seed: i32,
}

impl Fading {
    spec fn fade(&self) -> Fade {
        Fade {
            buf: self.buf@,
            b: self.b@,
            rand_scale: self.rand_scale as int,
            pitch_q8: self.pitch_q8 as int,
            seed: self.seed as int,
        }
    }
}

fn fade_subframe(f: &mut Fading, exc: &[i32; 320], base: usize, idx: usize, lag: usize, n: usize)
    requires
        base <= 192,
        2 <= lag,
        lag + 2 <= idx,
        idx + n <= old(f).buf@.len() <= 1000,
    ensures
        final(f).buf@ == faded_run(
            old(f).fade(),
            exc@,
            base as int,
            idx as int,
            lag as int,
            n as int,
        ),
        final(f).buf@.len() == old(f).buf@.len(),
        final(f).seed == random_state(old(f).seed as int, n as int),
        final(f).b == old(f).b,
        final(f).rand_scale == old(f).rand_scale,
        final(f).pitch_q8 == old(f).pitch_q8,
{
    let ghost start = f.fade();
    let mut i: usize = 0;
    while i < n
        invariant
            i <= n,
            base <= 192,
            2 <= lag,
            lag + 2 <= idx,
            idx + n <= f.buf@.len() <= 1000,
            f.buf@.len() == old(f).buf@.len(),
            start == old(f).fade(),
            f.b == old(f).b,
            f.rand_scale == old(f).rand_scale,
            f.pitch_q8 == old(f).pitch_q8,
            f.seed == random_state(start.seed, i as int),
            f.buf@ == faded_run(start, exc@, base as int, idx as int, lag as int, i as int),
        decreases n - i,
    {
        let p: i32 = apply_five(&f.buf, idx + i - lag + 2, &f.b);
        f.seed = silk_rand(f.seed);
        proof {
            lemma2_to64();
        }
        let at: usize = ((silk_rshift(f.seed, 25) + 128) % 128) as usize;
        let v: i32 = silk_lshift(silk_smlawb(p, exc[base + at], f.rand_scale as i32), 2);
        f.buf.set(idx + i, v);
        i += 1;
    }
}

fn weaken(f: &mut Fading, harm: i32, rand_gain: i32, fs_khz: i32)
    ensures
        final(f).buf == old(f).buf,
        final(f).seed == old(f).seed,
        final(f).b@ == Seq::new(
            5,
            |j: int| low16(rshift(smulbb(harm as int, old(f).b@[j] as int), 15)) as i16,
        ),
        final(f).rand_scale == low16(
            rshift(smulbb(old(f).rand_scale as int, rand_gain as int), 15),
        ),
        final(f).pitch_q8 == smaller(
            smlawb(old(f).pitch_q8 as int, old(f).pitch_q8 as int, 655),
            lshift(smulbb(18, fs_khz as int), 8),
        ),
{
    let ghost before = f.b@;
    let mut b: [i16; 5] = f.b;
    let mut j: usize = 0;
    while j < 5
        invariant
            j <= 5,
            forall|t: int|
                0 <= t < 5 ==> #[trigger] b@[t] == if t < j {
                    low16(rshift(smulbb(harm as int, before[t] as int), 15)) as i16
                } else {
                    before[t]
                },
        decreases 5 - j,
    {
        b[j] = silk_trunc16(silk_rshift(silk_smulbb(harm, b[j] as i32), 15));
        j += 1;
    }
    f.b = b;
    assert(f.b@ =~= Seq::new(
        5,
        |j: int| low16(rshift(smulbb(harm as int, before[j] as int), 15)) as i16,
    ));
    f.rand_scale = silk_trunc16(silk_rshift(silk_smulbb(f.rand_scale as i32, rand_gain), 15));
    f.pitch_q8 = silk_min_int(
        silk_smlawb(f.pitch_q8, f.pitch_q8, 655),
        silk_lshift(silk_smulbb(18, fs_khz), 8),
    );
}

/// A pitch lag that a lost frame can go on with stays one as it drifts.
proof fn lemma_drift(d: SilkDecoderState, pitch: int)
    requires
        configured(d),
        0 <= pitch <= 0x1_ffff,
        lag_fits(d, rshift_round(pitch, 8)),
    ensures
        ({
            let next = smaller(smlawb(pitch, pitch, 655), lshift(smulbb(18, d.fs_khz as int), 8));
            0 <= next <= 0x1_ffff && lag_fits(d, rshift_round(next, 8))
        }),
{
    lemma2_to64();
    lemma_wrap_is_word(655);
    lemma_wrap_is_word(18);
    lemma_wrap_is_word(d.fs_khz as int);
    lemma_wrap_is_word(18 * d.fs_khz * 256);
    lemma_wrap_is_word(pitch + pitch * 655 / 0x1_0000);
    assert(pitch * 655 / 0x1_0000 >= 0);
    let top: int = 18 * d.fs_khz * 256;
    assert(lag_fits(d, 18 * d.fs_khz as int));
    let next = smaller(smlawb(pitch, pitch, 655), top);
    assert(rshift_round(next, 8) == (next + 128) / 256);
    assert(rshift_round(pitch, 8) == (pitch + 128) / 256);
    assert(2 <= (next + 128) / 256 <= 18 * d.fs_khz);
}

#[verifier::rlimit(40)]
fn fade_frame(d: &SilkDecoderState, a: &[i16; 16], inv_gain_q30: i32) -> (f: Fading)
    requires
        configured(*d),
        d.nb_subfr == 2 || d.nb_subfr == 4,
        plc_usable(*d, d.s_plc),
    ensures
        f.fade() == fade_steps(
            *d,
            Fade {
                buf: faded_past(*d, d.s_plc, a@),
                b: d.s_plc.ltp_coef_q14@,
                rand_scale: first_rand_scale(*d, d.s_plc),
                pitch_q8: d.s_plc.pitch_l_q8 as int,
                seed: d.s_plc.rand_seed as int,
            },
            draw_base(*d, d.s_plc),
            rand_gain_q15(*d, inv_gain_q30 as int),
            d.nb_subfr as int,
        ),
        f.buf@.len() == d.ltp_mem_length + d.frame_length,
        0 <= f.pitch_q8 <= 0x1_ffff,
        lag_fits(*d, rshift_round(f.pitch_q8 as int, 8)),
{
    let n: usize = d.subfr_length as usize;
    let nb: usize = d.nb_subfr as usize;
    let mem: usize = d.ltp_mem_length as usize;
    proof {
        let ni: int = n as int;
        let nbi: int = nb as int;
        assert(0 <= ni * nbi <= 320) by (nonlinear_arith)
            requires
                0 <= ni <= 80,
                0 <= nbi <= 4,
        ;
        reveal(faded_past);
    }
    let base: usize = find_draw_base(d);
    let rand_gain: i32 = find_rand_gain(d, inv_gain_q30);
    let harm: i32 = if d.loss_cnt <= 0 {
        32440
    } else {
        31130
    };
    let mut f: Fading = Fading {
        buf: find_past(d, a),
        b: d.s_plc.ltp_coef_q14,
        rand_scale: find_rand_scale(d),
        pitch_q8: d.s_plc.pitch_l_q8,
        seed: d.s_plc.rand_seed,
    };
    let ghost start = f.fade();
    let ghost g = rand_gain_q15(*d, inv_gain_q30 as int);
    let mut k: usize = 0;
    while k < nb
        invariant
            k <= nb == d.nb_subfr,
            nb == 2 || nb == 4,
            configured(*d),
            n == d.subfr_length,
            mem == d.ltp_mem_length,
            base == draw_base(*d, d.s_plc),
            base <= 192,
            rand_gain == g,
            harm == harm_fade_q15(d.loss_cnt as int),
            f.buf@.len() == d.ltp_mem_length + d.frame_length,
            d.frame_length == n * nb,
            f.fade() == fade_steps(*d, start, base as int, g, k as int),
            0 <= f.pitch_q8 <= 0x1_ffff,
            lag_fits(*d, rshift_round(f.pitch_q8 as int, 8)),
        decreases nb - k,
    {
        proof {
            let ni: int = n as int;
            let ki: int = k as int;
            let nbi: int = nb as int;
            assert(0 <= ki * ni && ki * ni + ni <= ni * nbi && ni * nbi <= 320) by (nonlinear_arith)
                requires
                    0 <= ki < nbi <= 4,
                    0 <= ni <= 80,
            ;
            lemma_drift(*d, f.pitch_q8 as int);
        }
        let lag: usize = silk_rshift_round(f.pitch_q8, 8) as usize;
        let ghost before = f.fade();
        fade_subframe(&mut f, &d.exc_q14, base, mem + k * n, lag, n);
        weaken(&mut f, harm, rand_gain, d.fs_khz);
        assert(f.fade() =~= fade_step(*d, before, base as int, g, k as int));
        k += 1;
    }
    f
}

fn silk_plc_conceal(
    ps_dec: &mut SilkDecoderState,
    frame: &mut [i16],
    inv_gain_q30: i32,
) -> (lag: i32)
    requires
        configured(*old(ps_dec)),
        old(ps_dec).nb_subfr == 2 || old(ps_dec).nb_subfr == 4,
        plc_usable(*old(ps_dec), old(ps_dec).s_plc),
        plc_inv(*old(ps_dec)),
        old(ps_dec).frame_length <= old(frame)@.len(),
    ensures
        exists|a: Seq<i16>|
            #[trigger] concealed(
                *old(ps_dec),
                old(ps_dec).s_plc,
                a,
                inv_gain_q30 as int,
                old(frame)@,
                *final(ps_dec),
                final(frame)@,
                lag as int,
            ),
        final(frame)@.len() == old(frame)@.len(),
        plc_usable(*old(ps_dec), final(ps_dec).s_plc),
        plc_inv(*final(ps_dec)),
        final(ps_dec).s_plc.fs_khz == old(ps_dec).s_plc.fs_khz,
        *final(ps_dec) == (SilkDecoderState {
            s_lpc_q14_buf: final(ps_dec).s_lpc_q14_buf,
            s_plc: final(ps_dec).s_plc,
            ..*old(ps_dec)
        }),
        lag_fits(*old(ps_dec), lag as int),
{
    let ghost d = *ps_dec;
    let ghost p = ps_dec.s_plc;
    let ghost before = frame@;
    proof {
        let ni: int = d.subfr_length as int;
        let nbi: int = d.nb_subfr as int;
        assert(0 <= ni * nbi <= 320) by (nonlinear_arith)
            requires
                0 <= ni <= 80,
                0 <= nbi <= 4,
        ;
    }
    let a: [i16; 16] = find_fading_lpc(ps_dec);
    let f: Fading = fade_frame(ps_dec, &a, inv_gain_q30);
    let mem: usize = ps_dec.ltp_mem_length as usize;
    let n: usize = ps_dec.frame_length as usize;
    let order: usize = ps_dec.lpc_order as usize;
    let gain: i32 = silk_rshift(ps_dec.s_plc.prev_gain_q16[1], 6);
    let mut y: Vec<i32> = f.buf;
    let ghost raw = y@;
    let mut i: usize = 0;
    while i < 16
        invariant
            i <= 16,
            16 <= mem == d.ltp_mem_length,
            mem <= 320,
            *ps_dec == d,
            y@.len() == raw.len(),
            mem <= raw.len(),
            forall|j: int|
                0 <= j < raw.len() ==> #[trigger] y@[j] == if mem - 16 <= j < mem - 16 + i {
                    d.s_lpc_q14_buf@[j - (mem - 16)]
                } else {
                    raw[j]
                },
        decreases 16 - i,
    {
        y.set(mem - 16 + i, ps_dec.s_lpc_q14_buf[i]);
        i += 1;
    }
    assert(y@ =~= with_lpc_history(d, raw));
    lpc_synthesis(&mut y, mem, &a, order, n);
    let mut k: usize = 0;
    while k < n
        invariant
            k <= n <= frame@.len(),
            n <= 320,
            mem <= 320,
            y@.len() == mem + n,
            frame@.len() == before.len(),
            forall|j: int|
                0 <= j < frame@.len() ==> #[trigger] frame@[j] == if j < k {
                    scaled_sample(y@[mem + j] as int, gain as int)
                } else {
                    before[j] as int
                },
        decreases n - k,
    {
        frame[k] = scale_sample(y[mem + k], gain);
        k += 1;
    }
    let mut state: [i32; 16] = [0; 16];
    let mut t: usize = 0;
    while t < 16
        invariant
            t <= 16 <= mem <= 320,
            n <= 320,
            y@.len() == mem + n,
            forall|j: int| 0 <= j < t ==> #[trigger] state@[j] == y@[mem + n - 16 + j],
        decreases 16 - t,
    {
        state[t] = y[mem + n - 16 + t];
        t += 1;
    }
    assert(state@ =~= y@.subrange(mem + n - 16, mem + n));
    ps_dec.s_lpc_q14_buf = state;
    ps_dec.s_plc.prev_lpc_q12 = a;
    ps_dec.s_plc.ltp_coef_q14 = f.b;
    ps_dec.s_plc.rand_scale_q14 = f.rand_scale;
    ps_dec.s_plc.pitch_l_q8 = f.pitch_q8;
    ps_dec.s_plc.rand_seed = f.seed;
    let lag: i32 = silk_rshift_round(f.pitch_q8, 8);
    reveal(concealed);
    assert(concealed(d, p, a@, inv_gain_q30 as int, before, *ps_dec, frame@, lag as int));
    lag
}

/// Whether `c` has every pitch lag at `lag` and is `old_c` elsewhere.
pub open spec fn with_lag(old_c: SilkDecoderControl, c: SilkDecoderControl, lag: int) -> bool {
    &&& forall|k: int| 0 <= k < 4 ==> #[trigger] c.pitch_l@[k] == lag
    &&& c == (SilkDecoderControl { pitch_l: c.pitch_l, ..old_c })
}

/// A decoder that has lost `n` frames in a row, else like `d`.
pub open spec fn with_loss_count(d: SilkDecoderState, n: i32) -> SilkDecoderState {
    SilkDecoderState { loss_cnt: n, ..d }
}

/// What a good frame does to concealment.
pub open spec fn good_result(
    d: SilkDecoderState,
    c: SilkDecoderControl,
    next: SilkDecoderState,
) -> bool {
    &&& next == (SilkDecoderState {
        s_plc: next.s_plc,
        prev_signal_type: d.indices.signal_type as i32,
        ..d
    })
    &&& exists|p: SilkPlcState|
        plc_start(d, p) && #[trigger] plc_refreshed(d, c, p, next.s_plc)
}

/// What a lost frame does to concealment, and concealment to it.
pub open spec fn lost_result(
    d: SilkDecoderState,
    inv_gain_q30: int,
    frame: Seq<i16>,
    next: SilkDecoderState,
    out: Seq<i16>,
    lag: int,
) -> bool {
    &&& next.loss_cnt == d.loss_cnt + 1
    &&& exists|p: SilkPlcState, a: Seq<i16>|
        plc_start(d, p) && #[trigger] concealed(
            d,
            p,
            a,
            inv_gain_q30,
            frame,
            with_loss_count(next, d.loss_cnt),
            out,
            lag,
        )
}

/// A good frame refreshes concealment, a lost one is concealed.
///
/// `inv_gain_q30` is the inverse prediction gain of the prediction that a lost
/// frame goes on with; it counts only for the first lost frame behind one that
/// was not voiced.
pub fn silk_plc(
    ps_dec: &mut SilkDecoderState,
    ps_dec_ctrl: &mut SilkDecoderControl,
    frame: &mut [i16],
    lost: i32,
    inv_gain_q30: i32,
)
    requires
        configured(*old(ps_dec)),
        old(ps_dec).nb_subfr == 2 || old(ps_dec).nb_subfr == 4,
        plc_inv(*old(ps_dec)),
        lost != 0 ==> old(ps_dec).frame_length <= old(frame)@.len() && old(ps_dec).loss_cnt
            < i32::MAX,
        lost == 0 ==> {
            &&& forall|k: int|
                0 <= k < old(ps_dec).nb_subfr ==> #[trigger] old(ps_dec_ctrl).gains_q16@[k] > 0
            &&& old(ps_dec).indices.signal_type == 2 ==> forall|k: int|
                0 <= k < old(ps_dec).nb_subfr ==> lag_fits(
                    *old(ps_dec),
                    #[trigger] old(ps_dec_ctrl).pitch_l@[k] as int,
                )
        },
    ensures
        plc_inv(*final(ps_dec)),
        final(frame)@.len() == old(frame)@.len(),
        final(ps_dec).s_plc.fs_khz == final(ps_dec).fs_khz,
        lost == 0 ==> {
            &&& *final(ps_dec_ctrl) == *old(ps_dec_ctrl)
            &&& final(frame)@ == old(frame)@
            &&& good_result(*old(ps_dec), *old(ps_dec_ctrl), *final(ps_dec))
        },
        lost != 0 ==> {
            &&& final(ps_dec).loss_cnt == old(ps_dec).loss_cnt + 1
            &&& with_lag(
                *old(ps_dec_ctrl),
                *final(ps_dec_ctrl),
                final(ps_dec_ctrl).pitch_l@[0] as int,
            )
            &&& lag_fits(*old(ps_dec), final(ps_dec_ctrl).pitch_l@[0] as int)
            &&& lost_result(
                *old(ps_dec),
                inv_gain_q30 as int,
                old(frame)@,
                *final(ps_dec),
                final(frame)@,
                final(ps_dec_ctrl).pitch_l@[0] as int,
            )
            &&& *final(ps_dec) == (SilkDecoderState {
                s_lpc_q14_buf: final(ps_dec).s_lpc_q14_buf,
                s_plc: final(ps_dec).s_plc,
                loss_cnt: final(ps_dec).loss_cnt,
                ..*old(ps_dec)
            })
        },
{
    let ghost d = *ps_dec;
    let ghost c = *ps_dec_ctrl;
    plc_begin(ps_dec);
    let ghost p = ps_dec.s_plc;
    let ghost begun = *ps_dec;
    if lost != 0 {
        let ghost before = frame@;
        let lag: i32 = silk_plc_conceal(ps_dec, frame, inv_gain_q30);
        let ghost a = choose|a: Seq<i16>|
            #[trigger] concealed(
                begun,
                p,
                a,
                inv_gain_q30 as int,
                before,
                *ps_dec,
                frame@,
                lag as int,
            );
        proof {
            lemma_concealed_same(
                d,
                begun,
                p,
                a,
                inv_gain_q30 as int,
                before,
                *ps_dec,
                frame@,
                lag as int,
            );
        }
        let ghost done = *ps_dec;
        ps_dec.loss_cnt = ps_dec.loss_cnt + 1;
        ps_dec_ctrl.pitch_l = [lag, lag, lag, lag];
        assert(with_loss_count(*ps_dec, d.loss_cnt) == done);
        assert(concealed(
            d,
            p,
            a,
            inv_gain_q30 as int,
            before,
            with_loss_count(*ps_dec, d.loss_cnt),
            frame@,
            ps_dec_ctrl.pitch_l@[0] as int,
        ));
    } else {
        silk_plc_update(ps_dec, ps_dec_ctrl);
        assert(plc_refreshed(d, c, p, ps_dec.s_plc));
    }
}

/// Concealment reads of the decoder all but the state it is given.
proof fn lemma_concealed_same(
    d: SilkDecoderState,
    begun: SilkDecoderState,
    p: SilkPlcState,
    a: Seq<i16>,
    inv_gain_q30: int,
    frame: Seq<i16>,
    next: SilkDecoderState,
    out: Seq<i16>,
    lag: int,
)
    requires
        begun == (SilkDecoderState { s_plc: p, ..d }),
        concealed(begun, p, a, inv_gain_q30, frame, next, out, lag),
    ensures
        concealed(d, p, a, inv_gain_q30, frame, next, out, lag),
{
    reveal(faded_past);
    reveal(concealed);
    assert(faded_past(begun, p, a) =~= faded_past(d, p, a));
    assert(gained_excitation(begun, p, 0) =~= gained_excitation(d, p, 0));
    assert(gained_excitation(begun, p, 1) =~= gained_excitation(d, p, 1));
    let start = Fade {
        buf: faded_past(d, p, a),
        b: p.ltp_coef_q14@,
        rand_scale: first_rand_scale(d, p),
        pitch_q8: p.pitch_l_q8 as int,
        seed: p.rand_seed as int,
    };
    let base = draw_base(d, p);
    let g = rand_gain_q15(d, inv_gain_q30);
    lemma_fade_same(d, begun, p, start, base, g, d.nb_subfr as int);
    let end = fade_steps(d, start, base, g, d.nb_subfr as int);
    assert(with_lpc_history(begun, end.buf) =~= with_lpc_history(d, end.buf));
    assert forall|i: int| 0 <= i < 16 implies #[trigger] a[i] == fading_lpc(d, p, i) by {
        assert(a[i] == fading_lpc(begun, p, i));
    }
}

proof fn lemma_fade_same(
    d: SilkDecoderState,
    begun: SilkDecoderState,
    p: SilkPlcState,
    f: Fade,
    base: int,
    g: int,
    k: int,
)
    requires
        begun == (SilkDecoderState { s_plc: p, ..d }),
    ensures
        fade_steps(begun, f, base, g, k) == fade_steps(d, f, base, g, k),
    decreases k,
{
    if k > 0 {
        lemma_fade_same(d, begun, p, f, base, g, k - 1);
        let prior = fade_steps(d, f, base, g, k - 1);
        assert(fade_step(begun, prior, base, g, k - 1) =~= fade_step(d, prior, base, g, k - 1));
    }
}

// ---------------------------------------------------------------------------
// Joining frames
// ---------------------------------------------------------------------------
/// The energies of the concealed frame and of a good one at a common shift.
pub open spec fn common_energies(p: SilkPlcState, frame: Seq<i16>, n: int) -> (int, int) {
    let (e, s) = sum_sqr_shift(frame, n);
    let t = p.conc_energy_shift as int;
    if s > t {
        (rshift(p.conc_energy as int, (s - t) as nat), e)
    } else {
        (p.conc_energy as int, rshift(e, (t - s) as nat))
    }
}

/// The gain at which a louder frame begins, Q16.
pub open spec fn join_gain(conc: int, energy: int) -> int {
    let lz = clz(conc) - 1;
    let e = rshift(energy, larger(24 - lz, 0) as nat);
    lshift(sqrt_approx(div_trunc(lshift(conc, lz as nat), larger(e, 1))), 4)
}

/// How much the gain rises with every sample: four times what would reach one at
/// the end of the frame.
pub open spec fn join_slope(gain: int, n: int) -> int {
    lshift(div_trunc(0x1_0000 - gain, n), 2)
}

/// The gain of sample `i`.
pub open spec fn join_gain_at(gain: int, slope: int, i: int) -> int
    decreases i,
{
    if i <= 0 {
        gain
    } else {
        wrap(join_gain_at(gain, slope, i - 1) + slope)
    }
}

/// Whether no gain behind the first and up to sample `i` has risen above one.
pub open spec fn still_joining(gain: int, slope: int, i: int) -> bool {
    forall|j: int| 1 <= j <= i ==> #[trigger] join_gain_at(gain, slope, j) <= 0x1_0000
}

/// A frame with its beginning brought down to the level of a concealed one.
pub open spec fn joined(p: SilkPlcState, frame: Seq<i16>, n: int, i: int) -> int {
    let (conc, energy) = common_energies(p, frame, n);
    let gain = join_gain(conc, energy);
    let slope = join_slope(gain, n);
    if energy > conc && i < n && still_joining(gain, slope, i) {
        low16(smulwb(join_gain_at(gain, slope, i), frame[i] as int))
    } else {
        frame[i] as int
    }
}

fn fade_in(frame: &mut [i16], n: usize, gain: i32, slope: i32)
    requires
        n <= old(frame)@.len(),
    ensures
        final(frame)@.len() == old(frame)@.len(),
        forall|i: int|
            0 <= i < old(frame)@.len() ==> #[trigger] final(frame)@[i] == if i < n && still_joining(
                gain as int,
                slope as int,
                i,
            ) {
                low16(
                    smulwb(
                        join_gain_at(gain as int, slope as int, i),
                        old(frame)@[i] as int,
                    ),
                )
            } else {
                old(frame)@[i] as int
            },
{
    let ghost before = frame@;
    let mut g: i32 = gain;
    let mut i: usize = 0;
    let mut joining = true;
    while joining && i < n
        invariant
            i <= n <= frame@.len(),
            frame@.len() == before.len(),
            joining ==> g == join_gain_at(gain as int, slope as int, i as int),
            joining ==> still_joining(gain as int, slope as int, i as int),
            !joining ==> forall|j: int| j >= i ==> !#[trigger] still_joining(
                gain as int,
                slope as int,
                j,
            ),
            forall|j: int|
                0 <= j < i ==> #[trigger] still_joining(gain as int, slope as int, j),
            forall|j: int|
                0 <= j < frame@.len() ==> #[trigger] frame@[j] == if j < i {
                    low16(smulwb(join_gain_at(gain as int, slope as int, j), before[j] as int))
                } else {
                    before[j] as int
                },
        decreases n - i + (if joining {
            1int
        } else {
            0
        }),
    {
        frame[i] = silk_trunc16(silk_smulwb(g, frame[i] as i32));
        g = silk_add32_ovflw(g, slope);
        let ghost was = i as int;
        i += 1;
        proof {
            assert(g == join_gain_at(gain as int, slope as int, i as int));
            assert forall|j: int| 0 <= j < i implies #[trigger] still_joining(
                gain as int,
                slope as int,
                j,
            ) by {
                if j == was {
                    assert(still_joining(gain as int, slope as int, was));
                }
            }
        }
        if g > 0x1_0000 {
            joining = false;
            proof {
                assert forall|j: int| j >= i implies !#[trigger] still_joining(
                    gain as int,
                    slope as int,
                    j,
                ) by {
                    assert(join_gain_at(gain as int, slope as int, i as int) > 0x1_0000);
                }
            }
        }
    }
}

/// What joining does to the state and to the frame.
pub open spec fn glue_result(
    d: SilkDecoderState,
    frame: Seq<i16>,
    n: int,
    next: SilkDecoderState,
    out: Seq<i16>,
) -> bool {
    &&& next == (SilkDecoderState { s_plc: next.s_plc, ..d })
    &&& out.len() == frame.len()
    &&& d.loss_cnt != 0 ==> {
        &&& out == frame
        &&& next.s_plc == (SilkPlcState {
            conc_energy: next.s_plc.conc_energy,
            conc_energy_shift: next.s_plc.conc_energy_shift,
            last_frame_lost: 1,
            ..d.s_plc
        })
        &&& next.s_plc.conc_energy == sum_sqr_shift(frame, n).0
        &&& next.s_plc.conc_energy_shift == sum_sqr_shift(frame, n).1
    }
    &&& d.loss_cnt == 0 ==> {
        &&& next.s_plc == (SilkPlcState { last_frame_lost: 0, ..d.s_plc })
        &&& forall|i: int|
            0 <= i < frame.len() ==> #[trigger] out[i] == if d.s_plc.last_frame_lost != 0 {
                joined(d.s_plc, frame, n, i)
            } else {
                frame[i] as int
            }
    }
}

/// Join frames where concealment ends: a lost frame's energy is kept, and where
/// the frame behind it is louder, it is faded in.
pub fn silk_plc_glue_frames(ps_dec: &mut SilkDecoderState, frame: &mut [i16], length: usize)
    requires
        plc_inv(*old(ps_dec)),
        1 <= length <= 0x4000,
        length <= old(frame)@.len(),
    ensures
        plc_inv(*final(ps_dec)),
        final(frame)@.len() == old(frame)@.len(),
        glue_result(
            *old(ps_dec),
            old(frame)@,
            length as int,
            *final(ps_dec),
            final(frame)@,
        ),
{
    proof {
        lemma_energy_has_headroom(frame@, length as int);
        lemma2_to64();
    }
    if ps_dec.loss_cnt != 0 {
        let (e, s) = silk_sum_sqr_shift(frame, length);
        ps_dec.s_plc.conc_energy = e;
        ps_dec.s_plc.conc_energy_shift = s;
        ps_dec.s_plc.last_frame_lost = 1;
    } else {
        if ps_dec.s_plc.last_frame_lost != 0 {
            let (e, s) = silk_sum_sqr_shift(frame, length);
            let t: i32 = ps_dec.s_plc.conc_energy_shift;
            let mut energy: i32 = e;
            let mut conc: i32 = ps_dec.s_plc.conc_energy;
            if s > t {
                conc = silk_rshift(conc, (s - t) as u32);
            } else {
                energy = silk_rshift(energy, (t - s) as u32);
            }
            proof {
                lemma_nonneg_shift(e as int, larger(t - s, 0) as nat);
                lemma_nonneg_shift(ps_dec.s_plc.conc_energy as int, larger(s - t, 0) as nat);
            }
            assert((conc as int, energy as int) == common_energies(
                ps_dec.s_plc,
                frame@,
                length as int,
            ));
            if energy > conc {
                let lz: i32 = silk_clz32(conc) - 1;
                let scaled: i32 = silk_rshift(energy, silk_max_int(24 - lz, 0) as u32);
                let top: i32 = silk_lshift(conc, lz as u32);
                let frac: i32 = silk_div32(top, silk_max_int(scaled, 1));
                let gain: i32 = silk_lshift(silk_sqrt_approx(frac), 4);
                proof {
                    lemma_sqrt_bound(frac as int);
                    lemma_wrap_is_word(sqrt_approx(frac as int) * 16);
                }
                let slope: i32 = silk_lshift(silk_div32(0x1_0000 - gain, length as i32), 2);
                assert(gain == join_gain(conc as int, energy as int));
                assert(slope == join_slope(gain as int, length as int));
                fade_in(frame, length, gain, slope);
            }
        }
        ps_dec.s_plc.last_frame_lost = 0;
    }
}

proof fn lemma_nonneg_shift(x: int, s: nat)
    requires
        x >= 0,
    ensures
        rshift(x, s) >= 0,
        rshift(x, 0) == x,
{
    lemma2_to64();
    vstd::arithmetic::power2::lemma_pow2_pos(s);
    let p: int = vstd::arithmetic::power2::pow2(s) as int;
    assert(x / p >= 0) by (nonlinear_arith)
        requires
            x >= 0,
            p >= 1,
    ;
}

} // verus!
