//! Adaptive mid/side stereo on the encoder side.
//!
//! Left and right are not coded as such. A mid channel is, and a side channel
//! from which a prediction was taken: two weights, one for a low band and one
//! for a high band of the mid channel, are sent with every frame, and only what
//! they fail to predict is coded. Where they predict well enough, or where the
//! rate has nothing to spare, the side channel is dropped and a flag says so.

use vstd::arithmetic::power2::{
    lemma2_to64, lemma_pow2_pos, lemma_pow2_strictly_increases, pow2,
};
use vstd::prelude::*;

use crate::range_coder::{encoding, with_icdf, CoderView, RangeCoder};
use crate::silk::macros::{
    abs, div_trunc, larger, lemma_product_bound, lemma_wrap_is_word, limit, low16, lshift, rshift,
    rshift_round, sat16, silk_add32_ovflw, silk_add_lshift32, silk_div32, silk_limit, silk_lshift,
    silk_max_int, silk_min_int, silk_rshift, silk_rshift_round, silk_sat16, silk_smlabb,
    silk_smlawb, silk_smulbb, silk_smulwb, silk_sub32_ovflw, silk_sub_lshift32, silk_trunc16,
    smaller, smlabb, smlawb, smulbb, smulwb, wrap,
};
use crate::silk::sigproc_fix::{
    div32_varq, inner_product, lemma_energy_has_headroom, lemma_inner_product_bound,
    lemma_sqrt_bound, silk_div32_varq, silk_inner_prod_aligned_scale, silk_sqrt_approx,
    silk_sum_sqr_shift, sqrt_approx, sum_sqr_shift,
};
use crate::silk::structs::SilkStereoState;
use crate::silk::tables::{
    lemma_stereo_only_code_mid_icdf, lemma_stereo_pred_joint_icdf, lemma_uniform3_icdf,
    lemma_uniform5_icdf, SILK_STEREO_ONLY_CODE_MID_ICDF, SILK_STEREO_PRED_JOINT_ICDF,
    SILK_STEREO_PRED_QUANT_Q13, SILK_UNIFORM3_ICDF, SILK_UNIFORM5_ICDF,
};

verus! {

// ---------------------------------------------------------------------------
// Prediction weights
// ---------------------------------------------------------------------------
/// Step `j` of the five between entries `i` and `i + 1` of the table of
/// weights, Q13.
pub open spec fn pred_level_q13(i: int, j: int) -> int {
    let low = SILK_STEREO_PRED_QUANT_Q13@[i] as int;
    let step = smulwb(SILK_STEREO_PRED_QUANT_Q13@[i + 1] - low, 6554);
    smlabb(low, step, 2 * j + 1)
}

/// Level `k` of all 75, in rising order.
pub open spec fn level_q13(k: int) -> int {
    pred_level_q13(k / 5, k % 5)
}

/// Whether level `k` is the one that stands for `p`: none is nearer, and those
/// before it are farther away.
pub open spec fn is_nearest(p: int, k: int) -> bool {
    &&& 0 <= k < 75
    &&& forall|m: int| 0 <= m < 75 ==> abs(p - level_q13(k)) <= #[trigger] level_error(p, m)
    &&& forall|m: int| 0 <= m < k ==> abs(p - level_q13(k)) < #[trigger] level_error(p, m)
}

/// How far level `m` is from `p`.
pub open spec fn level_error(p: int, m: int) -> int {
    abs(p - level_q13(m))
}

/// The level that stands for `p`.
pub open spec fn nearest_level(p: int) -> int {
    choose|k: int| is_nearest(p, k)
}

/// The three indices of a level: the table entry in two parts, and the step.
pub open spec fn level_indices(k: int) -> Seq<i8> {
    seq![(k / 5 % 3) as i8, (k % 5) as i8, (k / 5 / 3) as i8]
}

proof fn lemma_level(i: int, j: int)
    requires
        0 <= i < 15,
        0 <= j < 5,
    ensures
        ({
            let low = SILK_STEREO_PRED_QUANT_Q13@[i] as int;
            let step = (SILK_STEREO_PRED_QUANT_Q13@[i + 1] - low) * 6554 / 65536;
            &&& pred_level_q13(i, j) == low + step * (2 * j + 1)
            &&& 0 < step < 400
            &&& low + step * 10 <= SILK_STEREO_PRED_QUANT_Q13@[i + 1]
            &&& -13732 <= pred_level_q13(i, j) <= 13732
        }),
{
    let low = SILK_STEREO_PRED_QUANT_Q13@[i] as int;
    let diff = SILK_STEREO_PRED_QUANT_Q13@[i + 1] - low;
    let step = diff * 6554 / 65536;
    assert(0 < diff <= 4100 && -13732 <= low <= 10050);
    assert(0 < step < 400);
    let t: int = 2 * j + 1;
    assert(0 < step * t <= step * 9) by (nonlinear_arith)
        requires
            0 < step,
            1 <= t <= 9,
    ;
    assert(low16(6554) == 6554);
    assert(low16(step) == step && low16(t) == t);
}

proof fn lemma_levels_rise(k: int)
    requires
        0 <= k < 74,
    ensures
        level_q13(k) < level_q13(k + 1),
{
    let i: int = k / 5;
    let j: int = k % 5;
    lemma_level(i, j);
    if j < 4 {
        assert((k + 1) / 5 == i && (k + 1) % 5 == j + 1);
        lemma_level(i, j + 1);
        let low = SILK_STEREO_PRED_QUANT_Q13@[i] as int;
        let step = (SILK_STEREO_PRED_QUANT_Q13@[i + 1] - low) * 6554 / 65536;
        assert(step * (2 * (j + 1) + 1) == step * (2 * j + 1) + 2 * step) by (nonlinear_arith);
    } else {
        assert((k + 1) / 5 == i + 1 && (k + 1) % 5 == 0);
        lemma_level(i + 1, 0);
    }
}

proof fn lemma_levels_ordered(a: int, b: int)
    requires
        0 <= a < b < 75,
    ensures
        level_q13(a) < level_q13(b),
    decreases b - a,
{
    lemma_levels_rise(b - 1);
    if a < b - 1 {
        lemma_levels_ordered(a, b - 1);
    }
}

/// At most one level stands for a weight.
proof fn lemma_nearest_is_unique(p: int, a: int, b: int)
    requires
        is_nearest(p, a),
        is_nearest(p, b),
    ensures
        a == b,
{
    if a < b {
        assert(level_error(p, a) > abs(p - level_q13(b)));
        assert(level_error(p, b) >= abs(p - level_q13(a)));
    } else if b < a {
        assert(level_error(p, b) > abs(p - level_q13(a)));
        assert(level_error(p, a) >= abs(p - level_q13(b)));
    }
}

/// Step `j` of the five between table entries `i` and `i + 1`, in Q13. Encoder
/// and decoder both take their levels from here.
pub fn stereo_pred_level_q13(i: usize, j: i32) -> (l: i32)
    requires
        i < 15,
        0 <= j < 5,
    ensures
        l == pred_level_q13(i as int, j as int),
        -13732 <= l <= 13732,
{
    proof {
        lemma_level(i as int, j as int);
    }
    let low: i32 = SILK_STEREO_PRED_QUANT_Q13[i] as i32;
    let step: i32 = silk_smulwb(SILK_STEREO_PRED_QUANT_Q13[i + 1] as i32 - low, 6554);
    silk_smlabb(low, step, 2 * j + 1)
}

/// The distance to level `k` first falls and then rises, so that the first rise
/// marks the nearest.
proof fn lemma_first_rise(p: int, k: int)
    requires
        0 <= k < 75,
        forall|m: int| 0 <= m < k ==> level_error(p, k) < #[trigger] level_error(p, m),
        k == 74 || level_error(p, k + 1) >= level_error(p, k),
    ensures
        is_nearest(p, k),
{
    assert forall|m: int| 0 <= m < 75 implies level_error(p, k) <= #[trigger] level_error(
        p,
        m,
    ) by {
        if m > k {
            if m > k + 1 {
                lemma_levels_ordered(k + 1, m);
            }
            lemma_levels_ordered(k, k + 1);
        }
    }
}

fn quantize_weight(p: i32) -> (r: (i32, [i8; 3]))
    requires
        -0x7fff_0000 <= p <= 0x7fff_0000,
    ensures
        is_nearest(p as int, nearest_level(p as int)),
        r.0 == level_q13(nearest_level(p as int)),
        r.1@ == level_indices(nearest_level(p as int)),
        -13732 <= r.0 <= 13732,
{
    let mut k: i32 = 0;
    let mut level: i32 = stereo_pred_level_q13(0, 0);
    let mut err: i32 = if p > level {
        p - level
    } else {
        level - p
    };
    let mut rising = false;
    while !rising && k < 74
        invariant
            0 <= k <= 74,
            -0x7fff_0000 <= p <= 0x7fff_0000,
            level == level_q13(k as int),
            -13732 <= level <= 13732,
            err == level_error(p as int, k as int),
            forall|m: int|
                0 <= m < k ==> level_error(p as int, k as int) < #[trigger] level_error(
                    p as int,
                    m,
                ),
            rising ==> k < 74 && level_error(p as int, k + 1) >= level_error(p as int, k as int),
        decreases 75 - k - (if rising {
            1int
        } else {
            0
        }),
    {
        let next: i32 = stereo_pred_level_q13(((k + 1) / 5) as usize, (k + 1) % 5);
        let e: i32 = if p > next {
            p - next
        } else {
            next - p
        };
        assert(e == level_error(p as int, k + 1));
        if e < err {
            k += 1;
            level = next;
            err = e;
        } else {
            rising = true;
        }
    }
    proof {
        lemma_first_rise(p as int, k as int);
        lemma_nearest_is_unique(p as int, k as int, nearest_level(p as int));
    }
    (level, [(k / 5 % 3) as i8, (k % 5) as i8, (k / 5 / 3) as i8])
}

/// Quantize the two weights and give the indices they are sent as. The second
/// is taken from the first, the form in which both are applied.
pub fn silk_stereo_quant_pred(pred_q13: &mut [i32; 2], ix: &mut [[i8; 3]; 2])
    requires
        -0x7fff_0000 <= old(pred_q13)@[0] <= 0x7fff_0000,
        -0x7fff_0000 <= old(pred_q13)@[1] <= 0x7fff_0000,
    ensures
        forall|n: int|
            0 <= n < 2 ==> {
                let k = nearest_level(old(pred_q13)@[n] as int);
                &&& is_nearest(old(pred_q13)@[n] as int, k)
                &&& (#[trigger] final(ix)@[n])@ == level_indices(k)
            },
        final(pred_q13)@[1] == level_q13(nearest_level(old(pred_q13)@[1] as int)),
        final(pred_q13)@[0] == level_q13(nearest_level(old(pred_q13)@[0] as int))
            - final(pred_q13)@[1],
        -13732 <= final(pred_q13)@[1] <= 13732,
        -27464 <= final(pred_q13)@[0] <= 27464,
{
    let (first, first_ix) = quantize_weight(pred_q13[0]);
    let (second, second_ix) = quantize_weight(pred_q13[1]);
    *ix = [first_ix, second_ix];
    *pred_q13 = [first - second, second];
}

// ---------------------------------------------------------------------------
// Mid and side
// ---------------------------------------------------------------------------
/// Half the sum of two channels, the two samples of history in front.
pub open spec fn mid_signal(x1: Seq<i16>, x2: Seq<i16>, past: Seq<i16>, n: int) -> Seq<i16> {
    Seq::new(
        n as nat,
        |i: int|
            if i < 2 {
                past[i]
            } else {
                rshift_round(x1[i] + x2[i], 1) as i16
            },
    )
}

/// Half the difference of two channels, the two samples of history in front.
pub open spec fn side_signal(x1: Seq<i16>, x2: Seq<i16>, past: Seq<i16>, n: int) -> Seq<i16> {
    Seq::new(
        n as nat,
        |i: int|
            if i < 2 {
                past[i]
            } else {
                sat16(rshift_round(x1[i] - x2[i], 1)) as i16
            },
    )
}

/// Mid and side give both channels back: a sample of either comes back within one
/// of what it was.
pub proof fn law_mid_and_side_give_back_the_channels(
    x1: Seq<i16>,
    x2: Seq<i16>,
    past_mid: Seq<i16>,
    past_side: Seq<i16>,
    n: int,
    i: int,
)
    requires
        2 <= i < n,
        n <= x1.len(),
        n <= x2.len(),
    ensures
        ({
            let m = mid_signal(x1, x2, past_mid, n)[i];
            let s = side_signal(x1, x2, past_side, n)[i];
            &&& x1[i] - 1 <= sat16(m + s) <= x1[i] + 1
            &&& x2[i] - 1 <= sat16(m - s) <= x2[i] + 1
        }),
{
    lemma2_to64();
}

fn mid_and_side(x1: &[i16], x2: &[i16], s_mid: &[i16; 2], s_side: &[i16; 2], n: usize) -> (r: (
    Vec<i16>,
    Vec<i16>,
))
    requires
        2 <= n <= x1@.len(),
        n <= x2@.len(),
    ensures
        r.0@ == mid_signal(x1@, x2@, s_mid@, n as int),
        r.1@ == side_signal(x1@, x2@, s_side@, n as int),
{
    let mut mid: Vec<i16> = Vec::with_capacity(n);
    let mut side: Vec<i16> = Vec::with_capacity(n);
    let mut i: usize = 0;
    while i < n
        invariant
            i <= n <= x1@.len(),
            n <= x2@.len(),
            mid@ == mid_signal(x1@, x2@, s_mid@, i as int),
            side@ == side_signal(x1@, x2@, s_side@, i as int),
        decreases n - i,
    {
        proof {
            lemma2_to64();
        }
        if i < 2 {
            mid.push(s_mid[i]);
            side.push(s_side[i]);
        } else {
            let sum: i32 = x1[i] as i32 + x2[i] as i32;
            let diff: i32 = x1[i] as i32 - x2[i] as i32;
            mid.push(silk_rshift_round(sum, 1) as i16);
            side.push(silk_sat16(silk_rshift_round(diff, 1)));
        }
        i += 1;
        assert(mid@ =~= mid_signal(x1@, x2@, s_mid@, i as int));
        assert(side@ =~= side_signal(x1@, x2@, s_side@, i as int));
    }
    (mid, side)
}

/// Three neighbouring samples weighted 1, 2, 1.
pub open spec fn smoothed(x: Seq<i16>, i: int) -> int {
    wrap(x[i] + x[i + 2] + lshift(x[i + 1] as int, 1))
}

/// The low band of a signal.
pub open spec fn low_band(x: Seq<i16>, n: int) -> Seq<i16> {
    Seq::new(n as nat, |i: int| rshift_round(smoothed(x, i), 2) as i16)
}

/// What the low band leaves of a signal.
pub open spec fn high_band(x: Seq<i16>, n: int) -> Seq<i16> {
    Seq::new(n as nat, |i: int| low16(x[i + 1] - rshift_round(smoothed(x, i), 2)) as i16)
}

fn smooth(x: &Vec<i16>, i: usize) -> (s: i32)
    requires
        i + 2 < x@.len(),
    ensures
        s == smoothed(x@, i as int),
        -131072 <= s <= 131068,
{
    proof {
        lemma2_to64();
    }
    let n: usize = x.len();
    assert(i + 2 < n);
    silk_add_lshift32(x[i] as i32 + x[i + 2] as i32, x[i + 1] as i32, 1)
}

fn bands(x: &Vec<i16>, n: usize) -> (r: (Vec<i16>, Vec<i16>))
    requires
        n + 2 <= x@.len(),
    ensures
        r.0@ == low_band(x@, n as int),
        r.1@ == high_band(x@, n as int),
{
    let mut low: Vec<i16> = Vec::with_capacity(n);
    let mut high: Vec<i16> = Vec::with_capacity(n);
    let mut i: usize = 0;
    while i < n
        invariant
            i <= n,
            n + 2 <= x@.len(),
            low@ == low_band(x@, i as int),
            high@ == high_band(x@, i as int),
        decreases n - i,
    {
        proof {
            lemma2_to64();
        }
        let sum: i32 = silk_rshift_round(smooth(x, i), 2);
        low.push(sum as i16);
        high.push(silk_trunc16(x[i + 1] as i32 - sum));
        i += 1;
        assert(low@ =~= low_band(x@, i as int));
        assert(high@ =~= high_band(x@, i as int));
    }
    (low, high)
}

// ---------------------------------------------------------------------------
// Fitting the weights
// ---------------------------------------------------------------------------
/// A prediction of one band: the weight in Q13, the norms of the band and of
/// what is left, smoothed over the frames, and their ratio in Q14.
pub struct Fit {
    pub pred_q13: int,
    pub ratio_q14: int,
    pub mid_amp: int,
    pub res_amp: int,
}

/// The shift at which the energies of two bands are compared: the larger of
/// their own, made even so that half of it fits their norms.
pub open spec fn common_scale(x: Seq<i16>, y: Seq<i16>, n: int) -> int {
    let s = larger(sum_sqr_shift(x, n).1, sum_sqr_shift(y, n).1);
    s + s % 2
}

/// A norm moved towards a new value.
pub open spec fn followed(amp: int, nrg: int, scale: int, coef: int) -> int {
    smlawb(amp, wrap(lshift(sqrt_approx(nrg), (scale / 2) as nat) - amp), coef)
}

/// The least-squares weight that predicts `y` from `x`, with the norms followed
/// at least as fast as `coef` says, and faster where the weight is large.
pub open spec fn fit(
    x: Seq<i16>,
    y: Seq<i16>,
    mid_amp: int,
    res_amp: int,
    n: int,
    coef: int,
) -> Fit {
    let scale = common_scale(x, y, n);
    let (ex, sx) = sum_sqr_shift(x, n);
    let (ey, sy) = sum_sqr_shift(y, n);
    let nrgx = larger(rshift(ex, (scale - sx) as nat), 1);
    let nrgy = rshift(ey, (scale - sy) as nat);
    let corr = inner_product(x, y, n, scale as nat);
    let pred = limit(div32_varq(corr, nrgx, 13), -16384, 16384);
    let pred2 = smulwb(pred, pred);
    let rate = larger(coef, abs(pred2));
    let left = wrap(
        wrap(nrgy - lshift(smulwb(corr, pred), 4)) + lshift(smulwb(nrgx, pred2), 6),
    );
    let mid = followed(mid_amp, nrgx, scale, rate);
    let res = followed(res_amp, left, scale, rate);
    Fit {
        pred_q13: pred,
        ratio_q14: limit(div32_varq(res, larger(mid, 1), 14), 0, 32767),
        mid_amp: mid,
        res_amp: res,
    }
}

proof fn lemma_followed(amp: int, nrg: int, scale: int, coef: int)
    requires
        0 <= amp <= 0x7fff_ffff,
        nrg <= 0x7fff_ffff,
        0 <= scale <= 20,
        0 <= coef < 32768,
    ensures
        0 <= followed(amp, nrg, scale, coef) <= 0x7fff_ffff,
        lshift(sqrt_approx(nrg), (scale / 2) as nat) == sqrt_approx(nrg) * pow2(
            (scale / 2) as nat,
        ),
{
    lemma2_to64();
    lemma_sqrt_bound(nrg);
    let h: nat = (scale / 2) as nat;
    lemma_pow2_pos(h);
    if h < 10 {
        lemma_pow2_strictly_increases(h, 10);
    }
    let r: int = sqrt_approx(nrg);
    let p: int = pow2(h) as int;
    assert(0 <= r * p <= 0xffff * 1024) by (nonlinear_arith)
        requires
            0 <= r <= 0xffff,
            1 <= p <= 1024,
    ;
    lemma_wrap_is_word(r * p);
    let target: int = r * p;
    let d: int = target - amp;
    lemma_wrap_is_word(d);
    lemma_wrap_is_word(coef);
    if d >= 0 {
        assert(0 <= d * coef <= d * 0x1_0000) by (nonlinear_arith)
            requires
                d >= 0,
                0 <= coef < 32768,
        ;
    } else {
        assert(d * 0x1_0000 <= d * coef <= 0) by (nonlinear_arith)
            requires
                d < 0,
                0 <= coef < 32768,
        ;
    }
    lemma_wrap_is_word(amp + d * coef / 0x1_0000);
}

/// The state of one band, and what was found of it.
struct BandFit {
    pred_q13: i32,
    ratio_q14: i32,
    mid_amp: i32,
    res_amp: i32,
}

fn silk_stereo_find_predictor(
    x: &Vec<i16>,
    y: &Vec<i16>,
    mid_amp: i32,
    res_amp: i32,
    length: usize,
    smooth_coef_q16: i32,
) -> (r: BandFit)
    requires
        1 <= length <= 0x4000,
        length <= x@.len(),
        length <= y@.len(),
        mid_amp >= 0,
        res_amp >= 0,
        0 <= smooth_coef_q16 < 32768,
    ensures
        ({
            let f = fit(
                x@,
                y@,
                mid_amp as int,
                res_amp as int,
                length as int,
                smooth_coef_q16 as int,
            );
            &&& r.pred_q13 == f.pred_q13
            &&& r.ratio_q14 == f.ratio_q14
            &&& r.mid_amp == f.mid_amp
            &&& r.res_amp == f.res_amp
        }),
        -16384 <= r.pred_q13 <= 16384,
        0 <= r.ratio_q14 <= 32767,
        r.mid_amp >= 0,
        r.res_amp >= 0,
{
    let (ex, sx) = silk_sum_sqr_shift(x.as_slice(), length);
    let (ey, sy) = silk_sum_sqr_shift(y.as_slice(), length);
    proof {
        lemma_energy_has_headroom(x@, length as int);
        lemma_energy_has_headroom(y@, length as int);
    }
    let mut scale: i32 = silk_max_int(sx, sy);
    scale = scale + scale % 2;
    let ghost big: int = scale as int;
    let nrgy: i32 = silk_rshift(ey, (scale - sy) as u32);
    let nrgx: i32 = silk_max_int(silk_rshift(ex, (scale - sx) as u32), 1);
    let corr: i32 = silk_inner_prod_aligned_scale(
        x.as_slice(),
        y.as_slice(),
        scale as u32,
        length,
    );
    proof {
        lemma_pow2_up(sx as nat, big as nat);
        lemma_pow2_up(sy as nat, big as nat);
        lemma_inner_product_bound(x@, y@, length as int, length as int, big as nat);
        lemma_shrinks(ex as int, (big - sx) as nat);
        lemma_shrinks(ey as int, (big - sy) as nat);
    }
    let pred: i32 = silk_limit(silk_div32_varq(corr, nrgx, 13), -16384, 16384);
    let pred2: i32 = silk_smulwb(pred, pred);
    proof {
        lemma_wrap_is_word(pred as int);
        let pi: int = pred as int;
        assert(0 <= pi * pi <= 16384 * 16384) by (nonlinear_arith)
            requires
                -16384 <= pi <= 16384,
        ;
    }
    let rate: i32 = silk_max_int(smooth_coef_q16, pred2);
    let half: u32 = (scale / 2) as u32;
    let mid: i32 = silk_smlawb(
        mid_amp,
        silk_sub32_ovflw(silk_lshift(silk_sqrt_approx(nrgx), half), mid_amp),
        rate,
    );
    let mut left: i32 = silk_sub_lshift32(nrgy, silk_smulwb(corr, pred), 4);
    left = silk_add_lshift32(left, silk_smulwb(nrgx, pred2), 6);
    let res: i32 = silk_smlawb(
        res_amp,
        silk_sub32_ovflw(silk_lshift(silk_sqrt_approx(left), half), res_amp),
        rate,
    );
    proof {
        lemma_followed(mid_amp as int, nrgx as int, big, rate as int);
        lemma_followed(res_amp as int, left as int, big, rate as int);
    }
    let ratio: i32 = silk_limit(silk_div32_varq(res, silk_max_int(mid, 1), 14), 0, 32767);
    BandFit { pred_q13: pred, ratio_q14: ratio, mid_amp: mid, res_amp: res }
}

proof fn lemma_pow2_up(a: nat, b: nat)
    requires
        a <= b,
    ensures
        pow2(a) <= pow2(b),
{
    if a < b {
        lemma_pow2_strictly_increases(a, b);
    }
}

proof fn lemma_shrinks(x: int, s: nat)
    requires
        x >= 0,
    ensures
        0 <= rshift(x, s) <= x,
{
    lemma_pow2_pos(s);
    let p: int = pow2(s) as int;
    assert(0 <= x / p <= x) by (nonlinear_arith)
        requires
            x >= 0,
            p >= 1,
    ;
}

// ---------------------------------------------------------------------------
// Deciding what to send
// ---------------------------------------------------------------------------
/// What becomes of a frame's stereo image.
#[derive(Clone, Copy, Debug, PartialEq, Eq)]
pub enum StereoMode {
    /// The stream turns mono behind this frame: the image collapses.
    ToMono,
    /// The image was already without width: the weights alone carry it.
    Drop,
    /// The image is about to lose its width.
    Taper,
    /// The image is sent at full width.
    Wide,
    /// The image is sent at the smoothed width.
    Narrow,
}

/// The least rate of the mid channel.
pub open spec fn min_mid_rate(fs_khz: int) -> int {
    smlabb(2000, fs_khz, 600)
}

/// A frame's rate for both channels, and the width that this leaves the image,
/// Q14.
pub struct Split {
    pub mid: int,
    pub side: int,
    pub width_q14: int,
}

/// Eight parts of the rate go to the mid channel for every five and three times
/// `frac` that go to the side channel. Below its least rate the mid channel
/// does not go; the image narrows until the side channel fits what is left.
pub open spec fn split_rate(total: int, frac_q16: int, fs_khz: int) -> Split {
    let least = min_mid_rate(fs_khz);
    let mid = div32_varq(total, 13 * 65536 + 3 * frac_q16, 19);
    if mid < least {
        let side = total - least;
        Split {
            mid: least,
            side,
            width_q14: limit(
                div32_varq(
                    lshift(side, 1) - least,
                    smulwb(65536 + 3 * frac_q16, least),
                    16,
                ),
                0,
                16384,
            ),
        }
    } else {
        Split { mid, side: total - mid, width_q14: 16384 }
    }
}

/// Whether the side channel is not worth its rate.
pub open spec fn side_is_poor(
    total: int,
    frac_q16: int,
    smth_q14: int,
    fs_khz: int,
    parts: int,
    floor: int,
) -> bool {
    8 * total < parts * min_mid_rate(fs_khz) || smulwb(frac_q16, smth_q14) < floor
}

/// What becomes of the image, by the width of the last frame, what the weights
/// leave unpredicted, the rate and the smoothed width.
pub open spec fn stereo_mode(
    to_mono: bool,
    width_prev_q14: int,
    total: int,
    frac_q16: int,
    smth_q14: int,
    fs_khz: int,
) -> StereoMode {
    if to_mono {
        StereoMode::ToMono
    } else if width_prev_q14 == 0 && side_is_poor(total, frac_q16, smth_q14, fs_khz, 13, 819) {
        StereoMode::Drop
    } else if width_prev_q14 != 0 && side_is_poor(total, frac_q16, smth_q14, fs_khz, 11, 328) {
        StereoMode::Taper
    } else if smth_q14 > 15565 {
        StereoMode::Wide
    } else {
        StereoMode::Narrow
    }
}

/// The weight that is quantized: nought, the one that was found, or that one
/// scaled by the width.
pub open spec fn sent_weight(mode: StereoMode, pred_q13: int, smth_q14: int) -> int {
    match mode {
        StereoMode::ToMono => 0,
        StereoMode::Wide => pred_q13,
        _ => rshift(smulbb(smth_q14, pred_q13), 14),
    }
}

/// Whether the side channel is predicted with the weights that are sent.
pub open spec fn applies_weights(mode: StereoMode) -> bool {
    match mode {
        StereoMode::Drop => false,
        StereoMode::Taper => false,
        _ => true,
    }
}

/// The width at which the side channel is sent, Q14.
pub open spec fn sent_width(mode: StereoMode, smth_q14: int) -> int {
    match mode {
        StereoMode::Wide => 16384,
        StereoMode::Narrow => smth_q14,
        _ => 0,
    }
}

/// All that is decided for one frame.
pub struct StereoPlan {
    /// The rate for both channels, the cost of the stereo parameters taken off.
    pub total: int,
    /// The fit of the low band.
    pub low: Fit,
    /// The fit of the high band.
    pub high: Fit,
    /// What the weights leave unpredicted, Q16.
    pub frac_q16: int,
    /// How the rate is split.
    pub split: Split,
    /// The smoothed width, Q14.
    pub smth_q14: int,
    /// What becomes of the image.
    pub mode: StereoMode,
    /// The level of the low band's weight.
    pub low_level: int,
    /// The level of the high band's weight.
    pub high_level: int,
    /// How long the side channel has been silent, in samples.
    pub silent: int,
    /// Whether the side channel is dropped.
    pub mid_only: bool,
}

impl StereoPlan {
    /// The weight that is applied to the low band.
    pub open spec fn pred0(self) -> int {
        if applies_weights(self.mode) {
            level_q13(self.low_level) - level_q13(self.high_level)
        } else {
            0
        }
    }

    /// The weight that is applied to the whole signal.
    pub open spec fn pred1(self) -> int {
        if applies_weights(self.mode) {
            level_q13(self.high_level)
        } else {
            0
        }
    }

    /// The width that is applied, Q14.
    pub open spec fn width(self) -> int {
        sent_width(self.mode, self.smth_q14)
    }

    /// The rates of the two channels before either is held to one.
    pub open spec fn wanted_rates(self) -> (int, int) {
        if self.mode is Drop {
            (self.total, 0)
        } else {
            (self.split.mid, self.split.side)
        }
    }

    /// The rates of the two channels.
    pub open spec fn rates(self) -> (int, int) {
        let (mid, side) = self.wanted_rates();
        if !self.mid_only && side < 1 {
            (larger(1, self.total - 1), 1)
        } else {
            (mid, side)
        }
    }
}

/// How fast norms are followed: half as fast on short frames, and slowly behind
/// a frame that was mostly silent.
pub open spec fn smooth_coef(short: bool, act_q8: int) -> int {
    smulwb(smulbb(act_q8, act_q8), if short {
        328
    } else {
        655
    })
}

/// What is decided for a frame of `n` samples.
#[verifier::opaque]
pub open spec fn stereo_plan(
    state: SilkStereoState,
    x1: Seq<i16>,
    x2: Seq<i16>,
    rate: int,
    act_q8: int,
    to_mono: bool,
    fs_khz: int,
    n: int,
) -> StereoPlan {
    let short = n == 10 * fs_khz;
    let coef = smooth_coef(short, act_q8);
    let mid = mid_signal(x1, x2, state.s_mid@, n + 2);
    let side = side_signal(x1, x2, state.s_side@, n + 2);
    let amp = state.mid_side_amp_q0@;
    let low = fit(low_band(mid, n), low_band(side, n), amp[0] as int, amp[1] as int, n, coef);
    let high = fit(high_band(mid, n), high_band(side, n), amp[2] as int, amp[3] as int, n, coef);
    let frac = smaller(smlabb(high.ratio_q14, low.ratio_q14, 3), 65536);
    let total = larger(rate - (if short {
        1200int
    } else {
        600
    }), 1);
    let split = split_rate(total, frac, fs_khz);
    let smth = low16(
        smlawb(state.smth_width_q14 as int, split.width_q14 - state.smth_width_q14, coef),
    );
    let mode = stereo_mode(to_mono, state.width_prev_q14 as int, total, frac, smth, fs_khz);
    let silent = low16(state.silent_side_len + n - 8 * fs_khz);
    let drop = mode is Drop;
    StereoPlan {
        total,
        low,
        high,
        frac_q16: frac,
        split,
        smth_q14: smth,
        mode,
        low_level: nearest_level(sent_weight(mode, low.pred_q13, smth)),
        high_level: nearest_level(sent_weight(mode, high.pred_q13, smth)),
        silent: if !drop {
            0
        } else if silent < 5 * fs_khz {
            silent
        } else {
            10000
        },
        mid_only: drop && silent >= 5 * fs_khz,
    }
}

/// The side channel is dropped only behind a frame that was itself sent without
/// width, and from a frame without width: the image has tapered away by then.
pub proof fn law_the_image_tapers_before_the_side_is_dropped(
    state: SilkStereoState,
    x1: Seq<i16>,
    x2: Seq<i16>,
    rate: int,
    act_q8: int,
    to_mono: bool,
    fs_khz: int,
    n: int,
)
    ensures
        ({
            let plan = stereo_plan(state, x1, x2, rate, act_q8, to_mono, fs_khz, n);
            plan.mid_only ==> {
                &&& state.width_prev_q14 == 0
                &&& plan.width() == 0
                &&& plan.pred0() == 0
                &&& plan.pred1() == 0
                &&& plan.rates() == (plan.total, 0int)
            }
        }),
{
    reveal(stereo_plan);
}

/// A weight at sample `i`: moved in even steps from its last value over the
/// first 8 ms, then at its new value.
pub open spec fn ramped(start: int, step: int, end: int, i: int, len: int) -> int {
    if i < len {
        wrap(start + step * (i + 1))
    } else {
        end
    }
}

/// The share of one step of 8 ms, Q16.
pub open spec fn step_share(fs_khz: int) -> int {
    div_trunc(65536, 8 * fs_khz)
}

/// The step of a weight.
pub open spec fn weight_step(from: int, to: int, fs_khz: int) -> int {
    -rshift_round(smulbb(to - from, step_share(fs_khz)), 16)
}

/// The step of the width, Q24.
pub open spec fn width_step(from: int, to: int, fs_khz: int) -> int {
    lshift(smulwb(to - from, step_share(fs_khz)), 10)
}

/// A sample of the side channel less its prediction from the mid channel.
#[verifier::opaque]
pub open spec fn side_residual(
    mid: Seq<i16>,
    side: Seq<i16>,
    i: int,
    w: int,
    p0: int,
    p1: int,
) -> int {
    let whole = smulwb(w, side[i + 1] as int);
    let low = smlawb(whole, lshift(smoothed(mid, i), 9), p0);
    let sum = smlawb(low, lshift(mid[i + 1] as int, 11), p1);
    sat16(rshift_round(sum, 8))
}

/// The side channel of a frame as it is sent.
pub open spec fn sent_side(
    state: SilkStereoState,
    plan: StereoPlan,
    mid: Seq<i16>,
    side: Seq<i16>,
    i: int,
    fs_khz: int,
) -> int {
    let prev0 = state.pred_prev_q13@[0] as int;
    let prev1 = state.pred_prev_q13@[1] as int;
    let prevw = state.width_prev_q14 as int;
    let len = 8 * fs_khz;
    side_residual(
        mid,
        side,
        i,
        ramped(
            lshift(prevw, 10),
            width_step(prevw, plan.width(), fs_khz),
            lshift(plan.width(), 10),
            i,
            len,
        ),
        ramped(-prev0, weight_step(prev0, plan.pred0(), fs_khz), -plan.pred0(), i, len),
        ramped(-prev1, weight_step(prev1, plan.pred1(), fs_khz), -plan.pred1(), i, len),
    )
}

fn divide_rate(total: i32, frac_q16: i32, fs_khz: i32) -> (r: (i32, i32, i32))
    requires
        1 <= total <= 0x0fff_ffff,
        0 <= frac_q16 <= 65536,
        1 <= fs_khz <= 51,
    ensures
        ({
            let s = split_rate(total as int, frac_q16 as int, fs_khz as int);
            &&& r.0 == s.mid
            &&& r.1 == s.side
            &&& r.2 == s.width_q14
        }),
        0 <= r.2 <= 16384,
{
    let least: i32 = silk_smlabb(2000, fs_khz, 600);
    proof {
        lemma2_to64();
        lemma_wrap_is_word(fs_khz as int);
        lemma_wrap_is_word(600);
        lemma_wrap_is_word(2000 + fs_khz * 600);
    }
    let mid: i32 = silk_div32_varq(total, 13 * 65536 + 3 * frac_q16, 19);
    if mid < least {
        let side: i32 = total - least;
        let whole: i32 = silk_smulwb(65536 + 3 * frac_q16, least);
        proof {
            lemma_wrap_is_word(least as int);
            let a: int = 65536 + 3 * frac_q16;
            let b: int = least as int;
            assert(a * b >= 65536 * b) by (nonlinear_arith)
                requires
                    a >= 65536,
                    b >= 0,
            ;
            lemma_wrap_is_word(side * 2);
        }
        let width: i32 = silk_div32_varq(silk_lshift(side, 1) - least, whole, 16);
        (least, side, silk_limit(width, 0, 16384))
    } else {
        (mid, total - mid, 16384)
    }
}

fn choose_mode(
    to_mono: bool,
    width_prev_q14: i16,
    total: i32,
    frac_q16: i32,
    smth_q14: i16,
    fs_khz: i32,
) -> (m: StereoMode)
    requires
        1 <= total <= 0x0fff_ffff,
        1 <= fs_khz <= 51,
    ensures
        m == stereo_mode(
            to_mono,
            width_prev_q14 as int,
            total as int,
            frac_q16 as int,
            smth_q14 as int,
            fs_khz as int,
        ),
{
    let least: i32 = silk_smlabb(2000, fs_khz, 600);
    proof {
        lemma_wrap_is_word(fs_khz as int);
        lemma_wrap_is_word(600);
        lemma_wrap_is_word(2000 + fs_khz * 600);
    }
    let worth: i32 = silk_smulwb(frac_q16, smth_q14 as i32);
    if to_mono {
        StereoMode::ToMono
    } else if width_prev_q14 == 0 && (8 * total < 13 * least || worth < 819) {
        StereoMode::Drop
    } else if width_prev_q14 != 0 && (8 * total < 11 * least || worth < 328) {
        StereoMode::Taper
    } else if smth_q14 > 15565 {
        StereoMode::Wide
    } else {
        StereoMode::Narrow
    }
}

fn weight_to_send(mode: StereoMode, pred_q13: i32, smth_q14: i16) -> (w: i32)
    requires
        -16384 <= pred_q13 <= 16384,
    ensures
        w == sent_weight(mode, pred_q13 as int, smth_q14 as int),
        -65536 <= w <= 65536,
{
    proof {
        lemma2_to64();
        lemma_product_bound(low16(smth_q14 as int), low16(pred_q13 as int), 32768, 32768);
    }
    match mode {
        StereoMode::ToMono => 0,
        StereoMode::Wide => pred_q13,
        _ => silk_rshift(silk_smulbb(smth_q14 as i32, pred_q13), 14),
    }
}

fn keeps_weights(mode: StereoMode) -> (b: bool)
    ensures
        b == applies_weights(mode),
{
    match mode {
        StereoMode::Drop => false,
        StereoMode::Taper => false,
        _ => true,
    }
}

fn width_to_send(mode: StereoMode, smth_q14: i16) -> (w: i32)
    ensures
        w == sent_width(mode, smth_q14 as int),
        -32768 <= w <= 32767,
{
    match mode {
        StereoMode::Wide => 16384,
        StereoMode::Narrow => smth_q14 as i32,
        _ => 0,
    }
}

pub proof fn lemma_ramp(start: int, step: int, i: int)
    ensures
        wrap(wrap(start + step * i) + step) == wrap(start + step * (i + 1)),
        step * 0 == 0,
{
    assert(step * (i + 1) == step * i + step) by (nonlinear_arith);
    assert(step * 0 == 0) by (nonlinear_arith);
}

/// A weight's last value, its step and its new value.
struct Ramp {
    start: i32,
    step: i32,
    end: i32,
}

fn weight_ramp(from: i16, to: i32, fs_khz: i32) -> (r: Ramp)
    requires
        -32768 <= to <= 32767,
        1 <= fs_khz <= 51,
    ensures
        r.start == -from,
        r.step == weight_step(from as int, to as int, fs_khz as int),
        r.end == -to,
{
    let share: i32 = silk_div32(65536, 8 * fs_khz);
    proof {
        lemma2_to64();
        lemma_product_bound(low16(to - from), low16(share as int), 32768, 32768);
    }
    let step: i32 = -silk_rshift_round(silk_smulbb(to - from as i32, share), 16);
    Ramp { start: -(from as i32), step, end: -to }
}

fn width_ramp(from: i16, to: i32, fs_khz: i32) -> (r: Ramp)
    requires
        -32768 <= to <= 32767,
        1 <= fs_khz <= 51,
    ensures
        r.start == lshift(from as int, 10),
        r.step == width_step(from as int, to as int, fs_khz as int),
        r.end == lshift(to as int, 10),
{
    let share: i32 = silk_div32(65536, 8 * fs_khz);
    let step: i32 = silk_lshift(silk_smulwb(to - from as i32, share), 10);
    Ramp { start: silk_lshift(from as i32, 10), step, end: silk_lshift(to, 10) }
}

fn residual_sample(mid: &Vec<i16>, side: &Vec<i16>, i: usize, w: i32, p0: i32, p1: i32) -> (r: i16)
    requires
        i + 2 < mid@.len(),
        i + 2 < side@.len(),
    ensures
        r == side_residual(mid@, side@, i as int, w as int, p0 as int, p1 as int),
{
    reveal(side_residual);
    let n: usize = mid.len();
    assert(i + 2 < n);
    let whole: i32 = silk_smulwb(w, side[i + 1] as i32);
    let low: i32 = silk_smlawb(whole, silk_lshift(smooth(mid, i), 9), p0);
    let sum: i32 = silk_smlawb(low, silk_lshift(mid[i + 1] as i32, 11), p1);
    silk_sat16(silk_rshift_round(sum, 8))
}

fn subtract_prediction(
    mid: &Vec<i16>,
    side: &Vec<i16>,
    w: &Ramp,
    p0: &Ramp,
    p1: &Ramp,
    len: usize,
    n: usize,
    out: &mut [i16],
)
    requires
        n + 2 <= mid@.len(),
        n + 2 <= side@.len(),
        n + 2 <= old(out)@.len(),
    ensures
        final(out)@.len() == old(out)@.len(),
        forall|j: int|
            0 <= j < old(out)@.len() ==> #[trigger] final(out)@[j] == if 1 <= j <= n {
                side_residual(
                    mid@,
                    side@,
                    j - 1,
                    ramped(w.start as int, w.step as int, w.end as int, j - 1, len as int),
                    ramped(p0.start as int, p0.step as int, p0.end as int, j - 1, len as int),
                    ramped(p1.start as int, p1.step as int, p1.end as int, j - 1, len as int),
                )
            } else {
                old(out)@[j] as int
            },
{
    let ghost before = out@;
    let mut wv: i32 = w.start;
    let mut v0: i32 = p0.start;
    let mut v1: i32 = p1.start;
    let mut i: usize = 0;
    proof {
        lemma_ramp(w.start as int, w.step as int, 0);
        lemma_ramp(p0.start as int, p0.step as int, 0);
        lemma_ramp(p1.start as int, p1.step as int, 0);
        lemma_wrap_is_word(w.start as int);
        lemma_wrap_is_word(p0.start as int);
        lemma_wrap_is_word(p1.start as int);
    }
    while i < n
        invariant
            i <= n,
            n + 2 <= mid@.len(),
            n + 2 <= side@.len(),
            n + 2 <= out@.len(),
            out@.len() == before.len(),
            i <= len ==> {
                &&& wv == wrap(w.start + w.step * i)
                &&& v0 == wrap(p0.start + p0.step * i)
                &&& v1 == wrap(p1.start + p1.step * i)
            },
            i > len ==> wv == w.end && v0 == p0.end && v1 == p1.end,
            forall|j: int|
                0 <= j < out@.len() ==> #[trigger] out@[j] == if 1 <= j <= i {
                    side_residual(
                        mid@,
                        side@,
                        j - 1,
                        ramped(w.start as int, w.step as int, w.end as int, j - 1, len as int),
                        ramped(p0.start as int, p0.step as int, p0.end as int, j - 1, len as int),
                        ramped(p1.start as int, p1.step as int, p1.end as int, j - 1, len as int),
                    )
                } else {
                    before[j] as int
                },
        decreases n - i,
    {
        proof {
            lemma_ramp(w.start as int, w.step as int, i as int);
            lemma_ramp(p0.start as int, p0.step as int, i as int);
            lemma_ramp(p1.start as int, p1.step as int, i as int);
        }
        if i < len {
            wv = silk_add32_ovflw(wv, w.step);
            v0 = silk_add32_ovflw(v0, p0.step);
            v1 = silk_add32_ovflw(v1, p1.step);
        } else if i == len {
            wv = w.end;
            v0 = p0.end;
            v1 = p1.end;
        }
        out[i + 1] = residual_sample(mid, side, i, wv, v0, v1);
        i += 1;
    }
}

/// What holds of the mid/side state between frames: the norms are not negative,
/// and a frame without width was predicted from nothing.
pub open spec fn stereo_inv(state: SilkStereoState) -> bool {
    &&& forall|i: int| 0 <= i < 4 ==> #[trigger] state.mid_side_amp_q0@[i] >= 0
    &&& state.width_prev_q14 == 0 ==> state.pred_prev_q13@[0] == 0 && state.pred_prev_q13@[1] == 0
}

/// The level that stands for nought is nought.
#[verifier::spinoff_prover]
proof fn lemma_no_weight(k: int)
    requires
        is_nearest(0, k),
    ensures
        level_q13(k) == 0,
{
    lemma_level(7, 2);
    assert(SILK_STEREO_PRED_QUANT_Q13@[7] == -820 && SILK_STEREO_PRED_QUANT_Q13@[8] == 820);
    let step = (SILK_STEREO_PRED_QUANT_Q13@[8] - SILK_STEREO_PRED_QUANT_Q13@[7]) * 6554 / 65536;
    assert(step == 164) by {
        assert(1640int * 6554 / 65536 == 164);
    }
    assert(pred_level_q13(7, 2) == -820 + step * 5);
    assert(step * 5 == 820);
    assert(level_q13(37) == pred_level_q13(7, 2)) by {
        assert(37int / 5 == 7 && 37int % 5 == 2);
    }
    assert(level_error(0, 37) == 0);
}

/// A frame that is sent without width is predicted from nothing.
proof fn lemma_no_width_no_weights(plan: StereoPlan)
    requires
        is_nearest(sent_weight(plan.mode, plan.low.pred_q13, plan.smth_q14), plan.low_level),
        is_nearest(sent_weight(plan.mode, plan.high.pred_q13, plan.smth_q14), plan.high_level),
        plan.width() == 0,
    ensures
        plan.pred0() == 0,
        plan.pred1() == 0,
{
    if applies_weights(plan.mode) {
        if plan.mode is Narrow {
            lemma2_to64();
            assert(smulbb(0, plan.low.pred_q13) == 0 && smulbb(0, plan.high.pred_q13) == 0)
                by (nonlinear_arith);
        }
        lemma_no_weight(plan.low_level);
        lemma_no_weight(plan.high_level);
    }
}

/// The two channels share the rate that the side information leaves: all of it
/// goes to the mid channel where the side channel is dropped; otherwise each has
/// at least one bit per second, and what they have adds up to all there is, where
/// that is enough for both.
pub proof fn law_the_rates_add_up(
    state: SilkStereoState,
    x1: Seq<i16>,
    x2: Seq<i16>,
    rate: int,
    act_q8: int,
    to_mono: bool,
    fs_khz: int,
    n: int,
)
    requires
        1 <= fs_khz <= 51,
    ensures
        ({
            let plan = stereo_plan(state, x1, x2, rate, act_q8, to_mono, fs_khz, n);
            let (mid, side) = plan.rates();
            &&& plan.total == larger(
                rate - (if n == 10 * fs_khz {
                    1200int
                } else {
                    600
                }),
                1,
            )
            &&& plan.mid_only ==> (mid, side) == (plan.total, 0int)
            &&& !plan.mid_only ==> {
                &&& mid >= 1
                &&& side >= 1
                &&& plan.total >= 2 ==> mid + side == plan.total
            }
        }),
{
    lemma_plan_splits(state, x1, x2, rate, act_q8, to_mono, fs_khz, n);
    lemma_split_rates(stereo_plan(state, x1, x2, rate, act_q8, to_mono, fs_khz, n), fs_khz);
}

proof fn lemma_plan_splits(
    state: SilkStereoState,
    x1: Seq<i16>,
    x2: Seq<i16>,
    rate: int,
    act_q8: int,
    to_mono: bool,
    fs_khz: int,
    n: int,
)
    ensures
        ({
            let plan = stereo_plan(state, x1, x2, rate, act_q8, to_mono, fs_khz, n);
            &&& plan.total == larger(
                rate - (if n == 10 * fs_khz {
                    1200int
                } else {
                    600
                }),
                1,
            )
            &&& plan.split == split_rate(plan.total, plan.frac_q16, fs_khz)
            &&& plan.mid_only ==> plan.mode is Drop
        }),
{
    reveal(stereo_plan);
}

proof fn lemma_split_rates(plan: StereoPlan, fs_khz: int)
    requires
        1 <= fs_khz <= 51,
        plan.total >= 1,
        plan.split == split_rate(plan.total, plan.frac_q16, fs_khz),
        plan.mid_only ==> plan.mode is Drop,
    ensures
        ({
            let (mid, side) = plan.rates();
            &&& plan.mid_only ==> (mid, side) == (plan.total, 0int)
            &&& !plan.mid_only ==> {
                &&& mid >= 1
                &&& side >= 1
                &&& plan.total >= 2 ==> mid + side == plan.total
            }
        }),
{
    let a = low16(fs_khz);
    let b = low16(600);
    assert(a * b == fs_khz * 600) by (nonlinear_arith)
        requires
            a == fs_khz,
            b == 600,
    ;
    assert(smulbb(fs_khz, 600) == fs_khz * 600);
    assert(wrap(2000 + fs_khz * 600) == 2000 + fs_khz * 600);
    assert(min_mid_rate(fs_khz) == 2000 + fs_khz * 600);
    let s = plan.split;
    assert(s.mid >= 1 && s.mid + s.side == plan.total);
}

/// The mid signal is the mean of both channels, behind the tail of the frame
/// before.
pub proof fn law_mid_is_the_mean(x1: Seq<i16>, x2: Seq<i16>, past: Seq<i16>, n: int, i: int)
    requires
        0 <= i < n,
    ensures
        mid_signal(x1, x2, past, n)[i] == if i < 2 {
            past[i] as int
        } else {
            (x1[i] + x2[i] + 1) / 2
        },
{
    lemma2_to64();
}

/// A side channel that is dropped is silent: every sample that would have been
/// sent is nought.
pub proof fn law_a_dropped_side_is_silent(
    state: SilkStereoState,
    x1: Seq<i16>,
    x2: Seq<i16>,
    rate: int,
    act_q8: int,
    to_mono: bool,
    fs_khz: int,
    n: int,
    i: int,
)
    requires
        stereo_inv(state),
        fs_khz >= 1,
        0 <= i < n,
    ensures
        ({
            let plan = stereo_plan(state, x1, x2, rate, act_q8, to_mono, fs_khz, n);
            let mid = mid_signal(x1, x2, state.s_mid@, n + 2);
            let side = side_signal(x1, x2, state.s_side@, n + 2);
            plan.mid_only ==> sent_side(state, plan, mid, side, i, fs_khz) == 0
        }),
{
    let plan = stereo_plan(state, x1, x2, rate, act_q8, to_mono, fs_khz, n);
    let mid = mid_signal(x1, x2, state.s_mid@, n + 2);
    let side = side_signal(x1, x2, state.s_side@, n + 2);
    if plan.mid_only {
        law_the_image_tapers_before_the_side_is_dropped(
            state, x1, x2, rate, act_q8, to_mono, fs_khz, n,
        );
        lemma2_to64();
        let share = step_share(fs_khz);
        assert(smulbb(0, share) == 0 && smulwb(0, share) == 0) by (nonlinear_arith);
        assert(0 * (i + 1) == 0) by (nonlinear_arith);
        assert(weight_step(0, 0, fs_khz) == 0);
        assert(lshift(0, 10) == 0);
        assert(width_step(0, 0, fs_khz) == 0);
        lemma_silent_residual(mid, side, i);
    }
}

proof fn lemma_silent_residual(mid: Seq<i16>, side: Seq<i16>, i: int)
    ensures
        side_residual(mid, side, i, 0, 0, 0) == 0,
{
    reveal(side_residual);
    lemma2_to64();
    let a = low16(side[i + 1] as int);
    let x = lshift(smoothed(mid, i), 9);
    let y = lshift(mid[i + 1] as int, 11);
    assert(0 * a == 0 && x * 0 == 0 && y * 0 == 0) by (nonlinear_arith);
    assert(low16(0) == 0);
}

/// The state behind a frame, the norms and the widths as planned and the tails
/// of both signals kept.
pub open spec fn stereo_next(
    state: SilkStereoState,
    plan: StereoPlan,
    mid: Seq<i16>,
    side: Seq<i16>,
    n: int,
    next: SilkStereoState,
) -> bool {
    &&& next.s_mid@ == seq![mid[n], mid[n + 1]]
    &&& next.s_side@ == seq![side[n], side[n + 1]]
    &&& next.mid_side_amp_q0@[0] == plan.low.mid_amp
    &&& next.mid_side_amp_q0@[1] == plan.low.res_amp
    &&& next.mid_side_amp_q0@[2] == plan.high.mid_amp
    &&& next.mid_side_amp_q0@[3] == plan.high.res_amp
    &&& next.smth_width_q14 == plan.smth_q14
    &&& next.silent_side_len == plan.silent
    &&& next.pred_prev_q13@[0] == plan.pred0()
    &&& next.pred_prev_q13@[1] == plan.pred1()
    &&& next.width_prev_q14 == plan.width()
    &&& next.pred_ix == state.pred_ix
    &&& next.mid_only_flags == state.mid_only_flags
}

fn store_mid(mid: &Vec<i16>, out: &mut [i16])
    requires
        mid@.len() <= old(out)@.len(),
    ensures
        final(out)@ == mid@ + old(out)@.skip(mid@.len() as int),
{
    let ghost before = out@;
    let mut i: usize = 0;
    while i < mid.len()
        invariant
            i <= mid@.len() <= out@.len(),
            out@.len() == before.len(),
            forall|j: int| 0 <= j < i ==> #[trigger] out@[j] == mid@[j],
            forall|j: int| i <= j < out@.len() ==> #[trigger] out@[j] == before[j],
        decreases mid@.len() - i,
    {
        out[i] = mid[i];
        i += 1;
    }
    assert(out@ =~= mid@ + before.skip(mid@.len() as int));
}

/// What was decided for a frame.
struct Decision {
    low: BandFit,
    high: BandFit,
    smth: i16,
    pred: [i32; 2],
    width: i32,
    silent: i16,
    mid_only: bool,
    rates: [i32; 2],
}

/// What was found and weighed up for a frame, before anything is quantized.
struct Weighed {
    low: BandFit,
    high: BandFit,
    total: i32,
    rates: (i32, i32),
    smth: i16,
    mode: StereoMode,
}

fn weigh(
    state: &SilkStereoState,
    x1: &[i16],
    x2: &[i16],
    mid: &Vec<i16>,
    side: &Vec<i16>,
    total_rate_bps: i32,
    prev_speech_act_q8: i32,
    to_mono: bool,
    fs_khz: i32,
    n: usize,
) -> (d: Weighed)
    requires
        stereo_inv(*state),
        1 <= n <= 0x4000,
        mid@ == mid_signal(x1@, x2@, state.s_mid@, n + 2),
        side@ == side_signal(x1@, x2@, state.s_side@, n + 2),
        1 <= fs_khz <= 51,
        -0x7fff_0000 <= total_rate_bps <= 0x0fff_ffff,
        smooth_coef(n == 10 * fs_khz, prev_speech_act_q8 as int) < 32768,
    ensures
        ({
            let plan = stereo_plan(
                *state,
                x1@,
                x2@,
                total_rate_bps as int,
                prev_speech_act_q8 as int,
                to_mono,
                fs_khz as int,
                n as int,
            );
            &&& d.low.pred_q13 == plan.low.pred_q13
            &&& d.low.mid_amp == plan.low.mid_amp
            &&& d.low.res_amp == plan.low.res_amp
            &&& d.high.pred_q13 == plan.high.pred_q13
            &&& d.high.mid_amp == plan.high.mid_amp
            &&& d.high.res_amp == plan.high.res_amp
            &&& d.total == plan.total
            &&& d.rates.0 == plan.split.mid
            &&& d.rates.1 == plan.split.side
            &&& d.smth == plan.smth_q14
            &&& d.mode == plan.mode
        }),
        -16384 <= d.low.pred_q13 <= 16384,
        -16384 <= d.high.pred_q13 <= 16384,
        d.low.mid_amp >= 0 && d.low.res_amp >= 0,
        d.high.mid_amp >= 0 && d.high.res_amp >= 0,
        d.total >= 1,
{
    reveal(stereo_plan);
    let (low_mid, high_mid) = bands(mid, n);
    let (low_side, high_side) = bands(side, n);
    let short = n == 10 * fs_khz as usize;
    let coef: i32 = silk_smulwb(
        silk_smulbb(prev_speech_act_q8, prev_speech_act_q8),
        if short {
            328
        } else {
            655
        },
    );
    proof {
        lemma_wrap_is_word(328);
        lemma_wrap_is_word(655);
        let a: int = low16(prev_speech_act_q8 as int);
        assert(a * a >= 0) by (nonlinear_arith);
    }
    let amp: [i32; 4] = state.mid_side_amp_q0;
    assert(amp@[0] >= 0 && amp@[1] >= 0 && amp@[2] >= 0 && amp@[3] >= 0);
    let low: BandFit = silk_stereo_find_predictor(&low_mid, &low_side, amp[0], amp[1], n, coef);
    let high: BandFit = silk_stereo_find_predictor(&high_mid, &high_side, amp[2], amp[3], n, coef);
    proof {
        lemma_wrap_is_word(low.ratio_q14 as int);
        lemma_wrap_is_word(3);
        lemma_wrap_is_word(high.ratio_q14 + low.ratio_q14 * 3);
    }
    let frac: i32 = silk_min_int(silk_smlabb(high.ratio_q14, low.ratio_q14, 3), 65536);
    let total: i32 = silk_max_int(
        total_rate_bps - (if short {
            1200
        } else {
            600
        }),
        1,
    );
    let (split_mid, split_side, split_width) = divide_rate(total, frac, fs_khz);
    let smth: i16 = silk_trunc16(
        silk_smlawb(
            state.smth_width_q14 as i32,
            split_width - state.smth_width_q14 as i32,
            coef,
        ),
    );
    let mode: StereoMode = choose_mode(to_mono, state.width_prev_q14, total, frac, smth, fs_khz);
    Weighed { low, high, total, rates: (split_mid, split_side), smth, mode }
}

/// How the rest of a plan follows from what was weighed up.
proof fn lemma_plan(
    state: SilkStereoState,
    x1: Seq<i16>,
    x2: Seq<i16>,
    rate: int,
    act_q8: int,
    to_mono: bool,
    fs_khz: int,
    n: int,
)
    ensures
        ({
            let plan = stereo_plan(state, x1, x2, rate, act_q8, to_mono, fs_khz, n);
            let silent = low16(state.silent_side_len + n - 8 * fs_khz);
            &&& plan.low_level == nearest_level(
                sent_weight(plan.mode, plan.low.pred_q13, plan.smth_q14),
            )
            &&& plan.high_level == nearest_level(
                sent_weight(plan.mode, plan.high.pred_q13, plan.smth_q14),
            )
            &&& plan.silent == if !(plan.mode is Drop) {
                0
            } else if silent < 5 * fs_khz {
                silent
            } else {
                10000
            }
            &&& plan.mid_only == (plan.mode is Drop && silent >= 5 * fs_khz)
        }),
{
    reveal(stereo_plan);
}

fn decide(
    state: &SilkStereoState,
    x1: &[i16],
    x2: &[i16],
    mid: &Vec<i16>,
    side: &Vec<i16>,
    total_rate_bps: i32,
    prev_speech_act_q8: i32,
    to_mono: bool,
    fs_khz: i32,
    n: usize,
    ix: &mut [[i8; 3]; 2],
) -> (d: Decision)
    requires
        stereo_inv(*state),
        1 <= n <= 0x4000,
        mid@ == mid_signal(x1@, x2@, state.s_mid@, n + 2),
        side@ == side_signal(x1@, x2@, state.s_side@, n + 2),
        1 <= fs_khz <= 51,
        -0x7fff_0000 <= total_rate_bps <= 0x0fff_ffff,
        smooth_coef(n == 10 * fs_khz, prev_speech_act_q8 as int) < 32768,
    ensures
        ({
            let plan = stereo_plan(
                *state,
                x1@,
                x2@,
                total_rate_bps as int,
                prev_speech_act_q8 as int,
                to_mono,
                fs_khz as int,
                n as int,
            );
            &&& d.low.mid_amp == plan.low.mid_amp
            &&& d.low.res_amp == plan.low.res_amp
            &&& d.high.mid_amp == plan.high.mid_amp
            &&& d.high.res_amp == plan.high.res_amp
            &&& d.smth == plan.smth_q14
            &&& d.pred@[0] == plan.pred0()
            &&& d.pred@[1] == plan.pred1()
            &&& d.width == plan.width()
            &&& d.silent == plan.silent
            &&& d.mid_only == plan.mid_only
            &&& d.rates@[0] == plan.rates().0
            &&& d.rates@[1] == plan.rates().1
            &&& final(ix)@[0]@ == level_indices(plan.low_level)
            &&& final(ix)@[1]@ == level_indices(plan.high_level)
            &&& is_nearest(
                sent_weight(plan.mode, plan.low.pred_q13, plan.smth_q14),
                plan.low_level,
            )
            &&& is_nearest(
                sent_weight(plan.mode, plan.high.pred_q13, plan.smth_q14),
                plan.high_level,
            )
        }),
        d.low.mid_amp >= 0 && d.low.res_amp >= 0,
        d.high.mid_amp >= 0 && d.high.res_amp >= 0,
        -27464 <= d.pred@[0] <= 27464,
        -27464 <= d.pred@[1] <= 27464,
        -32768 <= d.width <= 32767,
{
    let g: Weighed = weigh(
        state,
        x1,
        x2,
        mid,
        side,
        total_rate_bps,
        prev_speech_act_q8,
        to_mono,
        fs_khz,
        n,
    );
    proof {
        lemma_plan(
            *state,
            x1@,
            x2@,
            total_rate_bps as int,
            prev_speech_act_q8 as int,
            to_mono,
            fs_khz as int,
            n as int,
        );
    }
    let mut pred: [i32; 2] = [
        weight_to_send(g.mode, g.low.pred_q13, g.smth),
        weight_to_send(g.mode, g.high.pred_q13, g.smth),
    ];
    let ghost sent = pred@;
    silk_stereo_quant_pred(&mut pred, ix);
    proof {
        assert(sent[0] == sent_weight(g.mode, g.low.pred_q13 as int, g.smth as int));
        assert(sent[1] == sent_weight(g.mode, g.high.pred_q13 as int, g.smth as int));
        assert(ix@[0]@ == level_indices(nearest_level(sent[0] as int)));
        assert(ix@[1]@ == level_indices(nearest_level(sent[1] as int)));
    }
    if !keeps_weights(g.mode) {
        pred = [0, 0];
    }
    let width: i32 = width_to_send(g.mode, g.smth);
    let dropped = matches!(g.mode, StereoMode::Drop);
    let mut silent: i16 = 0;
    let mut mid_only: bool = false;
    if dropped {
        silent = silk_trunc16(state.silent_side_len as i32 + n as i32 - 8 * fs_khz);
        if (silent as i32) >= 5 * fs_khz {
            mid_only = true;
            silent = 10000;
        }
    }
    let mut rates: [i32; 2] = if dropped {
        [g.total, 0]
    } else {
        [g.rates.0, g.rates.1]
    };
    if !mid_only && rates[1] < 1 {
        rates = [silk_max_int(1, g.total - 1), 1];
    }
    Decision { low: g.low, high: g.high, smth: g.smth, pred, width, silent, mid_only, rates }
}

/// Left and right to mid and side.
///
/// `x1` and `x2` hold the two channels, each with two slots of history in front
/// of `frame_length` samples. `x1` becomes the mid signal, and `x2` from slot 1
/// on the side signal with the prediction taken out. The indices of the weights,
/// whether the side channel is dropped and the rates of both channels come back
/// in the other arguments.
pub fn silk_stereo_lr_to_ms(
    state: &mut SilkStereoState,
    x1: &mut [i16],
    x2: &mut [i16],
    ix: &mut [[i8; 3]; 2],
    mid_only_flag: &mut i8,
    mid_side_rates_bps: &mut [i32; 2],
    total_rate_bps: i32,
    prev_speech_act_q8: i32,
    to_mono: bool,
    fs_khz: i32,
    frame_length: usize,
)
    requires
        stereo_inv(*old(state)),
        1 <= frame_length <= 0x4000,
        frame_length + 2 <= old(x1)@.len(),
        frame_length + 2 <= old(x2)@.len(),
        1 <= fs_khz <= 51,
        -0x7fff_0000 <= total_rate_bps <= 0x0fff_ffff,
        smooth_coef(frame_length == 10 * fs_khz, prev_speech_act_q8 as int) < 32768,
    ensures
        stereo_inv(*final(state)),
        ({
            let n = frame_length as int;
            let plan = stereo_plan(
                *old(state),
                old(x1)@,
                old(x2)@,
                total_rate_bps as int,
                prev_speech_act_q8 as int,
                to_mono,
                fs_khz as int,
                n,
            );
            let mid = mid_signal(old(x1)@, old(x2)@, old(state).s_mid@, n + 2);
            let side = side_signal(old(x1)@, old(x2)@, old(state).s_side@, n + 2);
            &&& stereo_next(*old(state), plan, mid, side, n, *final(state))
            &&& final(x1)@ == mid + old(x1)@.skip(n + 2)
            &&& final(x2)@.len() == old(x2)@.len()
            &&& forall|j: int|
                0 <= j < old(x2)@.len() ==> #[trigger] final(x2)@[j] == if 1 <= j <= n {
                    sent_side(*old(state), plan, mid, side, j - 1, fs_khz as int)
                } else {
                    old(x2)@[j] as int
                }
            &&& final(ix)@[0]@ == level_indices(plan.low_level)
            &&& final(ix)@[1]@ == level_indices(plan.high_level)
            &&& *final(mid_only_flag) == if plan.mid_only {
                1int
            } else {
                0
            }
            &&& final(mid_side_rates_bps)@[0] == plan.rates().0
            &&& final(mid_side_rates_bps)@[1] == plan.rates().1
            &&& is_nearest(
                sent_weight(plan.mode, plan.low.pred_q13, plan.smth_q14),
                plan.low_level,
            )
            &&& is_nearest(
                sent_weight(plan.mode, plan.high.pred_q13, plan.smth_q14),
                plan.high_level,
            )
        }),
{
    let n: usize = frame_length;
    let (mid, side) = mid_and_side(x1, x2, &state.s_mid, &state.s_side, n + 2);
    let d: Decision = decide(
        state,
        x1,
        x2,
        &mid,
        &side,
        total_rate_bps,
        prev_speech_act_q8,
        to_mono,
        fs_khz,
        n,
        ix,
    );
    *mid_only_flag = if d.mid_only {
        1
    } else {
        0
    };
    *mid_side_rates_bps = d.rates;
    let w: Ramp = width_ramp(state.width_prev_q14, d.width, fs_khz);
    let p0: Ramp = weight_ramp(state.pred_prev_q13[0], d.pred[0], fs_khz);
    let p1: Ramp = weight_ramp(state.pred_prev_q13[1], d.pred[1], fs_khz);
    subtract_prediction(&mid, &side, &w, &p0, &p1, (8 * fs_khz) as usize, n, x2);
    store_mid(&mid, x1);

    state.s_mid = [mid[n], mid[n + 1]];
    state.s_side = [side[n], side[n + 1]];
    state.mid_side_amp_q0 = [d.low.mid_amp, d.low.res_amp, d.high.mid_amp, d.high.res_amp];
    state.smth_width_q14 = d.smth;
    state.silent_side_len = d.silent;
    state.pred_prev_q13 = [d.pred[0] as i16, d.pred[1] as i16];
    state.width_prev_q14 = d.width as i16;
    assert(state.s_mid@ =~= seq![mid@[n as int], mid@[n + 1]]);
    assert(state.s_side@ =~= seq![side@[n as int], side@[n + 1]]);
    proof {
        let plan = stereo_plan(
            *old(state),
            old(x1)@,
            old(x2)@,
            total_rate_bps as int,
            prev_speech_act_q8 as int,
            to_mono,
            fs_khz as int,
            n as int,
        );
        if plan.width() == 0 {
            lemma_no_width_no_weights(plan);
        }
    }
}

// ---------------------------------------------------------------------------
// Writing
// ---------------------------------------------------------------------------
/// Whether three numbers are the indices of a level.
pub open spec fn are_indices(ix: Seq<i8>) -> bool {
    &&& ix.len() == 3
    &&& 0 <= ix[0] < 3
    &&& 0 <= ix[1] < 5
    &&& 0 <= ix[2] < 5
}

/// The two fine indices of a weight behind those already written.
pub open spec fn with_fine_indices(c: CoderView, ix: Seq<i8>) -> CoderView {
    with_icdf(
        with_icdf(c, SILK_UNIFORM3_ICDF@, ix[0] as int),
        SILK_UNIFORM5_ICDF@,
        ix[1] as int,
    )
}

/// The encoder behind the indices of two weights: the coarse parts of both as
/// one symbol, then the fine parts.
pub open spec fn with_pred(c: CoderView, first: Seq<i8>, second: Seq<i8>) -> CoderView {
    with_fine_indices(
        with_fine_indices(
            with_icdf(c, SILK_STEREO_PRED_JOINT_ICDF@, 5 * first[2] + second[2]),
            first,
        ),
        second,
    )
}

/// Write the indices of the two weights.
pub fn silk_stereo_encode_pred(ps_range_enc: &mut RangeCoder, ix: &[[i8; 3]; 2])
    requires
        encoding(old(ps_range_enc)@),
        are_indices(ix@[0]@),
        are_indices(ix@[1]@),
    ensures
        encoding(final(ps_range_enc)@),
        final(ps_range_enc)@ == with_pred(old(ps_range_enc)@, ix@[0]@, ix@[1]@),
{
    proof {
        lemma_stereo_pred_joint_icdf();
        lemma_uniform3_icdf();
        lemma_uniform5_icdf();
    }
    let n: i32 = 5 * ix[0][2] as i32 + ix[1][2] as i32;
    ps_range_enc.encode_icdf(n, &SILK_STEREO_PRED_JOINT_ICDF, 8);
    ps_range_enc.encode_icdf(ix[0][0] as i32, &SILK_UNIFORM3_ICDF, 8);
    ps_range_enc.encode_icdf(ix[0][1] as i32, &SILK_UNIFORM5_ICDF, 8);
    ps_range_enc.encode_icdf(ix[1][0] as i32, &SILK_UNIFORM3_ICDF, 8);
    ps_range_enc.encode_icdf(ix[1][1] as i32, &SILK_UNIFORM5_ICDF, 8);
}

/// Write whether the side channel is dropped.
pub fn silk_stereo_encode_mid_only(ps_range_enc: &mut RangeCoder, mid_only_flag: i8)
    requires
        encoding(old(ps_range_enc)@),
        0 <= mid_only_flag <= 1,
    ensures
        encoding(final(ps_range_enc)@),
        final(ps_range_enc)@ == with_icdf(
            old(ps_range_enc)@,
            SILK_STEREO_ONLY_CODE_MID_ICDF@,
            mid_only_flag as int,
        ),
{
    proof {
        lemma_stereo_only_code_mid_icdf();
    }
    ps_range_enc.encode_icdf(mid_only_flag as i32, &SILK_STEREO_ONLY_CODE_MID_ICDF, 8);
}

} // verus!
