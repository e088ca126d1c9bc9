//! Reading a frame's indices, and mid/side stereo on the decoder side.

use vstd::arithmetic::power2::lemma2_to64;
use vstd::prelude::*;

use crate::range_coder::{
    after_icdf, decoding, ends_at, icdf_symbol, table_ends_at, CoderView, RangeCoder,
};
use crate::silk::decoder_structs::SilkDecoderState;
use crate::silk::init_decoder::{configured, contour_table, lag_table};
use crate::silk::macros::{
    lemma_wrap_is_word, low16, lshift, rshift_round, sat16, silk_add32_ovflw, silk_add_lshift32,
    silk_div32, silk_lshift, silk_rshift_round, silk_sat16, silk_smlawb, silk_smulbb,
    silk_trunc16, smlawb, smulbb, smulwb, wrap,
};
use crate::silk::stereo::{
    are_indices, lemma_ramp, level_indices, level_q13, ramped, side_residual, smoothed,
    step_share, stereo_pred_level_q13,
};
use crate::silk::structs::{NLSFCodebook, SideInfoIndices};
use crate::silk::tables::{
    lemma_delta_gain_icdf, lemma_gain_icdf_0, lemma_gain_icdf_1, lemma_gain_icdf_2,
    lemma_ltp_gain_icdf_0, lemma_ltp_gain_icdf_1, lemma_ltp_gain_icdf_2,
    lemma_ltp_per_index_icdf, lemma_ltpscale_icdf, lemma_nlsf_ext_icdf,
    lemma_nlsf_interpolation_factor_icdf, lemma_pitch_contour_10_ms_icdf,
    lemma_pitch_contour_10_ms_nb_icdf, lemma_pitch_contour_icdf, lemma_pitch_contour_nb_icdf,
    lemma_pitch_delta_icdf, lemma_pitch_lag_icdf, lemma_type_offset_no_vad_icdf,
    lemma_stereo_only_code_mid_icdf, lemma_stereo_pred_joint_icdf, lemma_type_offset_vad_icdf,
    lemma_uniform3_icdf, lemma_uniform4_icdf, lemma_uniform5_icdf, lemma_uniform6_icdf,
    lemma_uniform8_icdf,
    SILK_DELTA_GAIN_ICDF, SILK_GAIN_ICDF_0, SILK_GAIN_ICDF_1, SILK_GAIN_ICDF_2,
    SILK_LTPSCALE_ICDF, SILK_LTP_GAIN_ICDF_0, SILK_LTP_GAIN_ICDF_1, SILK_LTP_GAIN_ICDF_2,
    SILK_LTP_PER_INDEX_ICDF, SILK_NLSF_EXT_ICDF, SILK_NLSF_INTERPOLATION_FACTOR_ICDF,
    SILK_PITCH_DELTA_ICDF, SILK_PITCH_LAG_ICDF, SILK_STEREO_ONLY_CODE_MID_ICDF,
    SILK_STEREO_PRED_JOINT_ICDF, SILK_TYPE_OFFSET_NO_VAD_ICDF, SILK_TYPE_OFFSET_VAD_ICDF,
    SILK_UNIFORM3_ICDF, SILK_UNIFORM4_ICDF, SILK_UNIFORM5_ICDF, SILK_UNIFORM8_ICDF,
};

verus! {

// ---------------------------------------------------------------------------
// What is read
// ---------------------------------------------------------------------------
/// The coder behind `n` symbols of one table.
pub open spec fn after_run(c: CoderView, t: Seq<u8>, n: int) -> CoderView
    decreases n,
{
    if n <= 0 {
        c
    } else {
        after_icdf(after_run(c, t, n - 1), t)
    }
}

/// Symbol `i` of a run of one table.
pub open spec fn run_symbol(c: CoderView, t: Seq<u8>, i: int) -> int {
    icdf_symbol(after_run(c, t, i), t)
}

/// The table of signal types and quantization offsets.
pub open spec fn type_table(active: bool) -> Seq<u8> {
    if active {
        SILK_TYPE_OFFSET_VAD_ICDF@
    } else {
        SILK_TYPE_OFFSET_NO_VAD_ICDF@
    }
}

/// Signal type and quantization offset as one number; inactive frames use the
/// lowest two.
pub open spec fn type_offset(c: CoderView, active: bool) -> int {
    icdf_symbol(c, type_table(active)) + (if active {
        2int
    } else {
        0
    })
}

/// The coarse gains of a signal type.
pub open spec fn gain_table(signal_type: int) -> Seq<u8> {
    if signal_type == 0 {
        SILK_GAIN_ICDF_0@
    } else if signal_type == 1 {
        SILK_GAIN_ICDF_1@
    } else {
        SILK_GAIN_ICDF_2@
    }
}

/// The first gain: relative to the last frame, or coarse and fine.
pub open spec fn first_gain(c: CoderView, conditional: bool, signal_type: int) -> int {
    if conditional {
        icdf_symbol(c, SILK_DELTA_GAIN_ICDF@)
    } else {
        8 * icdf_symbol(c, gain_table(signal_type)) + icdf_symbol(
            after_icdf(c, gain_table(signal_type)),
            SILK_UNIFORM8_ICDF@,
        )
    }
}

/// The coder behind the first gain.
pub open spec fn after_first_gain(c: CoderView, conditional: bool, signal_type: int) -> CoderView {
    if conditional {
        after_icdf(c, SILK_DELTA_GAIN_ICDF@)
    } else {
        after_icdf(after_icdf(c, gain_table(signal_type)), SILK_UNIFORM8_ICDF@)
    }
}

/// Whether the tables of a codebook can be read from.
pub open spec fn codebook_valid(cb: NLSFCodebook) -> bool {
    let n = cb.n_vectors as int;
    &&& cb.order == 10 || cb.order == 16
    &&& 1 <= n <= 127
    &&& cb.cb1_icdf@.len() == 2 * n
    &&& ends_at(cb.cb1_icdf@, n - 1)
    &&& ends_at(cb.cb1_icdf@.skip(n), n - 1)
    &&& cb.ec_sel@.len() >= n * (cb.order as int / 2)
    &&& 72 <= cb.ec_icdf@.len() <= 0x7fff_ffff
    &&& forall|k: int| 0 <= k < 8 ==> ends_at(#[trigger] residual_table(cb, k), 8)
}

/// Table `k` of the frequency residuals.
pub open spec fn residual_table(cb: NLSFCodebook, k: int) -> Seq<u8> {
    cb.ec_icdf@.skip(9 * k)
}

/// See [`codebook_valid`].
pub fn codebook_is_valid(cb: &NLSFCodebook) -> (b: bool)
    ensures
        b == codebook_valid(*cb),
{
    if (cb.order != 10 && cb.order != 16) || cb.n_vectors < 1 || cb.n_vectors > 127 {
        return false;
    }
    let n: usize = cb.n_vectors as usize;
    let half: usize = cb.order as usize / 2;
    assert(0 <= n * half <= 127 * 8) by (nonlinear_arith)
        requires
            n <= 127,
            half <= 8,
    ;
    if cb.cb1_icdf.len() != 2 * n || cb.ec_sel.len() < n * half || cb.ec_icdf.len() < 72
        || cb.ec_icdf.len() > 0x7fff_ffff {
        return false;
    }
    assert(cb.cb1_icdf@.skip(0) =~= cb.cb1_icdf@);
    if !table_ends_at(cb.cb1_icdf, 0, n - 1) || !table_ends_at(cb.cb1_icdf, n, n - 1) {
        return false;
    }
    let mut k: usize = 0;
    while k < 8
        invariant
            k <= 8,
            cb.ec_icdf@.len() >= 72,
            forall|j: int| 0 <= j < k ==> ends_at(#[trigger] residual_table(*cb, j), 8),
        decreases 8 - k,
    {
        if !table_ends_at(cb.ec_icdf, 9 * k, 8) {
            assert(!ends_at(residual_table(*cb, k as int), 8));
            return false;
        }
        assert(ends_at(residual_table(*cb, k as int), 8));
        k += 1;
    }
    true
}

/// The table that codes residual `i` of first-stage vector `v`; a byte names
/// those of two residuals.
pub open spec fn residual_choice(cb: NLSFCodebook, v: int, i: int) -> int {
    let entry = cb.ec_sel@[v * (cb.order as int / 2) + i / 2] as int;
    if i % 2 == 0 {
        entry / 2 % 8
    } else {
        entry / 32 % 8
    }
}

/// A frequency residual: the ends of the coded range are extended by a further
/// symbol.
pub open spec fn nlsf_residual(c: CoderView, t: Seq<u8>) -> int {
    let s = icdf_symbol(c, t);
    let e = icdf_symbol(after_icdf(c, t), SILK_NLSF_EXT_ICDF@);
    if s == 0 {
        -e - 4
    } else if s == 8 {
        8 + e - 4
    } else {
        s - 4
    }
}

/// The coder behind a frequency residual.
pub open spec fn after_nlsf_residual(c: CoderView, t: Seq<u8>) -> CoderView {
    let s = icdf_symbol(c, t);
    if s == 0 || s == 8 {
        after_icdf(after_icdf(c, t), SILK_NLSF_EXT_ICDF@)
    } else {
        after_icdf(c, t)
    }
}

/// The coder in front of residual `i`.
pub open spec fn before_residual(c: CoderView, cb: NLSFCodebook, v: int, i: int) -> CoderView
    decreases i,
{
    if i <= 0 {
        c
    } else {
        after_nlsf_residual(
            before_residual(c, cb, v, i - 1),
            residual_table(cb, residual_choice(cb, v, i - 1)),
        )
    }
}

/// The step from the last pitch lag; nought where none is sent.
pub open spec fn lag_step(c: CoderView, relative: bool) -> int {
    if relative {
        icdf_symbol(c, SILK_PITCH_DELTA_ICDF@)
    } else {
        0
    }
}

/// The coder behind that step.
pub open spec fn after_lag_step(c: CoderView, relative: bool) -> CoderView {
    if relative {
        after_icdf(c, SILK_PITCH_DELTA_ICDF@)
    } else {
        c
    }
}

/// The pitch lag: a step from the last one, or coarse and fine.
pub open spec fn pitch_lag(c: CoderView, relative: bool, last: int, fs_khz: int) -> int {
    let d = lag_step(c, relative);
    let c1 = after_lag_step(c, relative);
    if d > 0 {
        low16(last + d - 9)
    } else {
        icdf_symbol(c1, SILK_PITCH_LAG_ICDF@) * (fs_khz / 2) + icdf_symbol(
            after_icdf(c1, SILK_PITCH_LAG_ICDF@),
            lag_table(fs_khz),
        )
    }
}

/// The coder behind the pitch lag.
pub open spec fn after_pitch_lag(c: CoderView, relative: bool, fs_khz: int) -> CoderView {
    let c1 = after_lag_step(c, relative);
    if lag_step(c, relative) > 0 {
        c1
    } else {
        after_icdf(after_icdf(c1, SILK_PITCH_LAG_ICDF@), lag_table(fs_khz))
    }
}

/// The vectors of a long-term prediction codebook.
pub open spec fn ltp_table(per_index: int) -> Seq<u8> {
    if per_index == 0 {
        SILK_LTP_GAIN_ICDF_0@
    } else if per_index == 1 {
        SILK_LTP_GAIN_ICDF_1@
    } else {
        SILK_LTP_GAIN_ICDF_2@
    }
}

/// The decoder in front of each part of a frame's indices.
pub struct Stages {
    /// In front of the gains.
    pub gains: CoderView,
    /// In front of the gains behind the first.
    pub more_gains: CoderView,
    /// In front of the frequencies.
    pub nlsf: CoderView,
    /// In front of their residuals.
    pub residuals: CoderView,
    /// In front of the interpolation factor.
    pub interp: CoderView,
    /// In front of the pitch lag.
    pub pitch: CoderView,
    /// In front of the pitch contour.
    pub contour: CoderView,
    /// In front of the long-term codebook.
    pub per: CoderView,
    /// In front of its vectors.
    pub ltp: CoderView,
    /// In front of the long-term scale.
    pub scale: CoderView,
    /// In front of the seed.
    pub seed: CoderView,
}

/// The first-stage table of a signal type.
pub open spec fn vector_table(cb: NLSFCodebook, signal_type: int) -> Seq<u8> {
    cb.cb1_icdf@.skip(signal_type / 2 * cb.n_vectors)
}

/// Whether the pitch lag is sent relative to the last one.
pub open spec fn lag_is_relative(d: SilkDecoderState, conditional: bool) -> bool {
    conditional && d.ec_prev_signal_type == 2
}

/// Where each part of a frame's indices stands.
pub open spec fn stages(
    d: SilkDecoderState,
    cb: NLSFCodebook,
    c: CoderView,
    active: bool,
    cond_coding: int,
) -> Stages {
    let ty = type_offset(c, active) / 2;
    let conditional = cond_coding == 2;
    let nb = d.nb_subfr as int;
    let gains = after_icdf(c, type_table(active));
    let more_gains = after_first_gain(gains, conditional, ty);
    let nlsf = after_run(more_gains, SILK_DELTA_GAIN_ICDF@, nb - 1);
    let v = icdf_symbol(nlsf, vector_table(cb, ty));
    let residuals = after_icdf(nlsf, vector_table(cb, ty));
    let interp = before_residual(residuals, cb, v, cb.order as int);
    let pitch = if nb == 4 {
        after_icdf(interp, SILK_NLSF_INTERPOLATION_FACTOR_ICDF@)
    } else {
        interp
    };
    let relative = lag_is_relative(d, conditional);
    let contour = after_pitch_lag(pitch, relative, d.fs_khz as int);
    let per = after_icdf(contour, contour_table(d.fs_khz as int, nb));
    let ltp = after_icdf(per, SILK_LTP_PER_INDEX_ICDF@);
    let scale = after_run(ltp, ltp_table(icdf_symbol(per, SILK_LTP_PER_INDEX_ICDF@)), nb);
    let seed = if ty != 2 {
        pitch
    } else if cond_coding == 0 {
        after_icdf(scale, SILK_LTPSCALE_ICDF@)
    } else {
        scale
    };
    Stages {
        gains,
        more_gains,
        nlsf,
        residuals,
        interp,
        pitch,
        contour,
        per,
        ltp,
        scale,
        seed,
    }
}

/// Whether `ix` holds the indices that every frame has.
pub open spec fn common_indices(
    d: SilkDecoderState,
    cb: NLSFCodebook,
    c: CoderView,
    active: bool,
    cond_coding: int,
    ix: SideInfoIndices,
) -> bool {
    let st = stages(d, cb, c, active, cond_coding);
    let ty = type_offset(c, active) / 2;
    let v = icdf_symbol(st.nlsf, vector_table(cb, ty));
    &&& ix.signal_type == ty
    &&& ix.quant_offset_type == type_offset(c, active) % 2
    &&& ix.gains_indices@[0] == first_gain(st.gains, cond_coding == 2, ty)
    &&& forall|i: int|
        1 <= i < d.nb_subfr ==> #[trigger] ix.gains_indices@[i] == run_symbol(
            st.more_gains,
            SILK_DELTA_GAIN_ICDF@,
            i - 1,
        )
    &&& ix.nlsf_indices@[0] == v
    &&& forall|i: int|
        1 <= i <= cb.order ==> #[trigger] ix.nlsf_indices@[i] == nlsf_residual(
            before_residual(st.residuals, cb, v, i - 1),
            residual_table(cb, residual_choice(cb, v, i - 1)),
        )
    &&& ix.nlsf_interp_coef_q2 == if d.nb_subfr == 4 {
        icdf_symbol(st.interp, SILK_NLSF_INTERPOLATION_FACTOR_ICDF@)
    } else {
        4
    }
    &&& ix.seed == icdf_symbol(st.seed, SILK_UNIFORM4_ICDF@)
    &&& forall|i: int|
        d.nb_subfr <= i < 4 ==> #[trigger] ix.gains_indices@[i] == d.indices.gains_indices@[i]
    &&& forall|i: int|
        cb.order < i < 17 ==> #[trigger] ix.nlsf_indices@[i] == d.indices.nlsf_indices@[i]
}

/// Whether `ix` holds the indices of long-term prediction: those read, or on a
/// frame that is not voiced those of the last one that was.
pub open spec fn pitch_indices(
    d: SilkDecoderState,
    cb: NLSFCodebook,
    c: CoderView,
    active: bool,
    cond_coding: int,
    ix: SideInfoIndices,
) -> bool {
    let st = stages(d, cb, c, active, cond_coding);
    if type_offset(c, active) / 2 == 2 {
        let per = icdf_symbol(st.per, SILK_LTP_PER_INDEX_ICDF@);
        &&& ix.lag_index == pitch_lag(
            st.pitch,
            lag_is_relative(d, cond_coding == 2),
            d.ec_prev_lag_index as int,
            d.fs_khz as int,
        )
        &&& ix.contour_index == icdf_symbol(
            st.contour,
            contour_table(d.fs_khz as int, d.nb_subfr as int),
        )
        &&& ix.per_index == per
        &&& forall|i: int|
            0 <= i < d.nb_subfr ==> #[trigger] ix.ltp_index@[i] == run_symbol(
                st.ltp,
                ltp_table(per),
                i,
            )
        &&& forall|i: int|
            d.nb_subfr <= i < 4 ==> #[trigger] ix.ltp_index@[i] == d.indices.ltp_index@[i]
        &&& ix.ltp_scale_index == if cond_coding == 0 {
            icdf_symbol(st.scale, SILK_LTPSCALE_ICDF@)
        } else {
            0
        }
    } else {
        &&& ix.lag_index == d.indices.lag_index
        &&& ix.contour_index == d.indices.contour_index
        &&& ix.per_index == d.indices.per_index
        &&& ix.ltp_index == d.indices.ltp_index
        &&& ix.ltp_scale_index == d.indices.ltp_scale_index
    }
}

// ---------------------------------------------------------------------------
// Reading it
// ---------------------------------------------------------------------------
fn read_gains(
    rc: &mut RangeCoder,
    nb_subfr: usize,
    conditional: bool,
    signal_type: i32,
    gains: &[i8; 4],
) -> (g:
    [i8; 4])
    requires
        decoding(old(rc)@),
        1 <= nb_subfr <= 4,
        0 <= signal_type <= 2,
    ensures
        decoding(final(rc)@),
        g@[0] == first_gain(old(rc)@, conditional, signal_type as int),
        forall|i: int|
            1 <= i < nb_subfr ==> #[trigger] g@[i] == run_symbol(
                after_first_gain(old(rc)@, conditional, signal_type as int),
                SILK_DELTA_GAIN_ICDF@,
                i - 1,
            ),
        forall|i: int| nb_subfr <= i < 4 ==> #[trigger] g@[i] == gains@[i],
        final(rc)@ == after_run(
            after_first_gain(old(rc)@, conditional, signal_type as int),
            SILK_DELTA_GAIN_ICDF@,
            nb_subfr - 1,
        ),
{
    proof {
        lemma_delta_gain_icdf();
        lemma_gain_icdf_0();
        lemma_gain_icdf_1();
        lemma_gain_icdf_2();
        lemma_uniform8_icdf();
    }
    let mut g: [i8; 4] = *gains;
    if conditional {
        g[0] = rc.decode_icdf(&SILK_DELTA_GAIN_ICDF, 8) as i8;
    } else {
        let coarse: i32 = if signal_type == 0 {
            rc.decode_icdf(&SILK_GAIN_ICDF_0, 8)
        } else if signal_type == 1 {
            rc.decode_icdf(&SILK_GAIN_ICDF_1, 8)
        } else {
            rc.decode_icdf(&SILK_GAIN_ICDF_2, 8)
        };
        let fine: i32 = rc.decode_icdf(&SILK_UNIFORM8_ICDF, 8);
        g[0] = (8 * coarse + fine) as i8;
    }
    let ghost start = rc@;
    let mut i: usize = 1;
    while i < nb_subfr
        invariant
            1 <= i <= nb_subfr <= 4,
            decoding(rc@),
            ends_at(SILK_DELTA_GAIN_ICDF@, 40),
            rc@ == after_run(start, SILK_DELTA_GAIN_ICDF@, i - 1),
            g@[0] == first_gain(old(rc)@, conditional, signal_type as int),
            forall|j: int|
                1 <= j < i ==> #[trigger] g@[j] == run_symbol(start, SILK_DELTA_GAIN_ICDF@, j - 1),
            forall|j: int| nb_subfr <= j < 4 ==> #[trigger] g@[j] == gains@[j],
        decreases nb_subfr - i,
    {
        g[i] = rc.decode_icdf(&SILK_DELTA_GAIN_ICDF, 8) as i8;
        i += 1;
    }
    g
}

fn residual_choice_of(cb: &NLSFCodebook, v: usize, i: usize) -> (k: usize)
    requires
        codebook_valid(*cb),
        v < cb.n_vectors,
        i < cb.order,
    ensures
        k == residual_choice(*cb, v as int, i as int),
        k < 8,
{
    let half: usize = cb.order as usize / 2;
    proof {
        let n: int = cb.n_vectors as int;
        let vi: int = v as int;
        let h: int = half as int;
        let j: int = i as int / 2;
        assert(0 <= vi * h && vi * h + j < n * h && vi * h <= 127 * 8) by (nonlinear_arith)
            requires
                0 <= vi < n <= 127,
                0 <= j < h <= 8,
        ;
    }
    let entry: usize = cb.ec_sel[v * half + i / 2] as usize;
    if i % 2 == 0 {
        entry / 2 % 8
    } else {
        entry / 32 % 8
    }
}

fn read_residuals(
    rc: &mut RangeCoder,
    cb: &NLSFCodebook,
    v: usize,
    last: &[i8; 17],
) -> (ix: [i8; 17])
    requires
        decoding(old(rc)@),
        codebook_valid(*cb),
        v < cb.n_vectors,
    ensures
        decoding(final(rc)@),
        final(rc)@ == before_residual(old(rc)@, *cb, v as int, cb.order as int),
        ix@[0] == v,
        forall|i: int|
            1 <= i <= cb.order ==> #[trigger] ix@[i] == nlsf_residual(
                before_residual(old(rc)@, *cb, v as int, i - 1),
                residual_table(*cb, residual_choice(*cb, v as int, i - 1)),
            ),
        forall|i: int| cb.order < i < 17 ==> #[trigger] ix@[i] == last@[i],
{
    proof {
        lemma_nlsf_ext_icdf();
    }
    let ghost start = rc@;
    let order: usize = cb.order as usize;
    let mut ix: [i8; 17] = *last;
    ix[0] = v as i8;
    let mut i: usize = 0;
    while i < order
        invariant
            i <= order == cb.order,
            order <= 16,
            codebook_valid(*cb),
            v < cb.n_vectors,
            decoding(rc@),
            ends_at(SILK_NLSF_EXT_ICDF@, 6),
            rc@ == before_residual(start, *cb, v as int, i as int),
            ix@[0] == v,
            forall|j: int|
                1 <= j <= i ==> #[trigger] ix@[j] == nlsf_residual(
                    before_residual(start, *cb, v as int, j - 1),
                    residual_table(*cb, residual_choice(*cb, v as int, j - 1)),
                ),
            forall|j: int| order < j < 17 ==> #[trigger] ix@[j] == last@[j],
        decreases order - i,
    {
        let k: usize = residual_choice_of(cb, v, i);
        let table: &[u8] = vstd::slice::slice_subrange(cb.ec_icdf, 9 * k, cb.ec_icdf.len());
        assert(table@ =~= residual_table(*cb, k as int));
        assert(ends_at(residual_table(*cb, k as int), 8));
        let s: i32 = rc.decode_icdf(table, 8);
        let r: i32 = if s == 0 {
            -rc.decode_icdf(&SILK_NLSF_EXT_ICDF, 8) - 4
        } else if s == 8 {
            8 + rc.decode_icdf(&SILK_NLSF_EXT_ICDF, 8) - 4
        } else {
            s - 4
        };
        ix[i + 1] = r as i8;
        i += 1;
    }
    ix
}

fn read_pitch_lag(rc: &mut RangeCoder, d: &SilkDecoderState, relative: bool) -> (lag: i16)
    requires
        decoding(old(rc)@),
        configured(*d),
    ensures
        decoding(final(rc)@),
        lag == pitch_lag(old(rc)@, relative, d.ec_prev_lag_index as int, d.fs_khz as int),
        final(rc)@ == after_pitch_lag(old(rc)@, relative, d.fs_khz as int),
{
    proof {
        lemma_pitch_delta_icdf();
        lemma_pitch_lag_icdf();
        lemma_uniform4_icdf();
        lemma_uniform6_icdf();
        lemma_uniform8_icdf();
    }
    let step: i32 = if relative {
        rc.decode_icdf(&SILK_PITCH_DELTA_ICDF, 8)
    } else {
        0
    };
    if step > 0 {
        silk_trunc16(d.ec_prev_lag_index as i32 + step - 9)
    } else {
        let coarse: i32 = rc.decode_icdf(&SILK_PITCH_LAG_ICDF, 8);
        let fine: i32 = rc.decode_icdf(d.pitch_lag_low_bits_icdf, 8);
        proof {
            let a: int = coarse as int;
            let b: int = d.fs_khz as int / 2;
            assert(0 <= a * b <= 31 * 8) by (nonlinear_arith)
                requires
                    0 <= a <= 31,
                    0 <= b <= 8,
            ;
        }
        (coarse * (d.fs_khz / 2) + fine) as i16
    }
}

fn read_ltp(rc: &mut RangeCoder, nb_subfr: usize, per: i32, last: &[i8; 4]) -> (ix: [i8; 4])
    requires
        decoding(old(rc)@),
        nb_subfr <= 4,
        0 <= per <= 2,
    ensures
        decoding(final(rc)@),
        final(rc)@ == after_run(old(rc)@, ltp_table(per as int), nb_subfr as int),
        forall|i: int|
            0 <= i < nb_subfr ==> #[trigger] ix@[i] == run_symbol(
                old(rc)@,
                ltp_table(per as int),
                i,
            ),
        forall|i: int| nb_subfr <= i < 4 ==> #[trigger] ix@[i] == last@[i],
{
    proof {
        lemma_ltp_gain_icdf_0();
        lemma_ltp_gain_icdf_1();
        lemma_ltp_gain_icdf_2();
    }
    let ghost start = rc@;
    let mut ix: [i8; 4] = *last;
    let mut i: usize = 0;
    while i < nb_subfr
        invariant
            i <= nb_subfr <= 4,
            0 <= per <= 2,
            decoding(rc@),
            ends_at(SILK_LTP_GAIN_ICDF_0@, 7),
            ends_at(SILK_LTP_GAIN_ICDF_1@, 15),
            ends_at(SILK_LTP_GAIN_ICDF_2@, 31),
            rc@ == after_run(start, ltp_table(per as int), i as int),
            forall|j: int|
                0 <= j < i ==> #[trigger] ix@[j] == run_symbol(start, ltp_table(per as int), j),
            forall|j: int| nb_subfr <= j < 4 ==> #[trigger] ix@[j] == last@[j],
        decreases nb_subfr - i,
    {
        ix[i] = (if per == 0 {
            rc.decode_icdf(&SILK_LTP_GAIN_ICDF_0, 8)
        } else if per == 1 {
            rc.decode_icdf(&SILK_LTP_GAIN_ICDF_1, 8)
        } else {
            rc.decode_icdf(&SILK_LTP_GAIN_ICDF_2, 8)
        }) as i8;
        i += 1;
    }
    ix
}

/// The indices of long-term prediction.
struct LongTerm {
    lag: i16,
    contour: i8,
    per: i8,
    ltp: [i8; 4],
    scale: i8,
}

fn read_long_term(rc: &mut RangeCoder, d: &SilkDecoderState, cond_coding: i32) -> (r: LongTerm)
    requires
        decoding(old(rc)@),
        configured(*d),
        d.nb_subfr == 2 || d.nb_subfr == 4,
    ensures
        decoding(final(rc)@),
        ({
            let fs = d.fs_khz as int;
            let nb = d.nb_subfr as int;
            let relative = lag_is_relative(*d, cond_coding == 2);
            let contour = after_pitch_lag(old(rc)@, relative, fs);
            let per = after_icdf(contour, contour_table(fs, nb));
            let p = icdf_symbol(per, SILK_LTP_PER_INDEX_ICDF@);
            let ltp = after_icdf(per, SILK_LTP_PER_INDEX_ICDF@);
            let scale = after_run(ltp, ltp_table(p), nb);
            &&& r.lag == pitch_lag(old(rc)@, relative, d.ec_prev_lag_index as int, fs)
            &&& r.contour == icdf_symbol(contour, contour_table(fs, nb))
            &&& r.per == p
            &&& forall|i: int|
                0 <= i < nb ==> #[trigger] r.ltp@[i] == run_symbol(ltp, ltp_table(p), i)
            &&& forall|i: int|
                nb <= i < 4 ==> #[trigger] r.ltp@[i] == d.indices.ltp_index@[i]
            &&& r.scale == if cond_coding == 0 {
                icdf_symbol(scale, SILK_LTPSCALE_ICDF@)
            } else {
                0
            }
            &&& final(rc)@ == if cond_coding == 0 {
                after_icdf(scale, SILK_LTPSCALE_ICDF@)
            } else {
                scale
            }
        }),
{
    proof {
        lemma_ltp_per_index_icdf();
        lemma_ltpscale_icdf();
        lemma_pitch_contour_icdf();
        lemma_pitch_contour_nb_icdf();
        lemma_pitch_contour_10_ms_icdf();
        lemma_pitch_contour_10_ms_nb_icdf();
    }
    let nb: usize = d.nb_subfr as usize;
    let relative = cond_coding == 2 && d.ec_prev_signal_type == 2;
    let lag: i16 = read_pitch_lag(rc, d, relative);
    let contour: i8 = rc.decode_icdf(d.pitch_contour_icdf, 8) as i8;
    let per: i32 = rc.decode_icdf(&SILK_LTP_PER_INDEX_ICDF, 8);
    let ltp: [i8; 4] = read_ltp(rc, nb, per, &d.indices.ltp_index);
    let scale: i8 = if cond_coding == 0 {
        rc.decode_icdf(&SILK_LTPSCALE_ICDF, 8) as i8
    } else {
        0
    };
    LongTerm { lag, contour, per: per as i8, ltp, scale }
}

fn read_type(rc: &mut RangeCoder, active: bool) -> (t: i32)
    requires
        decoding(old(rc)@),
    ensures
        decoding(final(rc)@),
        t == type_offset(old(rc)@, active),
        0 <= t <= 5,
        final(rc)@ == after_icdf(old(rc)@, type_table(active)),
{
    proof {
        lemma_type_offset_vad_icdf();
        lemma_type_offset_no_vad_icdf();
    }
    if active {
        rc.decode_icdf(&SILK_TYPE_OFFSET_VAD_ICDF, 8) + 2
    } else {
        rc.decode_icdf(&SILK_TYPE_OFFSET_NO_VAD_ICDF, 8)
    }
}

/// What reading a frame's indices does to the decoder and the coder.
#[verifier::opaque]
pub open spec fn indices_result(
    d: SilkDecoderState,
    cb: NLSFCodebook,
    c: CoderView,
    active: bool,
    cond_coding: int,
    next: SilkDecoderState,
    end: CoderView,
) -> bool {
    let ix = next.indices;
    &&& common_indices(d, cb, c, active, cond_coding, ix)
    &&& pitch_indices(d, cb, c, active, cond_coding, ix)
    &&& end == after_icdf(stages(d, cb, c, active, cond_coding).seed, SILK_UNIFORM4_ICDF@)
    &&& next.ec_prev_signal_type == ix.signal_type
    &&& next.ec_prev_lag_index == if ix.signal_type == 2 {
        ix.lag_index
    } else {
        d.ec_prev_lag_index
    }
    &&& next == (SilkDecoderState {
        indices: ix,
        ec_prev_signal_type: next.ec_prev_signal_type,
        ec_prev_lag_index: next.ec_prev_lag_index,
        ..d
    })
}

/// Read the indices of a frame into `ps_dec`, with the codebook that its rate
/// uses.
///
/// A frame counts as active where its voice activity flag says so, and where it
/// is a repeated one.
#[verifier::rlimit(40)]
pub fn silk_decode_indices(
    ps_dec: &mut SilkDecoderState,
    nlsf_cb: &NLSFCodebook,
    ps_range_dec: &mut RangeCoder,
    frame_index: i32,
    decode_lbrr: i32,
    cond_coding: i32,
)
    requires
        decoding(old(ps_range_dec)@),
        configured(*old(ps_dec)),
        old(ps_dec).nb_subfr == 2 || old(ps_dec).nb_subfr == 4,
        codebook_valid(*nlsf_cb),
        0 <= frame_index < 3,
    ensures
        decoding(final(ps_range_dec)@),
        indices_result(
            *old(ps_dec),
            *nlsf_cb,
            old(ps_range_dec)@,
            decode_lbrr != 0 || old(ps_dec).vad_flags@[frame_index as int] != 0,
            cond_coding as int,
            *final(ps_dec),
            final(ps_range_dec)@,
        ),
        0 <= final(ps_dec).indices.signal_type <= 2,
        0 <= final(ps_dec).indices.quant_offset_type <= 1,
        0 <= final(ps_dec).indices.nlsf_interp_coef_q2 <= 4,
        0 <= final(ps_dec).indices.seed <= 3,
        *final(ps_dec) == (SilkDecoderState {
            indices: final(ps_dec).indices,
            ec_prev_signal_type: final(ps_dec).ec_prev_signal_type,
            ec_prev_lag_index: final(ps_dec).ec_prev_lag_index,
            ..*old(ps_dec)
        }),
{
    proof {
        lemma_nlsf_interpolation_factor_icdf();
        lemma_uniform4_icdf();
    }
    let nb: usize = ps_dec.nb_subfr as usize;
    let active = decode_lbrr != 0 || ps_dec.vad_flags[frame_index as usize] != 0;
    let conditional = cond_coding == 2;
    let ghost st = stages(*ps_dec, *nlsf_cb, ps_range_dec@, active, cond_coding as int);
    let mut ix: SideInfoIndices = ps_dec.indices;

    let t: i32 = read_type(ps_range_dec, active);
    let signal_type: i32 = t / 2;
    ix.signal_type = signal_type as i8;
    ix.quant_offset_type = (t % 2) as i8;
    ix.gains_indices = read_gains(ps_range_dec, nb, conditional, signal_type, &ix.gains_indices);
    assert(ps_range_dec@ == st.nlsf);

    let voiced_half: usize = (signal_type / 2) as usize;
    let n: usize = nlsf_cb.n_vectors as usize;
    proof {
        let h: int = voiced_half as int;
        let ni: int = n as int;
        assert(h == 0 || h == 1);
        if h == 0 {
            assert(h * ni == 0) by (nonlinear_arith)
                requires
                    h == 0,
            ;
        } else {
            assert(h * ni == ni) by (nonlinear_arith)
                requires
                    h == 1,
            ;
        }
    }
    let table: &[u8] = vstd::slice::slice_subrange(
        nlsf_cb.cb1_icdf,
        voiced_half * n,
        nlsf_cb.cb1_icdf.len(),
    );
    assert(table@ =~= vector_table(*nlsf_cb, signal_type as int));
    assert(ends_at(table@, n - 1)) by {
        if voiced_half == 0 {
            assert(table@ =~= nlsf_cb.cb1_icdf@);
        }
    }
    let v: i32 = ps_range_dec.decode_icdf(table, 8);
    assert(ps_range_dec@ == st.residuals);
    ix.nlsf_indices = read_residuals(ps_range_dec, nlsf_cb, v as usize, &ix.nlsf_indices);
    assert(ps_range_dec@ == st.interp);
    ix.nlsf_interp_coef_q2 = if ps_dec.nb_subfr == 4 {
        ps_range_dec.decode_icdf(&SILK_NLSF_INTERPOLATION_FACTOR_ICDF, 8) as i8
    } else {
        4
    };
    assert(ps_range_dec@ == st.pitch);

    if signal_type == 2 {
        let lt: LongTerm = read_long_term(ps_range_dec, ps_dec, cond_coding);
        ix.lag_index = lt.lag;
        ps_dec.ec_prev_lag_index = ix.lag_index;
        ix.contour_index = lt.contour;
        ix.per_index = lt.per;
        ix.ltp_index = lt.ltp;
        ix.ltp_scale_index = lt.scale;
    }
    assert(ps_range_dec@ == st.seed);
    ps_dec.ec_prev_signal_type = signal_type;
    ix.seed = ps_range_dec.decode_icdf(&SILK_UNIFORM4_ICDF, 8) as i8;
    ps_dec.indices = ix;
    proof {
        let d = *old(ps_dec);
        let c = old(ps_range_dec)@;
        assert(common_indices(d, *nlsf_cb, c, active, cond_coding as int, ix));
        assert(pitch_indices(d, *nlsf_cb, c, active, cond_coding as int, ix));
        assert(indices_result(
            d,
            *nlsf_cb,
            c,
            active,
            cond_coding as int,
            *ps_dec,
            ps_range_dec@,
        )) by {
            reveal(indices_result);
        }
    }
}

// ---------------------------------------------------------------------------
// Stereo
// ---------------------------------------------------------------------------
/// The level that three indices stand for.
pub open spec fn level_of(ix0: int, ix1: int, ix2: int) -> int {
    5 * (ix0 + 3 * ix2) + ix1
}

/// The coder behind the coarse parts of two weights.
pub open spec fn after_joint(c: CoderView) -> CoderView {
    after_icdf(c, SILK_STEREO_PRED_JOINT_ICDF@)
}

/// The coder behind the fine part of a weight.
pub open spec fn after_fine(c: CoderView) -> CoderView {
    after_icdf(after_icdf(c, SILK_UNIFORM3_ICDF@), SILK_UNIFORM5_ICDF@)
}

/// The level of a weight whose coarse part is known.
pub open spec fn read_level(c: CoderView, coarse: int) -> int {
    level_of(
        icdf_symbol(c, SILK_UNIFORM3_ICDF@),
        icdf_symbol(after_icdf(c, SILK_UNIFORM3_ICDF@), SILK_UNIFORM5_ICDF@),
        coarse,
    )
}

/// The level of the low band's weight.
pub open spec fn first_level(c: CoderView) -> int {
    read_level(after_joint(c), icdf_symbol(c, SILK_STEREO_PRED_JOINT_ICDF@) / 5)
}

/// The level of the high band's weight.
pub open spec fn second_level(c: CoderView) -> int {
    read_level(after_fine(after_joint(c)), icdf_symbol(c, SILK_STEREO_PRED_JOINT_ICDF@) % 5)
}

/// The indices of a level name that level.
pub proof fn law_indices_name_their_level(k: int)
    requires
        0 <= k < 75,
    ensures
        are_indices(level_indices(k)),
        level_of(
            level_indices(k)[0] as int,
            level_indices(k)[1] as int,
            level_indices(k)[2] as int,
        ) == k,
{
}

fn read_fine(rc: &mut RangeCoder) -> (r: (i32, i32))
    requires
        decoding(old(rc)@),
    ensures
        decoding(final(rc)@),
        r.0 == icdf_symbol(old(rc)@, SILK_UNIFORM3_ICDF@),
        r.1 == icdf_symbol(after_icdf(old(rc)@, SILK_UNIFORM3_ICDF@), SILK_UNIFORM5_ICDF@),
        final(rc)@ == after_fine(old(rc)@),
        0 <= r.0 <= 2,
        0 <= r.1 <= 4,
{
    proof {
        lemma_uniform3_icdf();
        lemma_uniform5_icdf();
    }
    let a: i32 = rc.decode_icdf(&SILK_UNIFORM3_ICDF, 8);
    let b: i32 = rc.decode_icdf(&SILK_UNIFORM5_ICDF, 8);
    (a, b)
}

/// Read the two weights of the mid/side prediction, Q13, the second taken from
/// the first.
#[verifier::spinoff_prover]
#[verifier::rlimit(60)]
pub fn silk_stereo_decode_pred(ps_range_dec: &mut RangeCoder) -> (pred_q13: [i32; 2])
    requires
        decoding(old(ps_range_dec)@),
    ensures
        decoding(final(ps_range_dec)@),
        final(ps_range_dec)@ == after_fine(after_fine(after_joint(old(ps_range_dec)@))),
        0 <= first_level(old(ps_range_dec)@) < 75,
        0 <= second_level(old(ps_range_dec)@) < 75,
        pred_q13@[1] == level_q13(second_level(old(ps_range_dec)@)),
        pred_q13@[0] == level_q13(first_level(old(ps_range_dec)@)) - pred_q13@[1],
        -27464 <= pred_q13@[0] <= 27464,
        -13732 <= pred_q13@[1] <= 13732,
{
    proof {
        lemma_stereo_pred_joint_icdf();
    }
    let n: i32 = ps_range_dec.decode_icdf(&SILK_STEREO_PRED_JOINT_ICDF, 8);
    let (a0, a1) = read_fine(ps_range_dec);
    let (b0, b1) = read_fine(ps_range_dec);
    let first: i32 = stereo_pred_level_q13((a0 + 3 * (n / 5)) as usize, a1);
    let second: i32 = stereo_pred_level_q13((b0 + 3 * (n % 5)) as usize, b1);
    [first - second, second]
}

/// Read whether the side channel is dropped.
pub fn silk_stereo_decode_mid_only(ps_range_dec: &mut RangeCoder) -> (b: bool)
    requires
        decoding(old(ps_range_dec)@),
    ensures
        decoding(final(ps_range_dec)@),
        b == (icdf_symbol(old(ps_range_dec)@, SILK_STEREO_ONLY_CODE_MID_ICDF@) != 0),
        final(ps_range_dec)@ == after_icdf(
            old(ps_range_dec)@,
            SILK_STEREO_ONLY_CODE_MID_ICDF@,
        ),
{
    proof {
        lemma_stereo_only_code_mid_icdf();
    }
    ps_range_dec.decode_icdf(&SILK_STEREO_ONLY_CODE_MID_ICDF, 8) != 0
}

/// A signal whose first two samples are the tail of the last frame.
pub open spec fn with_history(x: Seq<i16>, past: Seq<i16>) -> Seq<i16> {
    x.update(0, past[0]).update(1, past[1])
}

/// A sample of the side channel with the prediction from the mid channel put
/// back.
#[verifier::opaque]
pub open spec fn side_restored(mid: Seq<i16>, side: int, i: int, p0: int, p1: int) -> int {
    let low = smlawb(lshift(side, 8), lshift(smoothed(mid, i), 9), p0);
    let sum = smlawb(low, lshift(mid[i + 1] as int, 11), p1);
    sat16(rshift_round(sum, 8))
}

/// The step by which the decoder moves a weight.
pub open spec fn decoder_step(from: int, to: int, fs_khz: int) -> int {
    rshift_round(smulbb(to - from, step_share(fs_khz)), 16)
}

/// Sample `i` of the side channel, the weights moved in even steps over the
/// first 8 ms.
pub open spec fn received_side(
    mid: Seq<i16>,
    side: Seq<i16>,
    prev: Seq<i32>,
    pred: Seq<i32>,
    fs_khz: int,
    i: int,
) -> int {
    let len = 8 * fs_khz;
    side_restored(
        mid,
        side[i + 1] as int,
        i,
        ramped(
            prev[0] as int,
            decoder_step(prev[0] as int, pred[0] as int, fs_khz),
            pred[0] as int,
            i,
            len,
        ),
        ramped(
            prev[1] as int,
            decoder_step(prev[1] as int, pred[1] as int, fs_khz),
            pred[1] as int,
            i,
            len,
        ),
    )
}

fn restore_sample(x1: &[i16], side: i16, i: usize, p0: i32, p1: i32) -> (r: i16)
    requires
        i + 2 < x1@.len(),
    ensures
        r == side_restored(x1@, side as int, i as int, p0 as int, p1 as int),
{
    reveal(side_restored);
    proof {
        lemma2_to64();
    }
    let n: usize = x1.len();
    assert(i + 2 < n);
    let s: i32 = silk_add_lshift32(x1[i] as i32 + x1[i + 2] as i32, x1[i + 1] as i32, 1);
    let low: i32 = silk_smlawb(silk_lshift(side as i32, 8), silk_lshift(s, 9), p0);
    let sum: i32 = silk_smlawb(low, silk_lshift(x1[i + 1] as i32, 11), p1);
    silk_sat16(silk_rshift_round(sum, 8))
}

fn restore_side(x1: &[i16], x2: &mut [i16], prev: &[i32; 2], pred: &[i32; 2], fs_khz: i32, n: usize)
    requires
        n + 2 <= x1@.len(),
        n + 2 <= old(x2)@.len(),
        1 <= fs_khz <= 51,
        forall|j: int| 0 <= j < 2 ==> -0x2000_0000 <= #[trigger] prev@[j] <= 0x2000_0000,
        forall|j: int| 0 <= j < 2 ==> -0x2000_0000 <= #[trigger] pred@[j] <= 0x2000_0000,
    ensures
        final(x2)@.len() == old(x2)@.len(),
        forall|j: int|
            0 <= j < old(x2)@.len() ==> #[trigger] final(x2)@[j] == if 1 <= j <= n {
                received_side(x1@, old(x2)@, prev@, pred@, fs_khz as int, j - 1)
            } else {
                old(x2)@[j] as int
            },
{
    let ghost before = x2@;
    let len: usize = (8 * fs_khz) as usize;
    let share: i32 = silk_div32(65536, 8 * fs_khz);
    proof {
        assert(-0x2000_0000 <= prev@[0] <= 0x2000_0000);
        assert(-0x2000_0000 <= prev@[1] <= 0x2000_0000);
        assert(-0x2000_0000 <= pred@[0] <= 0x2000_0000);
        assert(-0x2000_0000 <= pred@[1] <= 0x2000_0000);
    }
    let d0: i32 = silk_rshift_round(silk_smulbb(pred[0] - prev[0], share), 16);
    let d1: i32 = silk_rshift_round(silk_smulbb(pred[1] - prev[1], share), 16);
    let mut p0: i32 = prev[0];
    let mut p1: i32 = prev[1];
    let mut i: usize = 0;
    proof {
        lemma_ramp(prev@[0] as int, d0 as int, 0);
        lemma_ramp(prev@[1] as int, d1 as int, 0);
        lemma_wrap_is_word(prev@[0] as int);
        lemma_wrap_is_word(prev@[1] as int);
    }
    while i < n
        invariant
            i <= n,
            n + 2 <= x1@.len(),
            n + 2 <= x2@.len(),
            x2@.len() == before.len(),
            len == 8 * fs_khz,
            d0 == decoder_step(prev@[0] as int, pred@[0] as int, fs_khz as int),
            d1 == decoder_step(prev@[1] as int, pred@[1] as int, fs_khz as int),
            i <= len ==> p0 == wrap(prev@[0] + d0 * i) && p1 == wrap(prev@[1] + d1 * i),
            forall|j: int|
                0 <= j < x2@.len() ==> #[trigger] x2@[j] == if 1 <= j <= i {
                    received_side(x1@, before, prev@, pred@, fs_khz as int, j - 1)
                } else {
                    before[j] as int
                },
        decreases n - i,
    {
        proof {
            lemma_ramp(prev@[0] as int, d0 as int, i as int);
            lemma_ramp(prev@[1] as int, d1 as int, i as int);
        }
        if i < len {
            p0 = silk_add32_ovflw(p0, d0);
            p1 = silk_add32_ovflw(p1, d1);
        } else {
            p0 = pred[0];
            p1 = pred[1];
        }
        let s: i16 = x2[i + 1];
        assert(s == before[i + 1]);
        x2[i + 1] = restore_sample(x1, s, i, p0, p1);
        i += 1;
    }
}

/// Mid and side to left and right.
///
/// `x1` holds the mid channel and becomes the left one, `x2` the side channel
/// and becomes the right one, each with two slots of history in front of
/// `frame_length` samples. The output stands from slot 1 on: it lags the input
/// by one sample.
pub fn silk_stereo_ms_to_lr(
    pred_prev_q13: &mut [i32; 2],
    s_mid: &mut [i16; 2],
    s_side: &mut [i16; 2],
    x1: &mut [i16],
    x2: &mut [i16],
    pred_q13: &[i32; 2],
    fs_khz: i32,
    frame_length: usize,
)
    requires
        frame_length + 2 <= old(x1)@.len(),
        frame_length + 2 <= old(x2)@.len(),
        1 <= fs_khz <= 51,
        forall|j: int|
            0 <= j < 2 ==> -0x2000_0000 <= #[trigger] old(pred_prev_q13)@[j] <= 0x2000_0000,
        forall|j: int| 0 <= j < 2 ==> -0x2000_0000 <= #[trigger] pred_q13@[j] <= 0x2000_0000,
    ensures
        *final(pred_prev_q13) == *pred_q13,
        ({
            let n = frame_length as int;
            let mid = with_history(old(x1)@, old(s_mid)@);
            let side = with_history(old(x2)@, old(s_side)@);
            &&& final(s_mid)@ == seq![mid[n], mid[n + 1]]
            &&& final(s_side)@ == seq![side[n], side[n + 1]]
            &&& final(x1)@.len() == old(x1)@.len()
            &&& final(x2)@.len() == old(x2)@.len()
            &&& forall|j: int|
                0 <= j < old(x1)@.len() ==> #[trigger] final(x1)@[j] == if 1 <= j <= n {
                    sat16(
                        mid[j] + received_side(
                            mid,
                            side,
                            old(pred_prev_q13)@,
                            pred_q13@,
                            fs_khz as int,
                            j - 1,
                        ),
                    )
                } else {
                    mid[j] as int
                }
            &&& forall|j: int|
                0 <= j < old(x2)@.len() ==> #[trigger] final(x2)@[j] == if 1 <= j <= n {
                    sat16(
                        mid[j] - received_side(
                            mid,
                            side,
                            old(pred_prev_q13)@,
                            pred_q13@,
                            fs_khz as int,
                            j - 1,
                        ),
                    )
                } else {
                    side[j] as int
                }
        }),
{
    let n: usize = frame_length;
    let ghost mid = with_history(x1@, s_mid@);
    let ghost side = with_history(x2@, s_side@);
    x1[0] = s_mid[0];
    x1[1] = s_mid[1];
    x2[0] = s_side[0];
    x2[1] = s_side[1];
    assert(x1@ =~= mid);
    assert(x2@ =~= side);
    *s_mid = [x1[n], x1[n + 1]];
    *s_side = [x2[n], x2[n + 1]];
    assert(s_mid@ =~= seq![mid[n as int], mid[n + 1]]);
    assert(s_side@ =~= seq![side[n as int], side[n + 1]]);
    let ghost prev = pred_prev_q13@;
    restore_side(x1, x2, pred_prev_q13, pred_q13, fs_khz, n);
    *pred_prev_q13 = *pred_q13;
    let ghost restored = x2@;
    let mut i: usize = 0;
    while i < n
        invariant
            i <= n,
            n + 2 <= x1@.len() == mid.len(),
            n + 2 <= x2@.len() == restored.len(),
            forall|j: int|
                0 <= j < x1@.len() ==> #[trigger] x1@[j] == if 1 <= j <= i {
                    sat16(mid[j] + restored[j])
                } else {
                    mid[j] as int
                },
            forall|j: int|
                0 <= j < x2@.len() ==> #[trigger] x2@[j] == if 1 <= j <= i {
                    sat16(mid[j] - restored[j])
                } else {
                    restored[j] as int
                },
        decreases n - i,
    {
        let sum: i32 = x1[i + 1] as i32 + x2[i + 1] as i32;
        let diff: i32 = x1[i + 1] as i32 - x2[i + 1] as i32;
        x1[i + 1] = silk_sat16(sum);
        x2[i + 1] = silk_sat16(diff);
        i += 1;
    }
}

/// What the encoder takes out of the side channel the decoder puts back: at full
/// width, with the same weights on both sides and nothing saturated, a sample
/// comes back within one of what it was.
pub proof fn law_predicted_side_comes_back(
    mid: Seq<i16>,
    side: Seq<i16>,
    i: int,
    p0: int,
    p1: int,
)
    requires
        0 <= i,
        i + 2 < mid.len(),
        i + 2 < side.len(),
        -32767 <= p0 <= 32767,
        -32767 <= p1 <= 32767,
        -32768 < side_residual(mid, side, i, 0x100_0000, -p0, -p1) < 32767,
    ensures
        ({
            let sent = side_residual(mid, side, i, 0x100_0000, -p0, -p1);
            let got = side_restored(mid, sent, i, p0, p1);
            side[i + 1] - 1 <= got <= side[i + 1] + 1
        }),
{
    reveal(side_residual);
    reveal(side_restored);
    lemma2_to64();
    lemma_wrap_is_word(p0);
    lemma_wrap_is_word(p1);
    lemma_wrap_is_word(-p0);
    lemma_wrap_is_word(-p1);
    let x: int = side[i + 1] as int;
    lemma_wrap_is_word(x);
    assert(smulwb(0x100_0000, x) == 256 * x);
    let s: int = smoothed(mid, i);
    lemma_wrap_is_word(mid[i] + mid[i + 2] + 2 * mid[i + 1]);
    lemma_wrap_is_word(2 * mid[i + 1]);
    assert(-131072 <= s <= 131068);
    lemma_wrap_is_word(s * 512);
    let big: int = s * 512;
    let m: int = mid[i + 1] * 2048;
    lemma_wrap_is_word(m);
    let u: int = big * p0;
    let v: int = m * p1;
    assert(big * -p0 == -u && -0x800_0000 * 32767 <= u <= 0x800_0000 * 32767) by (nonlinear_arith)
        requires
            u == big * p0,
            -0x800_0000 <= big <= 0x800_0000,
            -32767 <= p0 <= 32767,
    ;
    assert(m * -p1 == -v && -0x800_0000 * 32767 <= v <= 0x800_0000 * 32767) by (nonlinear_arith)
        requires
            v == m * p1,
            -0x800_0000 <= m <= 0x800_0000,
            -32767 <= p1 <= 32767,
    ;
    let a: int = -u / 0x1_0000;
    let b: int = -v / 0x1_0000;
    lemma_wrap_is_word(256 * x + a);
    lemma_wrap_is_word(256 * x + a + b);
    let e: int = 256 * x + a + b;
    let r: int = (e + 128) / 256;
    assert(side_residual(mid, side, i, 0x100_0000, -p0, -p1) == sat16(r));
    lemma_wrap_is_word(r * 256);
    let a2: int = u / 0x1_0000;
    let b2: int = v / 0x1_0000;
    lemma_wrap_is_word(r * 256 + a2);
    lemma_wrap_is_word(r * 256 + a2 + b2);
    assert(-1 <= a + a2 <= 0 && -1 <= b + b2 <= 0);
}

} // verus!
