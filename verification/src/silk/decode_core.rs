//! Synthesis of a frame: excitation, long-term prediction, short-term
//! prediction.

use vstd::prelude::*;

use crate::silk::decoder_structs::{SilkDecoderControl, SilkDecoderState};
use crate::silk::init_decoder::configured;
use crate::silk::macros::{
    lshift, rand_next, rshift, silk_add32_ovflw, silk_add_lshift32, silk_lshift, silk_rand,
    silk_rshift, silk_smlawb, silk_smulwb, silk_smulww, smlawb, smulwb, smulww, wrap,
};
use crate::silk::sigproc_fix::{
    div32_varq, inverse32_varq, residual, silk_div32_varq, silk_inverse32_varq,
    silk_lpc_analysis_filter,
};
use crate::silk::synthesis::{
    lpc_synthesis, scale_sample, scaled_sample, synthesis,
};
use crate::silk::tables::SILK_QUANTIZATION_OFFSETS_Q10;

verus! {

// ---------------------------------------------------------------------------
// Excitation
// ---------------------------------------------------------------------------
/// The random state that decides the sign of sample `i`; every pulse stirs it.
pub open spec fn dither(seed: int, pulses: Seq<i16>, i: int) -> int
    decreases i,
{
    if i <= 0 {
        rand_next(seed)
    } else {
        rand_next(wrap(dither(seed, pulses, i - 1) + pulses[i - 1]))
    }
}

/// The excitation of a pulse, Q14: pulled towards zero, offset, and its sign
/// turned by the random state.
pub open spec fn excitation(pulse: int, state: int, offset_q10: int) -> int {
    let level = pulse * 16384;
    let pulled = if level > 0 {
        level - 1280
    } else if level < 0 {
        level + 1280
    } else {
        0
    };
    let e = pulled + offset_q10 * 16;
    if state < 0 {
        -e
    } else {
        e
    }
}

/// The offset of a frame's quantization levels.
pub open spec fn level_offset(d: SilkDecoderState) -> int {
    SILK_QUANTIZATION_OFFSETS_Q10@[d.indices.signal_type as int / 2]@[d.indices.quant_offset_type as int] as int
}

/// The excitation of a frame, behind which the last one's stays.
pub open spec fn frame_excitation(d: SilkDecoderState, pulses: Seq<i16>) -> Seq<i32> {
    Seq::new(
        320,
        |i: int|
            if i < d.frame_length {
                excitation(
                    pulses[i] as int,
                    dither(d.indices.seed as int, pulses, i),
                    level_offset(d),
                ) as i32
            } else {
                d.exc_q14@[i]
            },
    )
}

fn excite(d: &SilkDecoderState, pulses: &[i16]) -> (exc: [i32; 320])
    requires
        0 <= d.frame_length <= 320,
        d.frame_length <= pulses@.len(),
        0 <= d.indices.signal_type <= 2,
        0 <= d.indices.quant_offset_type <= 1,
    ensures
        exc@ == frame_excitation(*d, pulses@),
{
    let n: usize = d.frame_length as usize;
    let row: usize = (d.indices.signal_type / 2) as usize;
    let offset: i32 = SILK_QUANTIZATION_OFFSETS_Q10[row][d.indices.quant_offset_type as usize] as i32;
    let mut exc: [i32; 320] = d.exc_q14;
    let mut seed: i32 = d.indices.seed as i32;
    let mut i: usize = 0;
    while i < n
        invariant
            i <= n == d.frame_length,
            n <= 320,
            n <= pulses@.len(),
            offset == level_offset(*d),
            0 <= offset <= 240,
            i == 0 ==> seed == d.indices.seed,
            i > 0 ==> seed == wrap(
                dither(d.indices.seed as int, pulses@, i - 1) + pulses@[i - 1],
            ),
            forall|j: int|
                0 <= j < 320 ==> #[trigger] exc@[j] == if j < i {
                    frame_excitation(*d, pulses@)[j]
                } else {
                    d.exc_q14@[j]
                },
        decreases n - i,
    {
        let r: i32 = silk_rand(seed);
        assert(r == dither(d.indices.seed as int, pulses@, i as int));
        let level: i32 = pulses[i] as i32 * 16384;
        let pulled: i32 = if level > 0 {
            level - 1280
        } else if level < 0 {
            level + 1280
        } else {
            0
        };
        let e: i32 = pulled + offset * 16;
        exc[i] = if r < 0 {
            -e
        } else {
            e
        };
        seed = silk_add32_ovflw(r, pulses[i] as i32);
        i += 1;
    }
    assert(exc@ =~= frame_excitation(*d, pulses@));
    exc
}

// ---------------------------------------------------------------------------
// Long-term prediction
// ---------------------------------------------------------------------------
/// Whether subframe `k` bridges from a concealed voiced frame into one that is
/// not voiced: the period fades out where it would stop.
pub open spec fn is_transition(d: SilkDecoderState, k: int) -> bool {
    d.loss_cnt > 0 && d.prev_signal_type == 2 && d.indices.signal_type != 2 && k < 2
}

/// Whether subframe `k` has long-term prediction.
pub open spec fn is_voiced(d: SilkDecoderState, k: int) -> bool {
    is_transition(d, k) || d.indices.signal_type == 2
}

/// The pitch lag of subframe `k`.
pub open spec fn lag_of(d: SilkDecoderState, pitch_l: Seq<i32>, k: int) -> int {
    if is_transition(d, k) {
        d.lag_prev as int
    } else {
        pitch_l[k] as int
    }
}

/// The long-term taps of subframe `k`, Q14.
pub open spec fn taps_of(d: SilkDecoderState, ltp_coef: Seq<i16>, k: int) -> Seq<i16> {
    if is_transition(d, k) {
        seq![0i16, 0, 4096, 0, 0]
    } else {
        ltp_coef.subrange(5 * k, 5 * k + 5)
    }
}

/// Whether a lag can be reached back to.
pub open spec fn lag_fits(d: SilkDecoderState, lag: int) -> bool {
    2 <= lag && lag + d.lpc_order + 2 < d.ltp_mem_length
}

/// What synthesis carries from subframe to subframe.
#[verifier::ext_equal]
pub struct CoreState {
    /// The last 16 samples of short-term synthesis, Q14.
    pub lpc: Seq<i32>,
    /// The excitation that long-term prediction reaches into, Q15.
    pub ltp: Seq<i32>,
    /// The last output.
    pub out_buf: Seq<i16>,
    /// The frame.
    pub xq: Seq<i16>,
    /// The last gain, Q16.
    pub prev_gain: int,
}

/// Whether subframe `k` filters the past anew.
pub open spec fn rewhitens(d: SilkDecoderState, k: int) -> bool {
    k == 0 || (k == 2 && d.indices.nlsf_interp_coef_q2 < 4)
}

/// The step from the last gain to this one, Q16.
pub open spec fn gain_step(prev: int, gain: int) -> int {
    if gain != prev {
        div32_varq(prev, gain, 16)
    } else {
        0x1_0000
    }
}

/// The last output with the first half of the frame behind it, where the second
/// half filters anew.
pub open spec fn extended_output(
    d: SilkDecoderState,
    out_buf: Seq<i16>,
    xq: Seq<i16>,
    k: int,
) -> Seq<
    i16,
> {
    if k == 2 {
        Seq::new(
            out_buf.len(),
            |i: int|
                if d.ltp_mem_length <= i < d.ltp_mem_length + 2 * d.subfr_length {
                    xq[i - d.ltp_mem_length]
                } else {
                    out_buf[i]
                },
        )
    } else {
        out_buf
    }
}

/// Where the past that a lag needs begins.
pub open spec fn past_start(d: SilkDecoderState, lag: int) -> int {
    d.ltp_mem_length - lag - d.lpc_order - 2
}

/// The output from which subframe `k` filters.
pub open spec fn past_output(d: SilkDecoderState, out: Seq<i16>, lag: int, k: int) -> Seq<i16> {
    out.skip(past_start(d, lag) + k * d.subfr_length)
}

/// The inverse gain that the filtered past is scaled by, Q31; in the first
/// subframe the long-term scale is part of it.
pub open spec fn past_scale(gain: int, ltp_scale_q14: int, k: int) -> int {
    let inv = inverse32_varq(gain, 47);
    if k == 0 {
        lshift(smulwb(inv, ltp_scale_q14), 2)
    } else {
        inv
    }
}

/// The excitation of the past made ready for subframe `k`: filtered anew, or
/// scaled to the new gain.
#[verifier::opaque]
pub open spec fn ready_past(
    d: SilkDecoderState,
    st: CoreState,
    out: Seq<i16>,
    a: Seq<i16>,
    gain: int,
    ltp_scale_q14: int,
    lag: int,
    k: int,
) -> Seq<i32> {
    let idx = d.ltp_mem_length + k * d.subfr_length;
    Seq::new(
        st.ltp.len(),
        |i: int|
            if idx - lag - 2 <= i < idx {
                if rewhitens(d, k) {
                    smulwb(
                        past_scale(gain, ltp_scale_q14, k),
                        residual(
                            past_output(d, out, lag, k),
                            a,
                            d.ltp_mem_length - (idx - i) - past_start(d, lag),
                            d.lpc_order as int,
                        ),
                    ) as i32
                } else if gain_step(st.prev_gain, gain) != 0x1_0000 {
                    smulww(gain_step(st.prev_gain, gain), st.ltp[i] as int) as i32
                } else {
                    st.ltp[i]
                }
            } else {
                st.ltp[i]
            },
    )
}

/// The first `n` long-term taps applied downwards from sample `at`, Q13.
pub open spec fn long_term(ltp: Seq<i32>, at: int, taps: Seq<i16>, n: int) -> int
    decreases n,
{
    if n <= 0 {
        2
    } else {
        smlawb(long_term(ltp, at, taps, n - 1), ltp[at - (n - 1)] as int, taps[n - 1] as int)
    }
}

/// Sample `i` of a subframe with long-term prediction, Q14.
pub open spec fn voiced_sample(
    ltp: Seq<i32>,
    exc: Seq<i32>,
    from: int,
    idx: int,
    lag: int,
    taps: Seq<i16>,
    i: int,
) -> int {
    wrap(exc[from + i] + lshift(long_term(ltp, idx - lag + 2 + i, taps, 5), 1))
}

/// The excitation of the past with `n` samples of a subframe behind it.
pub open spec fn voiced_run(
    ltp: Seq<i32>,
    exc: Seq<i32>,
    from: int,
    idx: int,
    lag: int,
    taps: Seq<i16>,
    n: int,
) -> Seq<i32>
    decreases n,
{
    if n <= 0 {
        ltp
    } else {
        let b = voiced_run(ltp, exc, from, idx, lag, taps, n - 1);
        b.update(
            idx + n - 1,
            lshift(voiced_sample(b, exc, from, idx, lag, taps, n - 1), 1) as i32,
        )
    }
}

/// The residual of a subframe, Q14.
pub open spec fn voiced_residual(
    ltp: Seq<i32>,
    exc: Seq<i32>,
    from: int,
    idx: int,
    lag: int,
    taps: Seq<i16>,
    n: int,
) -> Seq<i32> {
    Seq::new(
        n as nat,
        |i: int|
            voiced_sample(
                voiced_run(ltp, exc, from, idx, lag, taps, i),
                exc,
                from,
                idx,
                lag,
                taps,
                i,
            ) as i32,
    )
}

// ---------------------------------------------------------------------------
// A subframe
// ---------------------------------------------------------------------------
/// What a subframe is made with.
#[verifier::ext_equal]
pub struct SubframePlan {
    /// Its gain, Q16.
    pub gain: int,
    /// Short-term prediction, Q12.
    pub a: Seq<i16>,
    /// Whether it has long-term prediction.
    pub voiced: bool,
    /// Its pitch lag.
    pub lag: int,
    /// Its long-term taps, Q14.
    pub taps: Seq<i16>,
    /// The long-term scale, Q14.
    pub ltp_scale_q14: int,
}

/// What subframe `k` is made with.
pub open spec fn subframe_plan(d: SilkDecoderState, c: SilkDecoderControl, k: int) -> SubframePlan {
    SubframePlan {
        gain: c.gains_q16@[k] as int,
        a: c.pred_coef_q12@[k / 2]@,
        voiced: is_voiced(d, k),
        lag: lag_of(d, c.pitch_l@, k),
        taps: taps_of(d, c.ltp_coef_q14@, k),
        ltp_scale_q14: c.ltp_scale_q14 as int,
    }
}

/// The short-term history scaled to the new gain.
pub open spec fn scaled_history(lpc: Seq<i32>, prev: int, gain: int) -> Seq<i32> {
    if gain != prev {
        Seq::new(16, |i: int| smulww(gain_step(prev, gain), lpc[i] as int) as i32)
    } else {
        lpc
    }
}

/// The output in front of subframe `k`.
pub open spec fn output_before(
    d: SilkDecoderState,
    st: CoreState,
    p: SubframePlan,
    k: int,
) -> Seq<i16> {
    if p.voiced && rewhitens(d, k) {
        extended_output(d, st.out_buf, st.xq, k)
    } else {
        st.out_buf
    }
}

/// The excitation of the past in front of subframe `k`.
pub open spec fn past_before(
    d: SilkDecoderState,
    st: CoreState,
    p: SubframePlan,
    k: int,
) -> Seq<i32> {
    if p.voiced {
        ready_past(
            d,
            st,
            output_before(d, st, p, k),
            p.a,
            p.gain,
            p.ltp_scale_q14,
            p.lag,
            k,
        )
    } else {
        st.ltp
    }
}

/// The residual of subframe `k`, Q14.
pub open spec fn subframe_residual(
    d: SilkDecoderState,
    st: CoreState,
    p: SubframePlan,
    exc: Seq<i32>,
    k: int,
) -> Seq<i32> {
    let n = d.subfr_length as int;
    if p.voiced {
        voiced_residual(
            past_before(d, st, p, k),
            exc,
            k * n,
            d.ltp_mem_length + k * n,
            p.lag,
            p.taps,
            n,
        )
    } else {
        exc.subrange(k * n, k * n + n)
    }
}

/// The short-term synthesis of subframe `k` behind its history, Q14.
pub open spec fn subframe_synthesis(
    d: SilkDecoderState,
    st: CoreState,
    p: SubframePlan,
    exc: Seq<i32>,
    k: int,
) -> Seq<i32> {
    synthesis(
        scaled_history(st.lpc, st.prev_gain, p.gain) + subframe_residual(d, st, p, exc, k),
        16,
        p.a,
        d.lpc_order as int,
        d.subfr_length as int,
    )
}

/// The state behind subframe `k`.
#[verifier::opaque]
pub open spec fn core_step(
    d: SilkDecoderState,
    st: CoreState,
    p: SubframePlan,
    exc: Seq<i32>,
    k: int,
) -> CoreState {
    let n = d.subfr_length as int;
    let y = subframe_synthesis(d, st, p, exc, k);
    CoreState {
        lpc: y.subrange(n, n + 16),
        ltp: if p.voiced {
            voiced_run(
                past_before(d, st, p, k),
                exc,
                k * n,
                d.ltp_mem_length + k * n,
                p.lag,
                p.taps,
                n,
            )
        } else {
            st.ltp
        },
        out_buf: output_before(d, st, p, k),
        xq: Seq::new(
            st.xq.len(),
            |i: int|
                if k * n <= i < k * n + n {
                    scaled_sample(y[16 + i - k * n] as int, rshift(p.gain, 6)) as i16
                } else {
                    st.xq[i]
                },
        ),
        prev_gain: p.gain,
    }
}

/// The state behind the first `k` subframes.
pub open spec fn core_run(
    d: SilkDecoderState,
    c: SilkDecoderControl,
    exc: Seq<i32>,
    st: CoreState,
    k: int,
) -> CoreState
    decreases k,
{
    if k <= 0 {
        st
    } else {
        core_step(
            d,
            core_run(d, c, exc, st, k - 1),
            subframe_plan(d, c, k - 1),
            exc,
            k - 1,
        )
    }
}

/// The state in front of a frame.
pub open spec fn core_start(d: SilkDecoderState, xq: Seq<i16>) -> CoreState {
    CoreState {
        lpc: d.s_lpc_q14_buf@,
        ltp: Seq::new((d.ltp_mem_length + d.frame_length) as nat, |i: int| 0i32),
        out_buf: d.out_buf@,
        xq,
        prev_gain: d.prev_gain_q16 as int,
    }
}

/// The state of synthesis between subframes.
struct Core {
    lpc: [i32; 16],
    ltp: Vec<i32>,
    out_buf: [i16; 480],
    prev_gain: i32,
}

impl Core {
    spec fn view_with(&self, xq: Seq<i16>) -> CoreState {
        CoreState {
            lpc: self.lpc@,
            ltp: self.ltp@,
            out_buf: self.out_buf@,
            xq,
            prev_gain: self.prev_gain as int,
        }
    }
}

/// What a subframe is made with.
struct Subframe<'a> {
    gain: i32,
    a: &'a [i16; 16],
    voiced: bool,
    lag: i32,
    taps: [i16; 5],
    ltp_scale_q14: i32,
}

impl<'a> Subframe<'a> {
    spec fn plan(&self) -> SubframePlan {
        SubframePlan {
            gain: self.gain as int,
            a: self.a@,
            voiced: self.voiced,
            lag: self.lag as int,
            taps: self.taps@,
            ltp_scale_q14: self.ltp_scale_q14 as int,
        }
    }
}

fn transition_of(d: &SilkDecoderState, k: usize) -> (b: bool)
    ensures
        b == is_transition(*d, k as int),
{
    d.loss_cnt > 0 && d.prev_signal_type == 2 && d.indices.signal_type != 2 && k < 2
}

fn plan_subframe<'a>(d: &SilkDecoderState, c: &'a SilkDecoderControl, k: usize) -> (p: Subframe<'a>)
    requires
        k < 4,
    ensures
        p.plan() == subframe_plan(*d, *c, k as int),
{
    let transition = transition_of(d, k);
    let b: usize = 5 * k;
    let taps: [i16; 5] = if transition {
        [0, 0, 4096, 0, 0]
    } else {
        [
            c.ltp_coef_q14[b],
            c.ltp_coef_q14[b + 1],
            c.ltp_coef_q14[b + 2],
            c.ltp_coef_q14[b + 3],
            c.ltp_coef_q14[b + 4],
        ]
    };
    assert(taps@ =~= taps_of(*d, c.ltp_coef_q14@, k as int));
    Subframe {
        gain: c.gains_q16[k],
        a: &c.pred_coef_q12[k / 2],
        voiced: transition || d.indices.signal_type == 2,
        lag: if transition {
            d.lag_prev
        } else {
            c.pitch_l[k]
        },
        taps,
        ltp_scale_q14: c.ltp_scale_q14,
    }
}

fn extend_output(d: &SilkDecoderState, out_buf: &[i16; 480], xq: &[i16]) -> (r: [i16; 480])
    requires
        configured(*d),
        2 * d.subfr_length <= xq@.len(),
    ensures
        r@ == extended_output(*d, out_buf@, xq@, 2),
{
    let mem: usize = d.ltp_mem_length as usize;
    let n: usize = 2 * d.subfr_length as usize;
    let mut r: [i16; 480] = *out_buf;
    let mut i: usize = 0;
    while i < n
        invariant
            i <= n == 2 * d.subfr_length,
            n <= 160,
            mem == d.ltp_mem_length,
            mem <= 320,
            n <= xq@.len(),
            forall|j: int|
                0 <= j < 480 ==> #[trigger] r@[j] == if mem <= j < mem + i {
                    xq@[j - mem]
                } else {
                    out_buf@[j]
                },
        decreases n - i,
    {
        r[mem + i] = xq[i];
        i += 1;
    }
    assert(r@ =~= extended_output(*d, out_buf@, xq@, 2));
    r
}

proof fn lemma_sizes(d: SilkDecoderState, k: int)
    requires
        configured(d),
        0 <= k < d.nb_subfr <= 4,
    ensures
        d.subfr_length <= 80,
        d.ltp_mem_length == 4 * d.subfr_length,
        0 <= k * d.subfr_length <= 240,
        k * d.subfr_length + d.subfr_length <= d.frame_length <= 320,
{
    let n: int = d.subfr_length as int;
    let nb: int = d.nb_subfr as int;
    assert(0 <= k * n && k * n + n <= n * nb && n * nb <= 320 && k * n <= 240) by (nonlinear_arith)
        requires
            0 <= k < nb <= 4,
            0 <= n <= 80,
    ;
}

fn filter_past(
    d: &SilkDecoderState,
    out_buf: &[i16; 480],
    a: &[i16; 16],
    lag: i32,
    k: usize,
) -> (v: Vec<i16>)
    requires
        configured(*d),
        k < d.nb_subfr <= 4,
        k == 0 || k == 2,
        lag_fits(*d, lag as int),
    ensures
        v@.len() == lag + d.lpc_order + 2,
        forall|t: int|
            0 <= t < v@.len() ==> #[trigger] v@[t] == residual(
                past_output(*d, out_buf@, lag as int, k as int),
                a@,
                t,
                d.lpc_order as int,
            ),
{
    proof {
        lemma_sizes(*d, k as int);
    }
    let start: usize = (d.ltp_mem_length - lag - d.lpc_order - 2) as usize;
    let from: usize = start + k * d.subfr_length as usize;
    let input: &[i16] = vstd::slice::slice_subrange(
        vstd::array::array_as_slice(out_buf),
        from,
        480,
    );
    assert(input@ =~= past_output(*d, out_buf@, lag as int, k as int));
    silk_lpc_analysis_filter(input, a, (lag + d.lpc_order + 2) as usize, d.lpc_order as usize)
}

fn prepare_past(
    d: &SilkDecoderState,
    core: &mut Core,
    xq: &[i16],
    p: &Subframe,
    k: usize,
)
    requires
        configured(*d),
        k < d.nb_subfr <= 4,
        p.voiced,
        lag_fits(*d, p.lag as int),
        p.gain > 0,
        old(core).prev_gain > i32::MIN,
        old(core).ltp@.len() == d.ltp_mem_length + d.frame_length,
        d.frame_length <= xq@.len(),
    ensures
        final(core).out_buf@ == output_before(*d, old(core).view_with(xq@), p.plan(), k as int),
        final(core).ltp@ == past_before(*d, old(core).view_with(xq@), p.plan(), k as int),
        final(core).ltp@.len() == old(core).ltp@.len(),
        final(core).lpc == old(core).lpc,
        final(core).prev_gain == old(core).prev_gain,
{
    let ghost st = core.view_with(xq@);
    let ghost ready = past_before(*d, st, p.plan(), k as int);
    proof {
        lemma_sizes(*d, k as int);
        reveal(ready_past);
    }
    let idx: usize = d.ltp_mem_length as usize + k * d.subfr_length as usize;
    let reach: usize = p.lag as usize + 2;
    if k == 0 || (k == 2 && d.indices.nlsf_interp_coef_q2 < 4) {
        if k == 2 {
            core.out_buf = extend_output(d, &core.out_buf, xq);
        }
        assert(core.out_buf@ == output_before(*d, st, p.plan(), k as int));
        let filtered: Vec<i16> = filter_past(d, &core.out_buf, p.a, p.lag, k);
        let mut inv: i32 = silk_inverse32_varq(p.gain, 47);
        if k == 0 {
            inv = silk_lshift(silk_smulwb(inv, p.ltp_scale_q14), 2);
        }
        assert(inv == past_scale(p.gain as int, p.ltp_scale_q14 as int, k as int));
        let total: usize = filtered.len();
        let mut i: usize = 0;
        while i < reach
            invariant
                i <= reach == p.lag + 2,
                lag_fits(*d, p.lag as int),
                configured(*d),
                reach <= total == filtered@.len(),
                total == p.lag + d.lpc_order + 2,
                d.ltp_mem_length <= idx == d.ltp_mem_length + k * d.subfr_length,
                idx <= core.ltp@.len(),
                core.ltp@.len() == st.ltp.len(),
                core.lpc == old(core).lpc,
                core.prev_gain == old(core).prev_gain,
                core.out_buf@ == output_before(*d, st, p.plan(), k as int),
                rewhitens(*d, k as int),
                inv == past_scale(p.gain as int, p.ltp_scale_q14 as int, k as int),
                p.voiced,
                ready == past_before(*d, st, p.plan(), k as int),
                forall|t: int|
                    0 <= t < total ==> #[trigger] filtered@[t] == residual(
                        past_output(*d, core.out_buf@, p.lag as int, k as int),
                        p.a@,
                        t,
                        d.lpc_order as int,
                    ),
                forall|j: int|
                    0 <= j < st.ltp.len() ==> #[trigger] core.ltp@[j] == if idx - i <= j < idx {
                        ready[j]
                    } else {
                        st.ltp[j]
                    },
            decreases reach - i,
        {
            reveal(ready_past);
            let t: usize = total - 1 - i;
            let at: usize = idx - 1 - i;
            assert(t == d.ltp_mem_length - (idx - at) - past_start(*d, p.lag as int));
            core.ltp.set(at, silk_smulwb(inv, filtered[t] as i32));
            i += 1;
        }
    } else {
        let ghost out = core.out_buf@;
        if p.gain != core.prev_gain {
            let step: i32 = silk_div32_varq(core.prev_gain, p.gain, 16);
            if step != 0x1_0000 {
                let mut i: usize = 0;
                while i < reach
                    invariant
                        i <= reach == p.lag + 2,
                        reach <= idx == d.ltp_mem_length + k * d.subfr_length,
                        idx <= core.ltp@.len(),
                        core.ltp@.len() == st.ltp.len(),
                        core.lpc == old(core).lpc,
                        core.prev_gain == old(core).prev_gain,
                        core.out_buf == old(core).out_buf,
                        !rewhitens(*d, k as int),
                        step == gain_step(st.prev_gain, p.gain as int),
                        step != 0x1_0000,
                        p.voiced,
                        ready == past_before(*d, st, p.plan(), k as int),
                        forall|j: int|
                            0 <= j < st.ltp.len() ==> #[trigger] core.ltp@[j] == if idx - i <= j
                                < idx {
                                ready[j]
                            } else {
                                st.ltp[j]
                            },
                    decreases reach - i,
                {
                    reveal(ready_past);
                    let at: usize = idx - 1 - i;
                    let v: i32 = core.ltp[at];
                    core.ltp.set(at, silk_smulww(step, v));
                    i += 1;
                }
            }
        }
    }
    assert(core.ltp@ =~= ready);
}

fn apply_taps(ltp: &Vec<i32>, at: usize, taps: &[i16; 5]) -> (r: i32)
    requires
        4 <= at < ltp@.len(),
    ensures
        r == long_term(ltp@, at as int, taps@, 5),
{
    let mut r: i32 = 2;
    let mut j: usize = 0;
    while j < 5
        invariant
            j <= 5,
            4 <= at < ltp@.len(),
            r == long_term(ltp@, at as int, taps@, j as int),
        decreases 5 - j,
    {
        r = silk_smlawb(r, ltp[at - j], taps[j] as i32);
        j += 1;
    }
    r
}

fn run_voiced(
    ltp: &mut Vec<i32>,
    exc: &[i32; 320],
    from: usize,
    idx: usize,
    lag: usize,
    taps: &[i16; 5],
    n: usize,
) -> (res: Vec<i32>)
    requires
        from + n <= 320,
        2 <= lag,
        lag + 2 <= idx,
        idx + n <= old(ltp)@.len(),
        old(ltp)@.len() <= 1000,
    ensures
        final(ltp)@ == voiced_run(
            old(ltp)@,
            exc@,
            from as int,
            idx as int,
            lag as int,
            taps@,
            n as int,
        ),
        final(ltp)@.len() == old(ltp)@.len(),
        res@ == voiced_residual(
            old(ltp)@,
            exc@,
            from as int,
            idx as int,
            lag as int,
            taps@,
            n as int,
        ),
{
    let ghost before = ltp@;
    let ghost whole = voiced_residual(
        before,
        exc@,
        from as int,
        idx as int,
        lag as int,
        taps@,
        n as int,
    );
    let mut res: Vec<i32> = Vec::with_capacity(n);
    let mut i: usize = 0;
    while i < n
        invariant
            i <= n,
            from + n <= 320,
            2 <= lag,
            lag + 2 <= idx,
            idx + n <= ltp@.len() <= 1000,
            ltp@.len() == before.len(),
            ltp@ == voiced_run(
                before,
                exc@,
                from as int,
                idx as int,
                lag as int,
                taps@,
                i as int,
            ),
            whole == voiced_residual(
                before,
                exc@,
                from as int,
                idx as int,
                lag as int,
                taps@,
                n as int,
            ),
            res@.len() == i,
            forall|j: int| 0 <= j < i ==> #[trigger] res@[j] == whole[j],
        decreases n - i,
    {
        let p: i32 = apply_taps(ltp, idx - lag + 2 + i, taps);
        let v: i32 = silk_add_lshift32(exc[from + i], p, 1);
        res.push(v);
        ltp.set(idx + i, silk_lshift(v, 1));
        i += 1;
    }
    assert(res@ =~= whole);
    res
}

fn scale_history(lpc: &[i32; 16], prev: i32, gain: i32) -> (r: [i32; 16])
    requires
        gain > 0,
        prev > i32::MIN,
    ensures
        r@ == scaled_history(lpc@, prev as int, gain as int),
{
    let mut r: [i32; 16] = *lpc;
    if gain != prev {
        let step: i32 = silk_div32_varq(prev, gain, 16);
        let mut i: usize = 0;
        while i < 16
            invariant
                i <= 16,
                step == gain_step(prev as int, gain as int),
                forall|j: int|
                    0 <= j < 16 ==> #[trigger] r@[j] == if j < i {
                        smulww(step as int, lpc@[j] as int) as i32
                    } else {
                        lpc@[j]
                    },
            decreases 16 - i,
        {
            r[i] = silk_smulww(step, r[i]);
            i += 1;
        }
    }
    assert(r@ =~= scaled_history(lpc@, prev as int, gain as int));
    r
}

fn stack(lpc: &[i32; 16], res: &Vec<i32>) -> (v: Vec<i32>)
    ensures
        v@ == lpc@ + res@,
{
    let mut v: Vec<i32> = Vec::with_capacity(16);
    let mut i: usize = 0;
    while i < 16
        invariant
            i <= 16,
            v@ == lpc@.take(i as int),
        decreases 16 - i,
    {
        v.push(lpc[i]);
        i += 1;
        assert(v@ =~= lpc@.take(i as int));
    }
    assert(v@ =~= lpc@ + res@.take(0));
    let mut j: usize = 0;
    while j < res.len()
        invariant
            j <= res@.len(),
            v@ == lpc@ + res@.take(j as int),
        decreases res@.len() - j,
    {
        v.push(res[j]);
        j += 1;
        assert(v@ =~= lpc@ + res@.take(j as int));
    }
    assert(res@.take(res@.len() as int) =~= res@);
    v
}

fn unvoiced_residual(exc: &[i32; 320], from: usize, n: usize) -> (res: Vec<i32>)
    requires
        from + n <= 320,
    ensures
        res@ == exc@.subrange(from as int, from + n),
{
    let part: &[i32] = vstd::slice::slice_subrange(
        vstd::array::array_as_slice(exc),
        from,
        from + n,
    );
    vstd::slice::slice_to_vec(part)
}

fn write_subframe(y: &Vec<i32>, gain: i32, from: usize, n: usize, xq: &mut [i16])
    requires
        y@.len() == 16 + n,
        n <= 80,
        from + n <= old(xq)@.len(),
        from <= 240,
    ensures
        final(xq)@ == Seq::new(
            old(xq)@.len(),
            |i: int|
                if from <= i < from + n {
                    scaled_sample(y@[16 + i - from] as int, rshift(gain as int, 6)) as i16
                } else {
                    old(xq)@[i]
                },
        ),
{
    let ghost before = xq@;
    let gain_q10: i32 = silk_rshift(gain, 6);
    let mut i: usize = 0;
    while i < n
        invariant
            i <= n <= 80,
            y@.len() == 16 + n,
            from + n <= xq@.len(),
            from <= 240,
            gain_q10 == rshift(gain as int, 6),
            xq@.len() == before.len(),
            forall|j: int|
                0 <= j < xq@.len() ==> #[trigger] xq@[j] == if from <= j < from + i {
                    scaled_sample(y@[16 + j - from] as int, gain_q10 as int) as i16
                } else {
                    before[j]
                },
        decreases n - i,
    {
        xq[from + i] = scale_sample(y[16 + i], gain_q10);
        i += 1;
    }
    assert(xq@ =~= Seq::new(
        before.len(),
        |i: int|
            if from <= i < from + n {
                scaled_sample(y@[16 + i - from] as int, rshift(gain as int, 6)) as i16
            } else {
                before[i]
            },
    ));
}

fn history_of(y: &Vec<i32>, n: usize) -> (h: [i32; 16])
    requires
        y@.len() == 16 + n,
        n <= 80,
    ensures
        h@ == y@.subrange(n as int, n + 16),
{
    let mut h: [i32; 16] = [0; 16];
    let mut i: usize = 0;
    while i < 16
        invariant
            i <= 16,
            n <= 80,
            y@.len() == 16 + n,
            forall|j: int| 0 <= j < i ==> #[trigger] h@[j] == y@[n + j],
        decreases 16 - i,
    {
        h[i] = y[n + i];
        i += 1;
    }
    assert(h@ =~= y@.subrange(n as int, n + 16));
    h
}

fn run_subframe(
    d: &SilkDecoderState,
    p: &Subframe,
    exc: &[i32; 320],
    k: usize,
    core: &mut Core,
    xq: &mut [i16],
)
    requires
        configured(*d),
        k < d.nb_subfr <= 4,
        p.voiced ==> lag_fits(*d, p.lag as int),
        p.gain > 0,
        old(core).prev_gain > i32::MIN,
        old(core).ltp@.len() == d.ltp_mem_length + d.frame_length,
        d.frame_length <= old(xq)@.len(),
    ensures
        final(xq)@.len() == old(xq)@.len(),
        final(core).ltp@.len() == old(core).ltp@.len(),
        final(core).prev_gain == p.gain,
        final(core).view_with(final(xq)@) == core_step(
            *d,
            old(core).view_with(old(xq)@),
            p.plan(),
            exc@,
            k as int,
        ),
{
    let ghost st = core.view_with(xq@);
    proof {
        lemma_sizes(*d, k as int);
        reveal(core_step);
    }
    let n: usize = d.subfr_length as usize;
    let from: usize = k * n;
    let idx: usize = d.ltp_mem_length as usize + from;
    let res: Vec<i32> = if p.voiced {
        prepare_past(d, core, xq, p, k);
        run_voiced(&mut core.ltp, exc, from, idx, p.lag as usize, &p.taps, n)
    } else {
        unvoiced_residual(exc, from, n)
    };
    assert(res@ == subframe_residual(*d, st, p.plan(), exc@, k as int));
    assert(res@.len() == n);
    let history: [i32; 16] = scale_history(&core.lpc, core.prev_gain, p.gain);
    let mut y: Vec<i32> = stack(&history, &res);
    lpc_synthesis(&mut y, 16, p.a, d.lpc_order as usize, n);
    assert(y@ == subframe_synthesis(*d, st, p.plan(), exc@, k as int));
    write_subframe(&y, p.gain, from, n, xq);
    core.lpc = history_of(&y, n);
    core.prev_gain = p.gain;
    assert(core.view_with(xq@) =~= core_step(*d, st, p.plan(), exc@, k as int));
}

/// Whether a frame's parameters can be decoded with.
pub open spec fn control_valid(d: SilkDecoderState, c: SilkDecoderControl) -> bool {
    &&& forall|k: int| 0 <= k < d.nb_subfr ==> #[trigger] c.gains_q16@[k] > 0
    &&& forall|k: int|
        0 <= k < d.nb_subfr && is_voiced(d, k) ==> lag_fits(
            d,
            #[trigger] lag_of(d, c.pitch_l@, k),
        )
}

/// See [`control_valid`].
pub fn control_is_valid(d: &SilkDecoderState, c: &SilkDecoderControl) -> (b: bool)
    requires
        d.nb_subfr <= 4,
    ensures
        b == control_valid(*d, *c),
{
    let mut k: usize = 0;
    while (k as i32) < d.nb_subfr
        invariant
            k <= 4,
            k <= d.nb_subfr || k == 0,
            d.nb_subfr <= 4,
            forall|j: int| 0 <= j < k ==> #[trigger] c.gains_q16@[j] > 0,
            forall|j: int|
                0 <= j < k && is_voiced(*d, j) ==> lag_fits(
                    *d,
                    #[trigger] lag_of(*d, c.pitch_l@, j),
                ),
        decreases 4 - k,
    {
        if c.gains_q16[k] <= 0 {
            assert(!(c.gains_q16@[k as int] > 0));
            return false;
        }
        let bridge: bool = transition_of(d, k);
        if bridge || d.indices.signal_type == 2 {
            let lag: i32 = if bridge {
                d.lag_prev
            } else {
                c.pitch_l[k]
            };
            assert(lag == lag_of(*d, c.pitch_l@, k as int));
            if lag < 2 || lag as i64 + d.lpc_order as i64 + 2 >= d.ltp_mem_length as i64 {
                return false;
            }
        }
        k += 1;
    }
    true
}

/// The pitch lags and the taps of a frame, those of a transition put in place.
pub open spec fn bridged(
    d: SilkDecoderState,
    c: SilkDecoderControl,
    next: SilkDecoderControl,
) -> bool {
    &&& next.gains_q16 == c.gains_q16
    &&& next.pred_coef_q12 == c.pred_coef_q12
    &&& next.ltp_scale_q14 == c.ltp_scale_q14
    &&& forall|k: int|
        0 <= k < 4 ==> #[trigger] next.pitch_l@[k] == if k < d.nb_subfr {
            lag_of(d, c.pitch_l@, k)
        } else {
            c.pitch_l@[k] as int
        }
    &&& forall|i: int|
        0 <= i < 20 ==> #[trigger] next.ltp_coef_q14@[i] == if i / 5 < d.nb_subfr {
            taps_of(d, c.ltp_coef_q14@, i / 5)[i % 5]
        } else {
            c.ltp_coef_q14@[i]
        }
}

fn bridge(d: &SilkDecoderState, c: &mut SilkDecoderControl)
    requires
        d.nb_subfr == 2 || d.nb_subfr == 4,
    ensures
        bridged(*d, *old(c), *final(c)),
{
    if transition_of(d, 0) {
        let mut pitch: [i32; 4] = c.pitch_l;
        pitch[0] = d.lag_prev;
        pitch[1] = d.lag_prev;
        c.pitch_l = pitch;
        let mut taps: [i16; 20] = c.ltp_coef_q14;
        let mut i: usize = 0;
        while i < 10
            invariant
                i <= 10,
                forall|j: int|
                    0 <= j < 20 ==> #[trigger] taps@[j] == if j < i {
                        if j % 5 == 2 {
                            4096i16
                        } else {
                            0
                        }
                    } else {
                        c.ltp_coef_q14@[j]
                    },
            decreases 10 - i,
        {
            taps[i] = if i % 5 == 2 {
                4096
            } else {
                0
            };
            i += 1;
        }
        c.ltp_coef_q14 = taps;
    }
    assert forall|i: int| 0 <= i < 20 && i / 5 < d.nb_subfr implies #[trigger] c.ltp_coef_q14@[i]
        == taps_of(*d, old(c).ltp_coef_q14@, i / 5)[i % 5] by {
        assert(5 * (i / 5) + i % 5 == i);
    }
}

/// What synthesis of a frame does to the decoder, the parameters and `xq`.
#[verifier::opaque]
pub open spec fn core_result(
    d: SilkDecoderState,
    c: SilkDecoderControl,
    pulses: Seq<i16>,
    xq: Seq<i16>,
    next: SilkDecoderState,
    next_c: SilkDecoderControl,
    out: Seq<i16>,
) -> bool {
    let exc = frame_excitation(d, pulses);
    let end = core_run(d, c, exc, core_start(d, xq), d.nb_subfr as int);
    &&& next.exc_q14@ == exc
    &&& next.s_lpc_q14_buf@ == end.lpc
    &&& next.out_buf@ == end.out_buf
    &&& next.prev_gain_q16 == end.prev_gain
    &&& out == end.xq
    &&& next == (SilkDecoderState {
        exc_q14: next.exc_q14,
        s_lpc_q14_buf: next.s_lpc_q14_buf,
        out_buf: next.out_buf,
        prev_gain_q16: next.prev_gain_q16,
        ..d
    })
    &&& bridged(d, c, next_c)
}

/// Synthesize a frame from its pulses and its parameters into `xq`.
pub fn silk_decode_core(
    ps_dec: &mut SilkDecoderState,
    ps_dec_ctrl: &mut SilkDecoderControl,
    xq: &mut [i16],
    pulses: &[i16],
)
    requires
        configured(*old(ps_dec)),
        old(ps_dec).nb_subfr == 2 || old(ps_dec).nb_subfr == 4,
        0 <= old(ps_dec).indices.signal_type <= 2,
        0 <= old(ps_dec).indices.quant_offset_type <= 1,
        old(ps_dec).prev_gain_q16 > i32::MIN,
        control_valid(*old(ps_dec), *old(ps_dec_ctrl)),
        old(ps_dec).frame_length <= old(xq)@.len(),
        old(ps_dec).frame_length <= pulses@.len(),
    ensures
        core_result(
            *old(ps_dec),
            *old(ps_dec_ctrl),
            pulses@,
            old(xq)@,
            *final(ps_dec),
            *final(ps_dec_ctrl),
            final(xq)@,
        ),
        final(xq)@.len() == old(xq)@.len(),
        final(ps_dec).prev_gain_q16 > 0,
        *final(ps_dec) == (SilkDecoderState {
            exc_q14: final(ps_dec).exc_q14,
            s_lpc_q14_buf: final(ps_dec).s_lpc_q14_buf,
            out_buf: final(ps_dec).out_buf,
            prev_gain_q16: final(ps_dec).prev_gain_q16,
            ..*old(ps_dec)
        }),
        bridged(*old(ps_dec), *old(ps_dec_ctrl), *final(ps_dec_ctrl)),
{
    reveal(core_result);
    let ghost d = *ps_dec;
    let ghost c = *ps_dec_ctrl;
    let ghost start = core_start(d, xq@);
    proof {
        lemma_sizes(d, 0);
    }
    let exc: [i32; 320] = excite(ps_dec, pulses);
    let nb: usize = ps_dec.nb_subfr as usize;
    let mut core: Core = Core {
        lpc: ps_dec.s_lpc_q14_buf,
        ltp: vec![0i32; (ps_dec.ltp_mem_length + ps_dec.frame_length) as usize],
        out_buf: ps_dec.out_buf,
        prev_gain: ps_dec.prev_gain_q16,
    };
    assert(core.view_with(xq@) =~= start);
    let mut k: usize = 0;
    while k < nb
        invariant
            k <= nb == d.nb_subfr,
            nb == 2 || nb == 4,
            *ps_dec == d,
            *ps_dec_ctrl == c,
            configured(d),
            control_valid(d, c),
            core.prev_gain > i32::MIN,
            k > 0 ==> core.prev_gain > 0,
            core.ltp@.len() == d.ltp_mem_length + d.frame_length,
            xq@.len() == old(xq)@.len(),
            d.frame_length <= xq@.len(),
            core.view_with(xq@) == core_run(d, c, exc@, start, k as int),
        decreases nb - k,
    {
        let p: Subframe = plan_subframe(ps_dec, ps_dec_ctrl, k);
        assert(c.gains_q16@[k as int] > 0);
        proof {
            if p.voiced {
                assert(lag_fits(d, lag_of(d, c.pitch_l@, k as int)));
            }
        }
        run_subframe(ps_dec, &p, &exc, k, &mut core, xq);
        k += 1;
    }
    bridge(ps_dec, ps_dec_ctrl);
    ps_dec.exc_q14 = exc;
    ps_dec.s_lpc_q14_buf = core.lpc;
    ps_dec.out_buf = core.out_buf;
    ps_dec.prev_gain_q16 = core.prev_gain;
}

} // verus!
