//! What resampling keeps: the order of time, the signal across calls, levels
//! and straight lines.

use vstd::prelude::*;

use crate::silk::macros::{abs, is_word, lemma_wrap_is_word, rshift_round, sat16, smlawb, smulwb};
use crate::silk::resampler::{
    batch_buf, batch_len, batch_next, chain_next, chain_out, doubled, doubled_next, even_chain,
    fir12_sum, first_chain, interpolated, interpolation, lemma_batch_duration, lemma_overlay_twice,
    mode_between, odd_chain, overlaid, resampled, resampled_next, second_chain, section_next,
    section_out, steep_next, steep_out, step_between, up2_sample, Chain, ResamplerMode,
    ResamplerView, UpState, FIR_COEFS_12_8,
};

verus! {

// ---------------------------------------------------------------------------
// Twice the rate
// ---------------------------------------------------------------------------
/// Whether the filters of a chain hold words.
pub open spec fn holds_words(h: Chain) -> bool {
    is_word(h.a) && is_word(h.b) && is_word(h.c)
}

proof fn lemma_chain_of_prefix(h: Chain, x: Seq<i16>, z: Seq<i16>, n: int)
    requires
        forall|i: int| 0 <= i < n ==> #[trigger] x[i] == z[i],
    ensures
        even_chain(h, x, n) == even_chain(h, z, n),
        odd_chain(h, x, n) == odd_chain(h, z, n),
    decreases n,
{
    if n > 0 {
        lemma_chain_of_prefix(h, x, z, n - 1);
        assert(x[n - 1] == z[n - 1]);
    }
}

proof fn lemma_chain_in_two(h: Chain, g: Chain, p: Seq<i16>, q: Seq<i16>, n: int)
    requires
        0 <= n <= q.len(),
    ensures
        even_chain(h, p + q, p.len() + n) == even_chain(even_chain(h, p, p.len() as int), q, n),
        odd_chain(g, p + q, p.len() + n) == odd_chain(odd_chain(g, p, p.len() as int), q, n),
    decreases n,
{
    if n == 0 {
        lemma_chain_of_prefix(h, p + q, p, p.len() as int);
        lemma_chain_of_prefix(g, p + q, p, p.len() as int);
    } else {
        lemma_chain_in_two(h, g, p, q, n - 1);
        assert((p + q)[p.len() + n - 1] == q[n - 1]);
    }
}

proof fn lemma_chain_holds_words(h: Chain, x: Seq<i16>, n: int)
    requires
        holds_words(h),
    ensures
        holds_words(even_chain(h, x, n)),
        holds_words(odd_chain(h, x, n)),
    decreases n,
{
    if n > 0 {
        reveal(chain_next);
    }
}

proof fn lemma_doubled_next_holds(iir: Seq<i32>, x: Seq<i16>)
    ensures
        first_chain(doubled_next(iir, x)) == even_chain(first_chain(iir), x, x.len() as int),
        second_chain(doubled_next(iir, x)) == odd_chain(second_chain(iir), x, x.len() as int),
{
    lemma_chain_holds_words(first_chain(iir), x, x.len() as int);
    lemma_chain_holds_words(second_chain(iir), x, x.len() as int);
}

/// Doubling the rate in two calls gives the same samples as in one, and leaves
/// the same filters.
pub proof fn law_doubling_has_no_seams(iir: Seq<i32>, p: Seq<i16>, q: Seq<i16>)
    ensures
        doubled(iir, p + q) == doubled(iir, p) + doubled(doubled_next(iir, p), q),
        doubled_next(iir, p + q) == doubled_next(doubled_next(iir, p), q),
{
    let n = p.len() as int;
    let mid = doubled_next(iir, p);
    lemma_doubled_next_holds(iir, p);
    assert forall|i: int| 0 <= i < 2 * n + 2 * q.len() implies #[trigger] doubled(iir, p + q)[i]
        == (doubled(iir, p) + doubled(mid, q))[i] by {
        let k = i / 2;
        if k < n {
            lemma_chain_of_prefix(first_chain(iir), p + q, p, k);
            lemma_chain_of_prefix(second_chain(iir), p + q, p, k);
            assert((p + q)[k] == p[k]);
            assert(up2_sample(iir, p + q, i) == up2_sample(iir, p, i));
        } else {
            let j = i - 2 * n;
            assert(j / 2 == k - n && j % 2 == i % 2);
            lemma_chain_in_two(first_chain(iir), second_chain(iir), p, q, k - n);
            assert((p + q)[k] == q[k - n]);
            assert(up2_sample(iir, p + q, i) == up2_sample(mid, q, j));
        }
    }
    assert(doubled(iir, p + q) =~= doubled(iir, p) + doubled(mid, q));
    lemma_chain_in_two(first_chain(iir), second_chain(iir), p, q, q.len() as int);
}

/// A sample at twice the rate rests on the input up to its own time and on
/// nothing behind it.
pub proof fn law_doubling_keeps_the_order_of_time(
    iir: Seq<i32>,
    x: Seq<i16>,
    z: Seq<i16>,
    k: int,
)
    requires
        x.len() == z.len(),
        0 <= k < 2 * x.len(),
        forall|i: int| 0 <= 2 * i <= k ==> #[trigger] x[i] == z[i],
    ensures
        forall|j: int| 0 <= j <= k ==> #[trigger] doubled(iir, x)[j] == doubled(iir, z)[j],
{
    assert forall|j: int| 0 <= j <= k implies #[trigger] doubled(iir, x)[j] == doubled(
        iir,
        z,
    )[j] by {
        let n = j / 2;
        lemma_chain_of_prefix(first_chain(iir), x, z, n);
        lemma_chain_of_prefix(second_chain(iir), x, z, n);
        assert(x[n] == z[n]);
        assert(up2_sample(iir, x, j) == up2_sample(iir, z, j));
    }
}

// ---------------------------------------------------------------------------
// Fractions of the rate
// ---------------------------------------------------------------------------
/// Rates, in kHz, between which the signal is doubled and interpolated.
pub open spec fn is_fraction(fs_in: int, fs_out: int) -> bool {
    &&& fs_in == 8 || fs_in == 12 || fs_in == 16
    &&& fs_out == 8 || fs_out == 12 || fs_out == 16 || fs_out == 24 || fs_out == 48
    &&& fs_out != fs_in
    &&& fs_out != 2 * fs_in
}

/// The signal at time `k` of the output rate, out of the signal at twice the
/// input rate behind its last eight samples.
pub open spec fn at_time(buf: Seq<i16>, k: int, fs_in: int, fs_out: int) -> int {
    let whole = 2 * fs_in * k / fs_out;
    let twelfths = 2 * fs_in * k % fs_out * 12 / fs_out;
    sat16(rshift_round(fir12_sum(buf, whole, twelfths, 8), 15))
}

/// A whole number of milliseconds brought to the output rate, with no batches.
pub open spec fn in_one_piece(st: UpState, x: Seq<i16>, fs_in: int, fs_out: int) -> Seq<i16> {
    Seq::new(
        (x.len() as int / fs_in * fs_out) as nat,
        |k: int| at_time(batch_buf(st, x), k, fs_in, fs_out) as i16,
    )
}

proof fn lemma_steps(fs_in: int, fs_out: int)
    requires
        is_fraction(fs_in, fs_out),
    ensures
        mode_between(fs_in * 1000, fs_out * 1000) is IirFir,
        ({
            let inc = step_between(fs_in * 1000, fs_out * 1000);
            ||| inc == 87382 && 3 * fs_in == 2 * fs_out
            ||| inc == 43691 && 3 * fs_in == fs_out
            ||| inc == 21846 && 6 * fs_in == fs_out
            ||| inc == 196608 && 2 * fs_in == 3 * fs_out
            ||| inc == 98304 && 4 * fs_in == 3 * fs_out
            ||| inc == 32768 && 4 * fs_in == fs_out
            ||| inc == 262144 && fs_in == 2 * fs_out
            ||| inc == 174763 && 3 * fs_in == 4 * fs_out
        }),
{
    assert(step_between(8000, 12000) == 87382);
    assert(step_between(8000, 24000) == 43691);
    assert(step_between(8000, 48000) == 21846);
    assert(step_between(12000, 8000) == 196608);
    assert(step_between(12000, 16000) == 98304);
    assert(step_between(12000, 48000) == 32768);
    assert(step_between(16000, 8000) == 262144);
    assert(step_between(16000, 12000) == 174763);
    assert(step_between(16000, 24000) == 87382);
    assert(step_between(16000, 48000) == 43691);
    if fs_in == 8 {
        assert(fs_out == 12 || fs_out == 24 || fs_out == 48);
    } else if fs_in == 12 {
        assert(fs_out == 8 || fs_out == 16 || fs_out == 48);
    } else {
        assert(fs_out == 8 || fs_out == 12 || fs_out == 24 || fs_out == 48);
    }
}

proof fn lemma_thirds(k: int, num: int, a: int, b: int, inc: int)
    requires
        0 <= k < 480,
        num == 1 || num == 2 || num == 4 || num == 8,
        3 * a == num * b,
        b == 12 || b == 24 || b == 48,
        num == 1 ==> inc == 21846,
        num == 2 ==> inc == 43691,
        num == 4 ==> inc == 87382,
        num == 8 ==> inc == 174763,
    ensures
        inc * k / 0x1_0000 == a * k / b,
        inc * k % 0x1_0000 * 12 / 0x1_0000 == a * k % b * 12 / b,
{
    let q = k / 3;
    let r = k % 3;
    let d = 3 * inc - num * 0x1_0000;
    assert(0 <= d <= 2);
    assert(k == 3 * q + r && 0 <= q < 160 && 0 <= r <= 2);
    // Where the last third starts.
    let whole = num * q + num * r / 3;
    let rest = num * r % 3;
    assert(num * r == 0 || num * r == num || num * r == 2 * num) by (nonlinear_arith)
        requires
            0 <= r <= 2,
    ;
    assert(a * k == b * (num * q) + a * r && 3 * (a * r) == b * (num * r)) by (nonlinear_arith)
        requires
            3 * a == num * b,
            k == 3 * q + r,
    ;
    assert(b * (num * r) == b * (3 * (num * r / 3) + rest));
    assert(b * whole == b * (num * q) + b * (num * r / 3) && b * (3 * (num * r / 3) + rest) == 3 * (
    b * (num * r / 3)) + b * rest) by (nonlinear_arith)
        requires
            whole == num * q + num * r / 3,
    ;
    let third = b / 3;
    assert(b == 3 * third);
    assert(b * rest == 3 * (third * rest)) by (nonlinear_arith)
        requires
            b == 3 * third,
    ;
    assert(a * k == b * whole + third * rest);
    assert(0 <= third * rest < b && a * k / b == whole && a * k % b == third * rest)
        by (nonlinear_arith)
        requires
            a * k == b * whole + third * rest,
            b == 3 * third,
            third > 0,
            0 <= rest <= 2,
    ;
    assert(third * rest * 12 == b * (4 * rest)) by (nonlinear_arith)
        requires
            b == 3 * third,
    ;
    assert(b * (4 * rest) / b == 4 * rest) by (nonlinear_arith)
        requires
            b > 0,
    ;
    assert(inc * k == 0x1_0000 * (num * q) + d * q + inc * r) by (nonlinear_arith)
        requires
            d == 3 * inc - num * 0x1_0000,
            k == 3 * q + r,
    ;
    assert(0 <= d * q <= 318) by (nonlinear_arith)
        requires
            0 <= d <= 2,
            0 <= q < 160,
    ;
    let low = d * q;
    if num == 1 {
        assert(inc * r == 21846 * r);
    } else if num == 2 {
        assert(inc * r == 43691 * r);
    } else if num == 4 {
        assert(inc * r == 87382 * r);
    } else {
        assert(inc * r == 174763 * r);
    }
    assert(num * r / 3 * 0x1_0000 <= inc * r);
    assert(inc * k / 0x1_0000 == whole);
    assert(inc * k % 0x1_0000 * 12 / 0x1_0000 == 4 * rest);
}

proof fn lemma_halves(k: int, num: int, a: int, b: int, inc: int)
    requires
        k >= 0,
        num == 1 || num == 3 || num == 6 || num == 8,
        2 * a == num * b,
        b == 8 || b == 16 || b == 48,
        inc == num * 0x8000,
    ensures
        inc * k / 0x1_0000 == a * k / b,
        inc * k % 0x1_0000 * 12 / 0x1_0000 == a * k % b * 12 / b,
{
    let p = num * k;
    let q = p / 2;
    let r = p % 2;
    let half = b / 2;
    assert(b == 2 * half);
    assert(a * k == half * p) by (nonlinear_arith)
        requires
            2 * a == num * b,
            b == 2 * half,
            p == num * k,
    ;
    assert(half * p == b * q + half * r) by (nonlinear_arith)
        requires
            p == 2 * q + r,
            b == 2 * half,
    ;
    assert(a * k / b == q && a * k % b == half * r) by (nonlinear_arith)
        requires
            a * k == b * q + half * r,
            b == 2 * half,
            half > 0,
            0 <= r <= 1,
    ;
    assert(half * r * 12 == b * (6 * r)) by (nonlinear_arith)
        requires
            b == 2 * half,
    ;
    assert(b * (6 * r) / b == 6 * r) by (nonlinear_arith)
        requires
            b > 0,
    ;
    assert(inc * k == 0x8000 * p) by (nonlinear_arith)
        requires
            inc == num * 0x8000,
            p == num * k,
    ;
}

proof fn lemma_time(fs_in: int, fs_out: int, k: int)
    requires
        is_fraction(fs_in, fs_out),
        0 <= k < 480,
    ensures
        ({
            let at = k * step_between(fs_in * 1000, fs_out * 1000);
            &&& at / 0x1_0000 == 2 * fs_in * k / fs_out
            &&& at % 0x1_0000 * 12 / 0x1_0000 == 2 * fs_in * k % fs_out * 12 / fs_out
        }),
{
    lemma_steps(fs_in, fs_out);
    let inc = step_between(fs_in * 1000, fs_out * 1000);
    assert(k * inc == inc * k) by (nonlinear_arith);
    assert(2 * fs_in * k == 2 * (fs_in * k)) by (nonlinear_arith);
    if fs_in == 8 {
        assert(fs_in * k == 8 * k);
        if fs_out == 12 {
            lemma_thirds(k, 4, 16, 12, 87382);
        } else if fs_out == 24 {
            lemma_thirds(k, 2, 16, 24, 43691);
        } else {
            lemma_thirds(k, 1, 16, 48, 21846);
        }
    } else if fs_in == 12 {
        assert(fs_in * k == 12 * k);
        if fs_out == 8 {
            lemma_halves(k, 6, 24, 8, 196608);
        } else if fs_out == 16 {
            lemma_halves(k, 3, 24, 16, 98304);
        } else {
            lemma_halves(k, 1, 24, 48, 32768);
        }
    } else {
        assert(fs_in * k == 16 * k);
        if fs_out == 8 {
            lemma_halves(k, 8, 32, 8, 262144);
        } else if fs_out == 12 {
            lemma_thirds(k, 8, 32, 12, 174763);
        } else if fs_out == 24 {
            lemma_thirds(k, 4, 32, 24, 87382);
        } else {
            lemma_thirds(k, 2, 32, 48, 43691);
        }
    }
}

proof fn lemma_taps_see_alike(x: Seq<i16>, b: int, z: Seq<i16>, c: int, t: int, n: int)
    requires
        forall|j: int| 0 <= j < n ==> #[trigger] x[b + j] == z[c + j],
    ensures
        fir12_sum(x, b, t, n) == fir12_sum(z, c, t, n),
    decreases n,
{
    if n > 0 {
        lemma_taps_see_alike(x, b, z, c, t, n - 1);
        assert(x[b + (n - 1)] == z[c + (n - 1)]);
    }
}

/// What a filter carries on from: its last eight samples, and six numbers.
pub open spec fn carries(st: UpState) -> bool {
    st.iir.len() == 6 && st.fir.len() == 8
}

proof fn lemma_milliseconds(ms: int, fs_in: int, fs_out: int)
    requires
        ms >= 0,
        fs_in > 0,
        fs_out > 0,
    ensures
        ms * fs_in / fs_in == ms,
        ms * fs_in >= 0,
        ms * fs_out >= 0,
        ms >= 1 ==> ms * fs_in >= fs_in && ms * fs_out >= fs_out,
{
    assert(ms * fs_in / fs_in == ms && ms * fs_in >= 0 && ms * fs_out >= 0 && (ms >= 1 ==> ms
        * fs_in >= fs_in && ms * fs_out >= fs_out)) by (nonlinear_arith)
        requires
            ms >= 0,
            fs_in > 0,
            fs_out > 0,
    ;
}

proof fn lemma_batch_in_one_piece(st: UpState, x: Seq<i16>, fs_in: int, fs_out: int, ms: int)
    requires
        is_fraction(fs_in, fs_out),
        0 <= ms <= 10,
        x.len() == ms * fs_in,
    ensures
        interpolation(
            batch_buf(st, x),
            x.len() as int,
            step_between(fs_in * 1000, fs_out * 1000),
        ) == in_one_piece(st, x, fs_in, fs_out),
{
    let inc = step_between(fs_in * 1000, fs_out * 1000);
    lemma_steps(fs_in, fs_out);
    lemma_batch_duration(fs_in, fs_out, ms);
    lemma_milliseconds(ms, fs_in, fs_out);
    assert(ms * fs_out <= 480) by (nonlinear_arith)
        requires
            0 <= ms <= 10,
            8 <= fs_out <= 48,
    ;
    let y = interpolation(batch_buf(st, x), x.len() as int, inc);
    let w = in_one_piece(st, x, fs_in, fs_out);
    assert forall|k: int| 0 <= k < ms * fs_out implies #[trigger] y[k] == w[k] by {
        lemma_time(fs_in, fs_out, k);
    }
    assert(y =~= w);
}

proof fn lemma_state_in_two(st: UpState, p: Seq<i16>, q: Seq<i16>)
    requires
        carries(st),
    ensures
        carries(batch_next(st, p)),
        batch_buf(st, p + q).take(2 * p.len() as int + 8) == batch_buf(st, p),
        batch_buf(st, p + q).skip(2 * p.len() as int) == batch_buf(batch_next(st, p), q),
        batch_next(st, p + q) == batch_next(batch_next(st, p), q),
{
    law_doubling_has_no_seams(st.iir, p, q);
    let n = 2 * p.len() as int;
    let all = batch_buf(st, p + q);
    assert(all =~= batch_buf(st, p) + doubled(doubled_next(st.iir, p), q));
    assert(all.take(n + 8) =~= batch_buf(st, p));
    assert(all.skip(n) =~= batch_buf(batch_next(st, p), q));
    assert(batch_next(st, p + q).fir =~= batch_next(batch_next(st, p), q).fir);
}

proof fn lemma_whole_time(fs_in: int, fs_out: int, a: int, j: int)
    requires
        fs_in > 0,
        fs_out > 0,
    ensures
        2 * fs_in * (a * fs_out + j) / fs_out == 2 * (a * fs_in) + 2 * fs_in * j / fs_out,
        2 * fs_in * (a * fs_out + j) % fs_out == 2 * fs_in * j % fs_out,
{
    let e = 2 * fs_in * j;
    let m = 2 * (a * fs_in);
    assert(2 * fs_in * (a * fs_out + j) == m * fs_out + e) by (nonlinear_arith)
        requires
            e == 2 * fs_in * j,
            m == 2 * (a * fs_in),
    ;
    let q = e / fs_out;
    let r = e % fs_out;
    vstd::arithmetic::div_mod::lemma_fundamental_div_mod(e, fs_out);
    assert(m * fs_out + e == (m + q) * fs_out + r) by (nonlinear_arith)
        requires
            e == fs_out * q + r,
    ;
    vstd::arithmetic::div_mod::lemma_fundamental_div_mod_converse(
        m * fs_out + e,
        fs_out,
        m + q,
        r,
    );
}

proof fn lemma_time_is_before(fs_in: int, fs_out: int, k: int)
    requires
        fs_in > 0,
        fs_out > 0,
        k >= 0,
    ensures
        0 <= 2 * fs_in * k / fs_out,
        (2 * fs_in * k / fs_out) * fs_out <= 2 * fs_in * k,
        forall|a: int| k < a * fs_out ==> 2 * fs_in * k / fs_out < 2 * #[trigger] (a * fs_in),
{
    let e = 2 * fs_in * k;
    assert(0 <= e / fs_out && (e / fs_out) * fs_out <= e) by (nonlinear_arith)
        requires
            e == 2 * fs_in * k,
            fs_in > 0,
            fs_out > 0,
            k >= 0,
    ;
    assert forall|a: int| k < a * fs_out implies e / fs_out < 2 * #[trigger] (a * fs_in) by {
        let w = e / fs_out;
        assert(w < 2 * (a * fs_in)) by (nonlinear_arith)
            requires
                w * fs_out <= 2 * fs_in * k,
                k < a * fs_out,
                fs_in > 0,
                fs_out > 0,
        ;
    }
}

#[verifier::spinoff_prover]
#[verifier::rlimit(60)]
proof fn lemma_piece_in_two(
    st: UpState,
    p: Seq<i16>,
    q: Seq<i16>,
    fs_in: int,
    fs_out: int,
    a: int,
    c: int,
)
    requires
        is_fraction(fs_in, fs_out),
        carries(st),
        a >= 0,
        c >= 0,
        p.len() == a * fs_in,
        q.len() == c * fs_in,
    ensures
        in_one_piece(st, p + q, fs_in, fs_out) == in_one_piece(st, p, fs_in, fs_out)
            + in_one_piece(batch_next(st, p), q, fs_in, fs_out),
{
    lemma_state_in_two(st, p, q);
    lemma_milliseconds(a, fs_in, fs_out);
    lemma_milliseconds(c, fs_in, fs_out);
    lemma_milliseconds(a + c, fs_in, fs_out);
    assert((a + c) * fs_in == a * fs_in + c * fs_in && (a + c) * fs_out == a * fs_out + c * fs_out)
        by (nonlinear_arith);
    let all = batch_buf(st, p + q);
    let first = batch_buf(st, p);
    let second = batch_buf(batch_next(st, p), q);
    let n = 2 * p.len() as int;
    let y = in_one_piece(st, p + q, fs_in, fs_out);
    let l = in_one_piece(st, p, fs_in, fs_out);
    let r = in_one_piece(batch_next(st, p), q, fs_in, fs_out);
    assert(y.len() == l.len() + r.len());
    assert forall|k: int| 0 <= k < y.len() implies #[trigger] y[k] == (l + r)[k] by {
        if k < a * fs_out {
            let w = 2 * fs_in * k / fs_out;
            let t = 2 * fs_in * k % fs_out * 12 / fs_out;
            lemma_time_is_before(fs_in, fs_out, k);
            assert(w < 2 * (a * fs_in));
            assert forall|j: int| 0 <= j < 8 implies #[trigger] all[w + j] == first[w + j] by {
                assert(all.take(n + 8)[w + j] == all[w + j]);
            }
            lemma_taps_see_alike(all, w, first, w, t, 8);
        } else {
            let i = k - a * fs_out;
            let w = 2 * fs_in * i / fs_out;
            let t = 2 * fs_in * i % fs_out * 12 / fs_out;
            lemma_whole_time(fs_in, fs_out, a, i);
            assert(a * fs_out + i == k);
            lemma_time_is_before(fs_in, fs_out, i);
            assert(w < 2 * (c * fs_in));
            assert(all.len() == n + second.len());
            assert forall|j: int| 0 <= j < 8 implies #[trigger] all[(n + w) + j] == second[w
                + j] by {
                assert(all.skip(n)[w + j] == all[n + w + j]);
            }
            lemma_taps_see_alike(all, n + w, second, w, t, 8);
        }
    }
    assert(y =~= l + r);
}

/// However a block of whole milliseconds is cut into batches, it is resampled as
/// in one piece: sample `k` of the output is the signal at the very time `k`.
pub proof fn law_batches_do_not_show(
    st: UpState,
    x: Seq<i16>,
    fs_in: int,
    fs_out: int,
    ms: int,
)
    requires
        is_fraction(fs_in, fs_out),
        carries(st),
        ms >= 0,
        x.len() == ms * fs_in,
    ensures
        resampled(st, x, 10 * fs_in, step_between(fs_in * 1000, fs_out * 1000)) == in_one_piece(
            st,
            x,
            fs_in,
            fs_out,
        ),
        resampled_next(st, x, 10 * fs_in) == batch_next(st, x),
    decreases ms,
{
    let inc = step_between(fs_in * 1000, fs_out * 1000);
    lemma_milliseconds(ms, fs_in, fs_out);
    if ms == 0 {
        assert(ms * fs_in == 0 && ms * fs_out == 0) by (nonlinear_arith)
            requires
                ms == 0,
        ;
        assert(in_one_piece(st, x, fs_in, fs_out) =~= Seq::<i16>::empty());
        assert(doubled_next(st.iir, x) =~= st.iir);
        assert(batch_next(st, x).fir =~= st.fir);
    } else {
        let m: int = if ms < 10 {
            ms
        } else {
            10
        };
        let n = batch_len(x, 10 * fs_in);
        assert(n == m * fs_in && (ms - m) * fs_in == ms * fs_in - m * fs_in) by (nonlinear_arith)
            requires
                ms >= 1,
                fs_in >= 8,
                m == (if ms < 10 {
                    ms
                } else {
                    10
                }),
                n == (if ms * fs_in < 10 * fs_in {
                    ms * fs_in
                } else {
                    10 * fs_in
                }),
        ;
        let p = x.take(n);
        let q = x.skip(n);
        assert(p + q =~= x);
        lemma_batch_in_one_piece(st, p, fs_in, fs_out, m);
        lemma_state_in_two(st, p, q);
        law_batches_do_not_show(batch_next(st, p), q, fs_in, fs_out, ms - m);
        lemma_piece_in_two(st, p, q, fs_in, fs_out, m, ms - m);
    }
}

// ---------------------------------------------------------------------------
// A resampler at work
// ---------------------------------------------------------------------------
/// A resampler at work between two of the listed rates.
pub open spec fn is_running(r: ResamplerView) -> bool {
    &&& r.fs_in_khz == 8 || r.fs_in_khz == 12 || r.fs_in_khz == 16
    &&& r.fs_out_khz == 8 || r.fs_out_khz == 12 || r.fs_out_khz == 16 || r.fs_out_khz == 24
        || r.fs_out_khz == 48
    &&& r.mode == if r.fs_out_khz == r.fs_in_khz {
        ResamplerMode::Copy
    } else if r.fs_out_khz == 2 * r.fs_in_khz {
        ResamplerMode::Up2HQ
    } else {
        ResamplerMode::IirFir
    }
    &&& r.mode is IirFir ==> r.inc == step_between(r.fs_in_khz * 1000, r.fs_out_khz * 1000)
    &&& r.batch == 10 * r.fs_in_khz
    &&& r.held.len() <= r.fs_in_khz
    &&& carries(r.up)
}

#[verifier::spinoff_prover]
#[verifier::rlimit(40)]
proof fn lemma_written(r: ResamplerView, out: Seq<i16>, x: Seq<i16>, ms: int)
    requires
        is_running(r),
        ms >= 1,
        x.len() == ms * r.fs_in_khz,
        out.len() >= ms * r.fs_out_khz,
    ensures
        r.delayed(x).len() == x.len(),
        forall|i: int|
            0 <= i < x.len() ==> #[trigger] r.delayed(x)[i] == if i < r.held.len() {
                r.held[i]
            } else {
                x[i - r.held.len()]
            },
        r.mode is IirFir ==> r.written(out, x) == overlaid(
            out,
            0,
            in_one_piece(r.up, r.delayed(x), r.fs_in_khz, r.fs_out_khz),
        ) && r.next(x).up == batch_next(r.up, r.delayed(x)),
        r.mode is IirFir ==> in_one_piece(
            r.up,
            r.delayed(x),
            r.fs_in_khz,
            r.fs_out_khz,
        ).len() == ms * r.fs_out_khz,
{
    lemma_milliseconds(ms, r.fs_in_khz, r.fs_out_khz);
    let d = r.delayed(x);
    assert(d.len() == x.len());
    if r.mode is IirFir {
        let i = r.fs_in_khz;
        let o = r.fs_out_khz;
        let p = d.take(i);
        let q = d.skip(i);
        assert(p + q =~= d);
        assert(i == 1 * i);
        assert((ms - 1) * i == ms * i - i) by (nonlinear_arith);
        law_batches_do_not_show(r.up, p, i, o, 1);
        lemma_state_in_two(r.up, p, q);
        law_batches_do_not_show(batch_next(r.up, p), q, i, o, ms - 1);
        lemma_piece_in_two(r.up, p, q, i, o, 1, ms - 1);
        lemma_milliseconds(1, i, o);
        lemma_overlay_twice(out, 0, r.first_part(x), r.second_part(x));
    }
}

/// Resampling keeps the order of time. Sample `k` of the output rests on the
/// input up to the time of `k` less the samples held back, and on nothing behind
/// it: whatever comes later, and whatever the room held before, the output up
/// to `k` stays the same.
#[verifier::spinoff_prover]
#[verifier::rlimit(60)]
pub proof fn law_resampling_keeps_the_order_of_time(
    r: ResamplerView,
    out: Seq<i16>,
    room: Seq<i16>,
    x: Seq<i16>,
    z: Seq<i16>,
    ms: int,
    k: int,
)
    requires
        is_running(r),
        ms >= 1,
        x.len() == ms * r.fs_in_khz,
        z.len() == x.len(),
        out.len() == ms * r.fs_out_khz,
        room.len() == out.len(),
        0 <= k < out.len(),
        forall|i: int|
            0 <= i < x.len() && (i + r.held.len()) * r.fs_out_khz <= k * r.fs_in_khz
                ==> #[trigger] x[i] == z[i],
    ensures
        forall|j: int|
            0 <= j <= k ==> #[trigger] r.written(out, x)[j] == r.written(room, z)[j],
{
    let i = r.fs_in_khz;
    let o = r.fs_out_khz;
    let h = r.held.len() as int;
    lemma_written(r, out, x, ms);
    lemma_written(r, room, z, ms);
    lemma_milliseconds(ms, i, o);
    let dx = r.delayed(x);
    let dz = r.delayed(z);
    assert forall|m: int| 0 <= m < dx.len() && m * o <= k * i implies #[trigger] dx[m]
        == dz[m] by {
        if m >= h {
            assert((m - h + h) * o == m * o);
            assert(x[m - h] == z[m - h]);
        }
    }
    assert forall|j: int| 0 <= j <= k implies #[trigger] r.written(out, x)[j] == r.written(
        room,
        z,
    )[j] by {
        match r.mode {
            ResamplerMode::Copy => {
                assert(j * o <= k * i) by (nonlinear_arith)
                    requires
                        o == i,
                        0 <= j <= k,
                        i > 0,
                ;
                assert(dx[j] == dz[j]);
            },
            ResamplerMode::Up2HQ => {
                assert(ms * o == 2 * (ms * i)) by (nonlinear_arith)
                    requires
                        o == 2 * i,
                ;
                assert forall|m: int| 0 <= 2 * m <= j implies #[trigger] dx[m] == dz[m] by {
                    assert(m * o <= k * i) by (nonlinear_arith)
                        requires
                            o == 2 * i,
                            2 * m <= j <= k,
                            i > 0,
                    ;
                }
                law_doubling_keeps_the_order_of_time(r.up.iir, dx, dz, j);
            },
            ResamplerMode::IirFir => {
                lemma_earlier(r.up, dx, dz, i, o, ms, j, k);
            },
        }
    }
}

proof fn lemma_earlier(
    st: UpState,
    dx: Seq<i16>,
    dz: Seq<i16>,
    i: int,
    o: int,
    ms: int,
    j: int,
    k: int,
)
    requires
        is_fraction(i, o),
        carries(st),
        ms >= 1,
        dx.len() == ms * i,
        dz.len() == dx.len(),
        0 <= j <= k < ms * o,
        forall|m: int| 0 <= m < dx.len() && m * o <= k * i ==> #[trigger] dx[m] == dz[m],
    ensures
        in_one_piece(st, dx, i, o)[j] == in_one_piece(st, dz, i, o)[j],
{
    lemma_milliseconds(ms, i, o);
    let w = 2 * i * j / o;
    let t = 2 * i * j % o * 12 / o;
    lemma_time_is_before(i, o, j);
    assert(w < 2 * (ms * i));
    let bx = batch_buf(st, dx);
    let bz = batch_buf(st, dz);
    if w >= 1 {
        assert forall|m: int| 0 <= 2 * m <= w - 1 implies #[trigger] dx[m] == dz[m] by {
            assert(m * o <= k * i) by (nonlinear_arith)
                requires
                    2 * m <= w - 1,
                    w * o <= 2 * i * j,
                    0 <= j <= k,
                    o > 0,
                    i > 0,
            ;
        }
        law_doubling_keeps_the_order_of_time(st.iir, dx, dz, w - 1);
    }
    assert forall|n: int| 0 <= n < 8 implies #[trigger] bx[w + n] == bz[w + n] by {
        if w + n >= 8 {
            assert(doubled(st.iir, dx)[w + n - 8] == doubled(st.iir, dz)[w + n - 8]);
        }
    }
    lemma_taps_see_alike(bx, w, bz, w, t, 8);
}

/// Resampling has no seams: a block in two calls gives the same samples as in
/// one, and leaves the same state.
#[verifier::spinoff_prover]
#[verifier::rlimit(60)]
pub proof fn law_resampling_has_no_seams(
    r: ResamplerView,
    out: Seq<i16>,
    first: Seq<i16>,
    second: Seq<i16>,
    p: Seq<i16>,
    q: Seq<i16>,
    a: int,
    c: int,
)
    requires
        is_running(r),
        a >= 1,
        c >= 1,
        p.len() == a * r.fs_in_khz,
        q.len() == c * r.fs_in_khz,
        first.len() == a * r.fs_out_khz,
        second.len() == c * r.fs_out_khz,
        out.len() == first.len() + second.len(),
    ensures
        is_running(r.next(p)),
        r.written(out, p + q) == r.written(first, p) + r.next(p).written(second, q),
        r.next(p + q) == r.next(p).next(q),
{
    let i = r.fs_in_khz;
    let o = r.fs_out_khz;
    let s = r.next(p);
    lemma_milliseconds(a, i, o);
    lemma_milliseconds(c, i, o);
    assert((a + c) * i == a * i + c * i && (a + c) * o == a * o + c * o) by (nonlinear_arith);
    lemma_written(r, first, p, a);
    lemma_written(r, out, p + q, a + c);
    let dp = r.delayed(p);
    let h = r.held.len() as int;
    assert(s.held.len() == h);
    let dq = s.held + q.take(q.len() - h);
    assert(dp.len() == p.len() && dq.len() == q.len());
    let whole = r.delayed(p + q);
    assert(whole =~= dp + dq) by {
        assert forall|n: int| 0 <= n < whole.len() implies whole[n] == (dp + dq)[n] by {
            if n < p.len() {
                assert((p + q)[n - h] == p[n - h] || n < h);
            } else if n < p.len() + h {
                assert(dq[n - p.len()] == s.held[n - p.len()]);
                assert((p + q)[n - h] == p[n - h]);
            } else {
                assert((p + q)[n - h] == q[n - h - p.len()]);
            }
        }
    }
    match r.mode {
        ResamplerMode::Copy => {
            lemma_written(s, second, q, c);
            assert(r.written(out, p + q) =~= r.written(first, p) + s.written(second, q));
        },
        ResamplerMode::Up2HQ => {
            assert(a * o == 2 * (a * i) && c * o == 2 * (c * i)) by (nonlinear_arith)
                requires
                    o == 2 * i,
            ;
            law_doubling_has_no_seams(r.up.iir, dp, dq);
            lemma_written(s, second, q, c);
            assert(r.written(out, p + q) =~= r.written(first, p) + s.written(second, q));
        },
        ResamplerMode::IirFir => {
            lemma_state_in_two(r.up, dp, dq);
            lemma_piece_in_two(r.up, dp, dq, i, o, a, c);
            lemma_written(s, second, q, c);
            assert(r.written(out, p + q) =~= r.written(first, p) + s.written(second, q));
        },
    }
    assert(r.next(p + q).held =~= s.next(q).held);
}

// ---------------------------------------------------------------------------
// Levels and straight lines
// ---------------------------------------------------------------------------
/// The sum of the first `n` taps of row `t`.
pub open spec fn taps_total(t: int, n: int) -> int
    decreases n,
{
    if n <= 0 {
        0
    } else {
        taps_total(t, n - 1) + FIR_COEFS_12_8@[t]@[n - 1]
    }
}

/// Their sum, each at its distance.
pub open spec fn taps_moment(t: int, n: int) -> int
    decreases n,
{
    if n <= 0 {
        0
    } else {
        taps_moment(t, n - 1) + (n - 1) * FIR_COEFS_12_8@[t]@[n - 1]
    }
}

/// The taps of row `t`, one by one.
spec fn row(t: int) -> Seq<int> {
    if t == 0 {
        seq![189int, -600, 617, 30567, 2996, -1375, 425, -46]
    } else if t == 1 {
        seq![117int, -159, -1070, 29704, 5784, -2143, 611, -71]
    } else if t == 2 {
        seq![52int, 221, -2392, 28276, 8798, -2865, 773, -91]
    } else if t == 3 {
        seq![-4int, 529, -3350, 26341, 11950, -3487, 896, -103]
    } else if t == 4 {
        seq![-48int, 758, -3956, 23973, 15143, -3957, 967, -107]
    } else if t == 5 {
        seq![-80int, 905, -4235, 21254, 18278, -4222, 972, -99]
    } else if t == 6 {
        seq![-99int, 972, -4222, 18278, 21254, -4235, 905, -80]
    } else if t == 7 {
        seq![-107int, 967, -3957, 15143, 23973, -3956, 758, -48]
    } else if t == 8 {
        seq![-103int, 896, -3487, 11950, 26341, -3350, 529, -4]
    } else if t == 9 {
        seq![-91int, 773, -2865, 8798, 28276, -2392, 221, 52]
    } else if t == 10 {
        seq![-71int, 611, -2143, 5784, 29704, -1070, -159, 117]
    } else {
        seq![-46int, 425, -1375, 2996, 30567, 617, -600, 189]
    }
}

#[verifier::spinoff_prover]
#[verifier::rlimit(40)]
proof fn lemma_row(t: int)
    requires
        0 <= t < 12,
    ensures
        forall|j: int| 0 <= j < 8 ==> #[trigger] FIR_COEFS_12_8@[t]@[j] == row(t)[j],
{
    if t == 0 {
        let r = FIR_COEFS_12_8@[0]@;
        assert(r[0] == 189 && r[1] == -600 && r[2] == 617 && r[3] == 30567);
        assert(r[4] == 2996 && r[5] == -1375 && r[6] == 425 && r[7] == -46);
    } else if t == 1 {
        let r = FIR_COEFS_12_8@[1]@;
        assert(r[0] == 117 && r[1] == -159 && r[2] == -1070 && r[3] == 29704);
        assert(r[4] == 5784 && r[5] == -2143 && r[6] == 611 && r[7] == -71);
    } else if t == 2 {
        let r = FIR_COEFS_12_8@[2]@;
        assert(r[0] == 52 && r[1] == 221 && r[2] == -2392 && r[3] == 28276);
        assert(r[4] == 8798 && r[5] == -2865 && r[6] == 773 && r[7] == -91);
    } else if t == 3 {
        let r = FIR_COEFS_12_8@[3]@;
        assert(r[0] == -4 && r[1] == 529 && r[2] == -3350 && r[3] == 26341);
        assert(r[4] == 11950 && r[5] == -3487 && r[6] == 896 && r[7] == -103);
    } else if t == 4 {
        let r = FIR_COEFS_12_8@[4]@;
        assert(r[0] == -48 && r[1] == 758 && r[2] == -3956 && r[3] == 23973);
        assert(r[4] == 15143 && r[5] == -3957 && r[6] == 967 && r[7] == -107);
    } else if t == 5 {
        let r = FIR_COEFS_12_8@[5]@;
        assert(r[0] == -80 && r[1] == 905 && r[2] == -4235 && r[3] == 21254);
        assert(r[4] == 18278 && r[5] == -4222 && r[6] == 972 && r[7] == -99);
    } else if t == 6 {
        let r = FIR_COEFS_12_8@[6]@;
        assert(r[0] == -99 && r[1] == 972 && r[2] == -4222 && r[3] == 18278);
        assert(r[4] == 21254 && r[5] == -4235 && r[6] == 905 && r[7] == -80);
    } else if t == 7 {
        let r = FIR_COEFS_12_8@[7]@;
        assert(r[0] == -107 && r[1] == 967 && r[2] == -3957 && r[3] == 15143);
        assert(r[4] == 23973 && r[5] == -3956 && r[6] == 758 && r[7] == -48);
    } else if t == 8 {
        let r = FIR_COEFS_12_8@[8]@;
        assert(r[0] == -103 && r[1] == 896 && r[2] == -3487 && r[3] == 11950);
        assert(r[4] == 26341 && r[5] == -3350 && r[6] == 529 && r[7] == -4);
    } else if t == 9 {
        let r = FIR_COEFS_12_8@[9]@;
        assert(r[0] == -91 && r[1] == 773 && r[2] == -2865 && r[3] == 8798);
        assert(r[4] == 28276 && r[5] == -2392 && r[6] == 221 && r[7] == 52);
    } else if t == 10 {
        let r = FIR_COEFS_12_8@[10]@;
        assert(r[0] == -71 && r[1] == 611 && r[2] == -2143 && r[3] == 5784);
        assert(r[4] == 29704 && r[5] == -1070 && r[6] == -159 && r[7] == 117);
    } else {
        let r = FIR_COEFS_12_8@[11]@;
        assert(r[0] == -46 && r[1] == 425 && r[2] == -1375 && r[3] == 2996);
        assert(r[4] == 30567 && r[5] == 617 && r[6] == -600 && r[7] == 189);
    }
}

proof fn lemma_sums(t: int)
    requires
        0 <= t < 12,
    ensures
        ({
            let r = row(t);
            &&& taps_total(t, 8) == r[0] + r[1] + r[2] + r[3] + r[4] + r[5] + r[6] + r[7]
            &&& taps_moment(t, 8) == r[1] + 2 * r[2] + 3 * r[3] + 4 * r[4] + 5 * r[5] + 6 * r[6] + 7
                * r[7]
        }),
{
    lemma_row(t);
    let r = row(t);
    assert(taps_total(t, 0) == 0 && taps_moment(t, 0) == 0);
    assert(taps_total(t, 1) == r[0] && taps_moment(t, 1) == 0 * r[0]);
    assert(taps_total(t, 2) == r[0] + r[1] && taps_moment(t, 2) == r[1]);
    assert(taps_total(t, 3) == r[0] + r[1] + r[2] && taps_moment(t, 3) == r[1] + 2 * r[2]);
    assert(taps_total(t, 4) == r[0] + r[1] + r[2] + r[3]);
    assert(taps_moment(t, 4) == r[1] + 2 * r[2] + 3 * r[3]);
    assert(taps_total(t, 5) == r[0] + r[1] + r[2] + r[3] + r[4]);
    assert(taps_moment(t, 5) == r[1] + 2 * r[2] + 3 * r[3] + 4 * r[4]);
    assert(taps_total(t, 6) == r[0] + r[1] + r[2] + r[3] + r[4] + r[5]);
    assert(taps_moment(t, 6) == r[1] + 2 * r[2] + 3 * r[3] + 4 * r[4] + 5 * r[5]);
    assert(taps_total(t, 7) == r[0] + r[1] + r[2] + r[3] + r[4] + r[5] + r[6]);
    assert(taps_moment(t, 7) == r[1] + 2 * r[2] + 3 * r[3] + 4 * r[4] + 5 * r[5] + 6 * r[6]);
}

proof fn lemma_rows(t: int)
    requires
        0 <= t < 12,
    ensures
        32772 <= taps_total(t, 8) <= 32773,
        ({
            let off = 24 * taps_moment(t, 8) - (73 + 2 * t) * taps_total(t, 8);
            -303 <= off <= 303
        }),
{
    lemma_sums(t);
    let total = taps_total(t, 8);
    assert((73 + 2 * t) * total == 73 * total + 2 * (t * total)) by (nonlinear_arith);
    assert(t * total == total * t) by (nonlinear_arith);
    assert(total == 32772 || total == 32773);
    if total == 32772 {
        assert(total * t == 32772 * t);
    } else {
        assert(total * t == 32773 * t);
    }
}

proof fn lemma_taps_on_a_line(buf: Seq<i16>, b: int, t: int, u: int, v: int, n: int)
    requires
        0 <= t < 12,
        0 <= n <= 8,
        forall|j: int| 0 <= j < 8 ==> #[trigger] buf[b + j] == u + v * j,
    ensures
        fir12_sum(buf, b, t, n) == u * taps_total(t, n) + v * taps_moment(t, n),
    decreases n,
{
    if n > 0 {
        lemma_taps_on_a_line(buf, b, t, u, v, n - 1);
        lemma_taps_fit(buf, b, t, n);
        let c: int = FIR_COEFS_12_8@[t]@[n - 1] as int;
        let a = taps_total(t, n - 1);
        let m = taps_moment(t, n - 1);
        assert(buf[b + (n - 1)] == u + v * (n - 1));
        let x: int = buf[b + (n - 1)] as int;
        assert(u * a + v * m + x * c == u * (a + c) + v * (m + (n - 1) * c)) by (nonlinear_arith)
            requires
                x == u + v * (n - 1),
        ;
        lemma_wrap_is_word(fir12_sum(buf, b, t, n - 1) + x * c);
    }
}

/// The sum of the magnitudes of the first `n` taps of row `t`.
spec fn taps_magnitude(t: int, n: int) -> int
    decreases n,
{
    if n <= 0 {
        0
    } else {
        let c = FIR_COEFS_12_8@[t]@[n - 1];
        taps_magnitude(t, n - 1) + if c < 0 {
            -c
        } else {
            c as int
        }
    }
}

proof fn lemma_magnitudes(t: int)
    requires
        0 <= t < 12,
    ensures
        forall|n: int| 0 <= n <= 8 ==> #[trigger] taps_magnitude(t, n) <= 50045,
{
    lemma_row(t);
    let r = row(t);
    assert(taps_magnitude(t, 0) == 0);
    assert(taps_magnitude(t, 1) == abs(r[0]));
    assert(taps_magnitude(t, 2) == abs(r[0]) + abs(r[1]));
    assert(taps_magnitude(t, 3) == abs(r[0]) + abs(r[1]) + abs(r[2]));
    assert(taps_magnitude(t, 4) == abs(r[0]) + abs(r[1]) + abs(r[2]) + abs(r[3]));
    assert(taps_magnitude(t, 5) == abs(r[0]) + abs(r[1]) + abs(r[2]) + abs(r[3]) + abs(r[4]));
    assert(taps_magnitude(t, 6) == abs(r[0]) + abs(r[1]) + abs(r[2]) + abs(r[3]) + abs(r[4]) + abs(
        r[5],
    ));
    assert(taps_magnitude(t, 7) == abs(r[0]) + abs(r[1]) + abs(r[2]) + abs(r[3]) + abs(r[4]) + abs(
        r[5],
    ) + abs(r[6]));
    assert(taps_magnitude(t, 8) == abs(r[0]) + abs(r[1]) + abs(r[2]) + abs(r[3]) + abs(r[4]) + abs(
        r[5],
    ) + abs(r[6]) + abs(r[7]));
    assert forall|n: int| 0 <= n <= 8 implies #[trigger] taps_magnitude(t, n) <= 50045 by {
        lemma_magnitudes_grow(t, n);
    }
}

proof fn lemma_magnitudes_grow(t: int, n: int)
    requires
        0 <= n <= 8,
    ensures
        taps_magnitude(t, n) <= taps_magnitude(t, 8),
    decreases 8 - n,
{
    if n < 8 {
        lemma_magnitudes_grow(t, n + 1);
    }
}

proof fn lemma_taps_fit(buf: Seq<i16>, b: int, t: int, n: int)
    requires
        0 <= t < 12,
        0 <= n <= 8,
    ensures
        ({
            let m = 32768 * taps_magnitude(t, n);
            -m <= fir12_sum(buf, b, t, n) <= m
        }),
        n > 0 ==> fir12_sum(buf, b, t, n) == fir12_sum(buf, b, t, n - 1) + buf[b + (n - 1)]
            * FIR_COEFS_12_8@[t]@[n - 1],
    decreases n,
{
    if n > 0 {
        lemma_taps_fit(buf, b, t, n - 1);
        lemma_magnitudes(t);
        assert(taps_magnitude(t, n) <= 50045);
        let c: int = FIR_COEFS_12_8@[t]@[n - 1] as int;
        let x: int = buf[b + (n - 1)] as int;
        assert(b + n - 1 == b + (n - 1));
        let m: int = if c < 0 {
            -c
        } else {
            c
        };
        assert(-(32768 * m) <= x * c <= 32768 * m) by (nonlinear_arith)
            requires
                -32768 <= x <= 32767,
                m == (if c < 0 {
                    -c
                } else {
                    c
                }),
        ;
        lemma_wrap_is_word(fir12_sum(buf, b, t, n - 1) + x * c);
    }
}

proof fn lemma_line_at_time(
    buf: Seq<i16>,
    u: int,
    v: int,
    k: int,
    fs_in: int,
    fs_out: int,
)
    requires
        is_fraction(fs_in, fs_out),
        k >= 0,
        2 * fs_in * k / fs_out + 8 <= buf.len(),
        forall|i: int| 0 <= i < buf.len() ==> #[trigger] buf[i] == u + v * i,
    ensures
        ({
            let off = 24 * fs_out * at_time(buf, k, fs_in, fs_out) - (24 * fs_out * u + v * (48
                * fs_in * k + 73 * fs_out));
            -240 * fs_out <= off <= 240 * fs_out
        }),
{
    let e = 2 * fs_in * k;
    let w = e / fs_out;
    let rest = e % fs_out;
    let t = rest * 12 / fs_out;
    lemma_time_is_before(fs_in, fs_out, k);
    lemma_twelfths(fs_in, fs_out, k);
    assert(0 <= t < 12 && rest * 12 == fs_out * t);
    let start = u + v * w;
    assert forall|j: int| 0 <= j < 8 implies #[trigger] buf[w + j] == start + v * j by {
        assert(v * (w + j) == v * w + v * j) by (nonlinear_arith);
    }
    lemma_rows(t);
    lemma_taps_on_a_line(buf, w, t, start, v, 8);
    let total = taps_total(t, 8);
    let moment = taps_moment(t, 8);
    let sum = fir12_sum(buf, w, t, 8);
    // The line runs through eight samples, so its slope is small.
    assert(buf[w + 0] == start + v * 0 && buf[w + 7] == start + v * 7 && buf[w + 3] == start + v * 3
        && buf[w + 4] == start + v * 4);
    assert(-9362 <= v <= 9362);
    let off = 24 * moment - (73 + 2 * t) * total;
    // `line` is 24 times the line's value at the time.
    let line = 24 * start + v * (73 + 2 * t);
    assert(-24 * 32768 <= line <= 24 * 32767) by (nonlinear_arith)
        requires
            -32768 <= start + v * 3 <= 32767,
            -32768 <= start + v * 4 <= 32767,
            line == 24 * start + v * (73 + 2 * t),
            0 <= t < 12,
    ;
    assert(24 * sum == total * line + v * off) by (nonlinear_arith)
        requires
            sum == start * total + v * moment,
            off == 24 * moment - (73 + 2 * t) * total,
            line == 24 * start + v * (73 + 2 * t),
    ;
    assert(-303 * 9362 <= v * off <= 303 * 9362) by (nonlinear_arith)
        requires
            -9362 <= v <= 9362,
            -303 <= off <= 303,
    ;
    let over = total - 32768;
    assert(total * line == 32768 * line + over * line) by (nonlinear_arith)
        requires
            over == total - 32768,
    ;
    assert(-5 * 24 * 32768 <= over * line <= 5 * 24 * 32768) by (nonlinear_arith)
        requires
            4 <= over <= 5,
            -24 * 32768 <= line <= 24 * 32767,
    ;
    lemma_taps_fit(buf, w, t, 8);
    lemma_magnitudes(t);
    assert(taps_magnitude(t, 8) <= 50045);
    let y = at_time(buf, k, fs_in, fs_out);
    let round = rshift_round(sum, 15);
    vstd::arithmetic::power2::lemma2_to64();
    assert(round == (sum + 16384) / 32768);
    assert(-232 <= 24 * round - line <= 232);
    assert(-232 <= 24 * y - line <= 232);
    // The line's value, by the time itself.
    let g = 24 * w + 73 + 2 * t;
    assert(48 * fs_in * k == 24 * e) by (nonlinear_arith)
        requires
            e == 2 * fs_in * k,
    ;
    assert(24 * (fs_out * w) + 73 * fs_out + 2 * (fs_out * t) == fs_out * g) by (nonlinear_arith)
        requires
            g == 24 * w + 73 + 2 * t,
    ;
    assert(48 * fs_in * k + 73 * fs_out == fs_out * g);
    assert(line == 24 * u + v * g) by (nonlinear_arith)
        requires
            line == 24 * start + v * (73 + 2 * t),
            start == u + v * w,
            g == 24 * w + 73 + 2 * t,
    ;
    assert(fs_out * line == 24 * fs_out * u + v * (fs_out * g)) by (nonlinear_arith)
        requires
            line == 24 * u + v * g,
    ;
    let d = 24 * y - line;
    assert(24 * fs_out * y - fs_out * line == fs_out * d && -240 * fs_out <= fs_out * d <= 240
        * fs_out) by (nonlinear_arith)
        requires
            d == 24 * y - line,
            -240 <= d <= 240,
            fs_out > 0,
    ;
}

proof fn lemma_twelfths(fs_in: int, fs_out: int, k: int)
    requires
        is_fraction(fs_in, fs_out),
        k >= 0,
    ensures
        ({
            let rest = 2 * fs_in * k % fs_out;
            let t = rest * 12 / fs_out;
            &&& 0 <= t < 12
            &&& rest * 12 == fs_out * t
            &&& 2 * fs_in * k == fs_out * (2 * fs_in * k / fs_out) + rest
        }),
{
    let e = 2 * fs_in * k;
    let w = e / fs_out;
    let rest = e % fs_out;
    vstd::arithmetic::div_mod::lemma_fundamental_div_mod(e, fs_out);
    assert(0 <= rest < fs_out) by (nonlinear_arith)
        requires
            rest == e % fs_out,
            fs_out > 0,
    ;
    // Twelve times the ratio of the rates is whole.
    let whole: int = if fs_in == 8 {
        if fs_out == 12 {
            16
        } else if fs_out == 24 {
            8
        } else {
            4
        }
    } else if fs_in == 12 {
        if fs_out == 8 {
            36
        } else if fs_out == 16 {
            18
        } else {
            6
        }
    } else {
        if fs_out == 8 {
            48
        } else if fs_out == 12 {
            32
        } else if fs_out == 24 {
            16
        } else {
            8
        }
    };
    assert(24 * fs_in == whole * fs_out);
    let t = whole * k - 12 * w;
    assert(rest * 12 == fs_out * t) by (nonlinear_arith)
        requires
            24 * fs_in == whole * fs_out,
            e == 2 * fs_in * k,
            e == fs_out * w + rest,
            t == whole * k - 12 * w,
    ;
    assert(0 <= t < 12 && rest * 12 / fs_out == t) by (nonlinear_arith)
        requires
            rest * 12 == fs_out * t,
            0 <= rest < fs_out,
    ;
}

/// Between fractional rates a straight line comes out as the same straight
/// line: where the signal at twice the input rate runs along `u + v * i`, output
/// sample `k` is its value at the time of `k`, a fixed 73 / 24 of a sample on,
/// to within ten.
pub proof fn law_resampling_draws_straight_lines(
    st: UpState,
    x: Seq<i16>,
    fs_in: int,
    fs_out: int,
    ms: int,
    u: int,
    v: int,
    k: int,
)
    requires
        is_fraction(fs_in, fs_out),
        carries(st),
        ms >= 1,
        x.len() == ms * fs_in,
        forall|i: int| 0 <= i < 8 ==> #[trigger] st.fir[i] == u + v * i,
        forall|i: int|
            0 <= i < 2 * x.len() ==> #[trigger] doubled(st.iir, x)[i] == u + v * (i + 8),
        0 <= k < ms * fs_out,
    ensures
        ({
            let y = resampled(st, x, 10 * fs_in, step_between(fs_in * 1000, fs_out * 1000));
            let off = 24 * fs_out * y[k] - (24 * fs_out * u + v * (48 * fs_in * k + 73 * fs_out));
            -240 * fs_out <= off <= 240 * fs_out
        }),
{
    law_batches_do_not_show(st, x, fs_in, fs_out, ms);
    lemma_milliseconds(ms, fs_in, fs_out);
    lemma_time_is_before(fs_in, fs_out, k);
    assert(2 * fs_in * k / fs_out < 2 * (ms * fs_in));
    let buf = batch_buf(st, x);
    assert forall|i: int| 0 <= i < buf.len() implies #[trigger] buf[i] == u + v * i by {
        if i >= 8 {
            assert(doubled(st.iir, x)[i - 8] == u + v * (i - 8 + 8));
        }
    }
    lemma_line_at_time(buf, u, v, k, fs_in, fs_out);
}

/// A resampler that has settled at level `v`.
pub open spec fn is_settled(r: ResamplerView, v: int) -> bool {
    &&& forall|i: int| 0 <= i < r.held.len() ==> #[trigger] r.held[i] == v
    &&& forall|i: int| 0 <= i < r.up.fir.len() ==> #[trigger] r.up.fir[i] == v
    &&& forall|i: int| 0 <= i < r.up.iir.len() ==> #[trigger] r.up.iir[i] == v * 1024
}

proof fn lemma_settled_section(s: int, k: int)
    requires
        is_word(s),
    ensures
        section_out(s, s, k) == s,
        section_next(s, s, k) == s,
        steep_out(s, s, k) == s,
        steep_next(s, s, k) == s,
{
    lemma_wrap_is_word(s);
    lemma_wrap_is_word(0);
    assert(0 * crate::silk::macros::low16(k) == 0);
    assert(smulwb(0, k) == 0);
    assert(smlawb(0, 0, k) == 0);
}

proof fn lemma_settled_chain(x: Seq<i16>, v: int, n: int)
    requires
        -32768 <= v <= 32767,
        0 <= n <= x.len(),
        forall|i: int| 0 <= i < x.len() ==> #[trigger] x[i] == v,
    ensures
        ({
            let h = Chain { a: v * 1024, b: v * 1024, c: v * 1024 };
            even_chain(h, x, n) == h && odd_chain(h, x, n) == h
        }),
    decreases n,
{
    if n > 0 {
        lemma_settled_chain(x, v, n - 1);
        reveal(chain_next);
        assert(x[n - 1] == v);
        lemma_settled_section(v * 1024, 1746);
        lemma_settled_section(v * 1024, 14986);
        lemma_settled_section(v * 1024, -26453);
        lemma_settled_section(v * 1024, 6854);
        lemma_settled_section(v * 1024, 25769);
        lemma_settled_section(v * 1024, -9994);
    }
}

proof fn lemma_settled_doubling(iir: Seq<i32>, x: Seq<i16>, v: int)
    requires
        iir.len() == 6,
        -32768 <= v <= 32767,
        forall|i: int| 0 <= i < x.len() ==> #[trigger] x[i] == v,
        forall|i: int| 0 <= i < 6 ==> #[trigger] iir[i] == v * 1024,
    ensures
        forall|i: int| 0 <= i < 2 * x.len() ==> #[trigger] doubled(iir, x)[i] == v,
        doubled_next(iir, x) == iir,
{
    let h = Chain { a: v * 1024, b: v * 1024, c: v * 1024 };
    assert(first_chain(iir) == h && second_chain(iir) == h);
    assert forall|i: int| 0 <= i < 2 * x.len() implies #[trigger] doubled(iir, x)[i] == v by {
        lemma_settled_chain(x, v, i / 2);
        reveal(chain_out);
        assert(x[i / 2] == v);
        lemma_settled_section(v * 1024, 1746);
        lemma_settled_section(v * 1024, 14986);
        lemma_settled_section(v * 1024, -26453);
        lemma_settled_section(v * 1024, 6854);
        lemma_settled_section(v * 1024, 25769);
        lemma_settled_section(v * 1024, -9994);
        vstd::arithmetic::power2::lemma2_to64();
        assert(rshift_round(v * 1024, 10) == v);
    }
    lemma_settled_chain(x, v, x.len() as int);
    assert(doubled_next(iir, x) =~= iir);
}

/// A steady level passes as it is: a resampler that has settled at a level puts
/// out that level, exactly where the rate is kept or doubled and to within ten
/// otherwise, and stays settled.
pub proof fn law_a_steady_level_passes(
    r: ResamplerView,
    out: Seq<i16>,
    x: Seq<i16>,
    ms: int,
    v: int,
    k: int,
)
    requires
        is_running(r),
        is_settled(r, v),
        -32768 <= v <= 32767,
        ms >= 1,
        x.len() == ms * r.fs_in_khz,
        forall|i: int| 0 <= i < x.len() ==> #[trigger] x[i] == v,
        out.len() == ms * r.fs_out_khz,
        0 <= k < out.len(),
    ensures
        -10 <= r.written(out, x)[k] - v <= 10,
        r.mode !is IirFir ==> r.written(out, x)[k] == v,
        is_settled(r.next(x), v),
{
    let i = r.fs_in_khz;
    let o = r.fs_out_khz;
    lemma_milliseconds(ms, i, o);
    lemma_written(r, out, x, ms);
    let d = r.delayed(x);
    assert forall|m: int| 0 <= m < d.len() implies #[trigger] d[m] == v by {
        if m >= r.held.len() {
            assert(x[m - r.held.len()] == v);
        }
    }
    assert forall|m: int| 0 <= m < r.next(x).held.len() implies #[trigger] r.next(x).held[m]
        == v by {
        assert(x[x.len() - r.held.len() + m] == v);
    }
    match r.mode {
        ResamplerMode::Copy => {},
        ResamplerMode::Up2HQ => {
            assert(ms * o == 2 * (ms * i)) by (nonlinear_arith)
                requires
                    o == 2 * i,
            ;
            lemma_settled_doubling(r.up.iir, d, v);
            assert(doubled(r.up.iir, d)[k] == v);
        },
        ResamplerMode::IirFir => {
            lemma_settled_doubling(r.up.iir, d, v);
            let buf = batch_buf(r.up, d);
            assert forall|m: int| 0 <= m < buf.len() implies #[trigger] buf[m] == v + 0 * m by {
                if m >= 8 {
                    assert(doubled(r.up.iir, d)[m - 8] == v);
                }
            }
            lemma_time_is_before(i, o, k);
            assert(2 * i * k / o < 2 * (ms * i));
            lemma_line_at_time(buf, v, 0, k, i, o);
            let y = at_time(buf, k, i, o);
            assert(-10 <= y - v <= 10) by (nonlinear_arith)
                requires
                    -240 * o <= 24 * o * y - (24 * o * v + 0 * (48 * i * k + 73 * o)) <= 240 * o,
                    o > 0,
            ;
            assert(r.next(x).up.fir.len() == 8);
        },
    }
}

// ---------------------------------------------------------------------------
// Straight lines at twice the rate
// ---------------------------------------------------------------------------
/// How far from settled on a line a section of weight `k` may be, for input that
/// steps unevenly by up to `d`.
pub open spec fn line_slack(k: int, d: int) -> int {
    65536 * (65536 + k) * (d + 1) / (65536 - k) + 1
}

/// Whether a section of weight `k`, Q16, with state `s` has settled on a line of
/// slope `v` that its next input is `x` of.
pub open spec fn is_on_line(k: int, s: int, x: int, v: int, d: int) -> bool {
    -line_slack(k, d) <= (65536 + k) * (x - s) - 65536 * v <= line_slack(k, d)
}

/// What a section adds to its state and to its input.
spec fn gained(k: int, s: int, x: int) -> int {
    k * (x - s) / 65536
}

#[verifier::spinoff_prover]
#[verifier::rlimit(40)]
proof fn lemma_section_on_line(k: int, s: int, x: int, v: int, d: int, x2: int)
    requires
        0 < k < 65536,
        0 <= d,
        is_on_line(k, s, x, v, d),
        -d <= x2 - x - v <= d,
    ensures
        ({
            let y = s + gained(k, s, x);
            let m = 65536 + k;
            -(m * (d + 3)) <= m * (y - x) + (65536 - k) * v <= m * (d + 3)
        }),
        is_on_line(k, x + gained(k, s, x), x2, v, d),
{
    let m = 65536 + k;
    let l = 65536 - k;
    let w = x - s;
    let q = gained(k, s, x);
    let rho = k * w - 65536 * q;
    assert(0 <= rho < 65536);
    let om = m * w - 65536 * v;
    let o = line_slack(k, d);
    let full = 65536 * m * (d + 1);
    assert(o == full / l + 1);
    assert(full >= 0) by (nonlinear_arith)
        requires
            full == 65536 * m * (d + 1),
            m > 0,
            d >= 0,
    ;
    assert(l * (o - 1) <= full && full < l * o) by (nonlinear_arith)
        requires
            o == full / l + 1,
            l > 0,
            full >= 0,
    ;
    // The output.
    let y = s + q;
    let dev = m * (y - x) + l * v;
    assert(65536 * dev == -(l * om) - m * rho) by (nonlinear_arith)
        requires
            dev == m * (y - x) + l * v,
            y == s + q,
            w == x - s,
            rho == k * w - 65536 * q,
            om == m * w - 65536 * v,
            m == 65536 + k,
            l == 65536 - k,
    ;
    assert(-(l * o) <= l * om <= l * o) by (nonlinear_arith)
        requires
            -o <= om <= o,
            l > 0,
    ;
    assert(l * o <= full + l) by (nonlinear_arith)
        requires
            l * (o - 1) <= full,
    ;
    let md = m * (d + 1);
    assert(full == 65536 * md) by (nonlinear_arith)
        requires
            full == 65536 * m * (d + 1),
            md == m * (d + 1),
    ;
    assert(0 <= m * rho <= 65536 * m) by (nonlinear_arith)
        requires
            0 <= rho < 65536,
            m > 0,
    ;
    assert(-(65536 * md + 65536 + 65536 * m) <= 65536 * dev <= 65536 * md + 65536);
    assert(-(md + 1 + m) <= dev <= md + 1);
    assert(m * (d + 3) == md + 2 * m) by (nonlinear_arith)
        requires
            md == m * (d + 1),
    ;
    // The state.
    let s2 = x + q;
    let e = x2 - x - v;
    let om2 = m * (x2 - s2) - 65536 * v;
    assert(65536 * om2 == -(k * om) + m * (65536 * e + rho)) by (nonlinear_arith)
        requires
            om2 == m * (x2 - s2) - 65536 * v,
            s2 == x + q,
            e == x2 - x - v,
            w == x - s,
            rho == k * w - 65536 * q,
            om == m * w - 65536 * v,
            m == 65536 + k,
    ;
    let t = 65536 * e + rho;
    assert(-(65536 * (d + 1)) <= t <= 65536 * (d + 1));
    assert(-(65536 * md) <= m * t <= 65536 * md) by (nonlinear_arith)
        requires
            -(65536 * (d + 1)) <= t <= 65536 * (d + 1),
            md == m * (d + 1),
            m > 0,
    ;
    assert(-(k * o) <= k * om <= k * o) by (nonlinear_arith)
        requires
            -o <= om <= o,
            k > 0,
    ;
    // k * o + full <= 65536 * o.
    assert(k * o + l * o == 65536 * o) by (nonlinear_arith)
        requires
            l == 65536 - k,
    ;
    assert(-(65536 * o) <= 65536 * om2 <= 65536 * o);
}

/// Whether the three sections of a chain have settled on a line of slope `v`, all in
/// Q10, that the next input is `x` of.
pub open spec fn chain_on_line(h: Chain, x: int, v: int, k0: int, k1: int, k2: int) -> bool {
    let y = h.a + k0 * (x - h.a) / 65536;
    let z = h.b + k1 * (y - h.b) / 65536;
    &&& is_on_line(k0, h.a, x, v, 0)
    &&& is_on_line(k1, h.b, y, v, 6)
    &&& is_on_line(k2, h.c, z, v, 24)
}

proof fn lemma_steps_like(m: int, l: int, x: int, y: int, x2: int, y2: int, v: int, d: int, r: int)
    requires
        m > 0,
        -(m * r) <= m * (y - x) + l * v <= m * r,
        -(m * r) <= m * (y2 - x2) + l * v <= m * r,
        -d <= x2 - x - v <= d,
    ensures
        -(d + 2 * r) <= y2 - y - v <= d + 2 * r,
{
    let a = y - x;
    let b = y2 - x2;
    assert(-(2 * r) <= b - a <= 2 * r) by (nonlinear_arith)
        requires
            m > 0,
            -(m * r) <= m * a + l * v <= m * r,
            -(m * r) <= m * b + l * v <= m * r,
    ;
}

#[verifier::spinoff_prover]
#[verifier::rlimit(60)]
proof fn lemma_chain_on_line(h: Chain, x: int, v: int, k0: int, k1: int, k2: int)
    requires
        0 < k0 < 65536,
        0 < k1 < 65536,
        0 < k2 < 65536,
        chain_on_line(h, x, v, k0, k1, k2),
    ensures
        ({
            let y = h.a + k0 * (x - h.a) / 65536;
            let z = h.b + k1 * (y - h.b) / 65536;
            let o = h.c + k2 * (z - h.c) / 65536;
            let n = Chain {
                a: x + k0 * (x - h.a) / 65536,
                b: y + k1 * (y - h.b) / 65536,
                c: z + k2 * (z - h.c) / 65536,
            };
            &&& chain_on_line(n, x + v, v, k0, k1, k2)
            &&& -((65536 + k0) * 3) <= (65536 + k0) * (y - x) + (65536 - k0) * v <= (65536 + k0) * 3
            &&& -((65536 + k1) * 9) <= (65536 + k1) * (z - y) + (65536 - k1) * v <= (65536 + k1) * 9
            &&& -((65536 + k2) * 27) <= (65536 + k2) * (o - z) + (65536 - k2) * v <= (65536 + k2)
                * 27
        }),
{
    let y = h.a + gained(k0, h.a, x);
    let z = h.b + gained(k1, h.b, y);
    let a2 = x + gained(k0, h.a, x);
    let b2 = y + gained(k1, h.b, y);
    let c2 = z + gained(k2, h.c, z);
    let x2 = x + v;
    lemma_section_on_line(k0, h.a, x, v, 0, x2);
    let y2 = a2 + gained(k0, a2, x2);
    lemma_section_on_line(k0, a2, x2, v, 0, x2 + v);
    lemma_steps_like(65536 + k0, 65536 - k0, x, y, x2, y2, v, 0, 3);
    lemma_section_on_line(k1, h.b, y, v, 6, y2);
    let z2 = b2 + gained(k1, b2, y2);
    lemma_section_on_line(k1, b2, y2, v, 6, y2 + v);
    lemma_steps_like(65536 + k1, 65536 - k1, y, z, y2, z2, v, 6, 9);
    lemma_section_on_line(k2, h.c, z, v, 24, z2);
}

proof fn lemma_line_range(k: int, s: int, x: int, v: int, d: int)
    requires
        0 < k < 65536,
        is_on_line(k, s, x, v, d),
        line_slack(k, d) <= 0x80_0000_0000,
        -0x400_0000 <= v <= 0x400_0000,
    ensures
        -0x480_0000 <= x - s <= 0x480_0000,
{
    let w = x - s;
    assert(-0x480_0000 <= w <= 0x480_0000) by (nonlinear_arith)
        requires
            0 < k,
            -0x80_0000_0000 <= (65536 + k) * w - 65536 * v <= 0x80_0000_0000,
            -0x400_0000 <= v <= 0x400_0000,
    ;
}

proof fn lemma_plain_section(s: int, x: int, k: int)
    requires
        0 < k < 32768,
        -0x480_0000 <= x - s <= 0x480_0000,
        -0x2000_0000 <= x <= 0x2000_0000,
    ensures
        section_out(s, x, k) == s + k * (x - s) / 65536,
        section_next(s, x, k) == x + k * (x - s) / 65536,
        -0x480_0000 <= k * (x - s) / 65536 <= 0x480_0000,
{
    let w = x - s;
    lemma_wrap_is_word(k);
    lemma_wrap_is_word(w);
    let p = k * w;
    assert(w * k == p && -0x480_0000 * 65536 <= p <= 0x480_0000 * 65536) by (nonlinear_arith)
        requires
            p == k * w,
            0 < k < 65536,
            -0x480_0000 <= w <= 0x480_0000,
    ;
    let q = p / 65536;
    assert(smulwb(w, k) == q);
    lemma_wrap_is_word(s + q);
    lemma_wrap_is_word(x + q);
}

proof fn lemma_plain_steep(s: int, x: int, k: int)
    requires
        -32768 <= k < 0,
        -0x480_0000 <= x - s <= 0x480_0000,
        -0x2000_0000 <= x <= 0x2000_0000,
    ensures
        steep_out(s, x, k) == s + (65536 + k) * (x - s) / 65536,
        steep_next(s, x, k) == x + (65536 + k) * (x - s) / 65536,
{
    let w = x - s;
    lemma_wrap_is_word(k);
    lemma_wrap_is_word(w);
    let p = (65536 + k) * w;
    assert(p == 65536 * w + w * k && -0x480_0000 * 65536 <= p <= 0x480_0000 * 65536)
        by (nonlinear_arith)
        requires
            p == (65536 + k) * w,
            -32768 <= k < 0,
            -0x480_0000 <= w <= 0x480_0000,
    ;
    let q = p / 65536;
    assert(q == w + w * k / 65536);
    assert(smulwb(w, k) == w * k / 65536);
    lemma_wrap_is_word(q);
    assert(smlawb(w, w, k) == q);
    lemma_wrap_is_word(s + q);
    lemma_wrap_is_word(x + q);
}

proof fn lemma_even_plain(h: Chain, x: int, v: int)
    requires
        chain_on_line(h, x, v, 1746, 14986, 39083),
        -0x400_0000 <= x <= 0x400_0000,
        -0x400_0000 <= v <= 0x400_0000,
    ensures
        ({
            let y = h.a + 1746 * (x - h.a) / 65536;
            let z = h.b + 14986 * (y - h.b) / 65536;
            let o = h.c + 39083 * (z - h.c) / 65536;
            &&& chain_out(h, x, 1746, 14986, -26453) == o
            &&& chain_next(h, x, 1746, 14986, -26453) == (Chain {
                a: x + 1746 * (x - h.a) / 65536,
                b: y + 14986 * (y - h.b) / 65536,
                c: z + 39083 * (z - h.c) / 65536,
            })
        }),
{
    reveal(chain_out);
    reveal(chain_next);
    let y = h.a + 1746 * (x - h.a) / 65536;
    let z = h.b + 14986 * (y - h.b) / 65536;
    assert(line_slack(1746, 0) == 69124);
    assert(line_slack(14986, 6) == 730755);
    assert(line_slack(39083, 24) == 6479711);
    lemma_line_range(1746, h.a, x, v, 0);
    lemma_plain_section(h.a, x, 1746);
    lemma_line_range(14986, h.b, y, v, 6);
    lemma_plain_section(h.b, y, 14986);
    lemma_line_range(39083, h.c, z, v, 24);
    lemma_plain_steep(h.c, z, -26453);
}

proof fn lemma_odd_plain(h: Chain, x: int, v: int)
    requires
        chain_on_line(h, x, v, 6854, 25769, 55542),
        -0x400_0000 <= x <= 0x400_0000,
        -0x400_0000 <= v <= 0x400_0000,
    ensures
        ({
            let y = h.a + 6854 * (x - h.a) / 65536;
            let z = h.b + 25769 * (y - h.b) / 65536;
            let o = h.c + 55542 * (z - h.c) / 65536;
            &&& chain_out(h, x, 6854, 25769, -9994) == o
            &&& chain_next(h, x, 6854, 25769, -9994) == (Chain {
                a: x + 6854 * (x - h.a) / 65536,
                b: y + 25769 * (y - h.b) / 65536,
                c: z + 55542 * (z - h.c) / 65536,
            })
        }),
{
    reveal(chain_out);
    reveal(chain_next);
    let y = h.a + 6854 * (x - h.a) / 65536;
    let z = h.b + 25769 * (y - h.b) / 65536;
    assert(line_slack(6854, 0) == 80846);
    assert(line_slack(25769, 6) == 1053295);
    assert(line_slack(55542, 24) == 19849330);
    lemma_line_range(6854, h.a, x, v, 0);
    lemma_plain_section(h.a, x, 6854);
    lemma_line_range(25769, h.b, y, v, 6);
    lemma_plain_section(h.b, y, 25769);
    lemma_line_range(55542, h.c, z, v, 24);
    lemma_plain_steep(h.c, z, -9994);
}

/// Whether the filters of the doubling have settled on a line: of the next input `x`
/// and the slope `v`.
pub open spec fn doubling_on_line(iir: Seq<i32>, x: int, v: int) -> bool {
    &&& chain_on_line(first_chain(iir), 1024 * x, 1024 * v, 1746, 14986, 39083)
    &&& chain_on_line(second_chain(iir), 1024 * x, 1024 * v, 6854, 25769, 55542)
}

proof fn lemma_chains_stay_on_line(iir: Seq<i32>, x: Seq<i16>, u: int, v: int, n: int)
    requires
        0 <= n <= x.len(),
        -32768 <= v <= 32767,
        -32768 <= u <= 32767,
        forall|j: int| 0 <= j < x.len() ==> #[trigger] x[j] == u + v * j,
        doubling_on_line(iir, u, v),
    ensures
        chain_on_line(
            even_chain(first_chain(iir), x, n),
            1024 * (u + v * n),
            1024 * v,
            1746,
            14986,
            39083,
        ),
        chain_on_line(
            odd_chain(second_chain(iir), x, n),
            1024 * (u + v * n),
            1024 * v,
            6854,
            25769,
            55542,
        ),
    decreases n,
{
    if n == 0 {
        assert(v * 0 == 0);
    } else {
        lemma_chains_stay_on_line(iir, x, u, v, n - 1);
        assert(v * n == v * (n - 1) + v) by (nonlinear_arith);
        let e = even_chain(first_chain(iir), x, n - 1);
        let o = odd_chain(second_chain(iir), x, n - 1);
        let at = 1024 * (u + v * (n - 1));
        assert(x[n - 1] == u + v * (n - 1));
        assert(x[n - 1] * 1024 == at);
        lemma_even_plain(e, at, 1024 * v);
        lemma_odd_plain(o, at, 1024 * v);
        lemma_chain_on_line(e, at, 1024 * v, 1746, 14986, 39083);
        lemma_chain_on_line(o, at, 1024 * v, 6854, 25769, 55542);
    }
}

/// Doubling the rate draws straight lines: on filters that have settled on the line
/// that the input runs along, the output runs along the same line, to within one and
/// a thousandth of the slope. The even samples come 1.829 input samples late and the
/// odd ones 1.329, so they lie half an input sample apart; and the filters stay
/// settled.
#[verifier::spinoff_prover]
#[verifier::rlimit(60)]
pub proof fn law_doubling_draws_straight_lines(
    iir: Seq<i32>,
    x: Seq<i16>,
    u: int,
    v: int,
    n: int,
)
    requires
        0 <= n < x.len(),
        -32768 <= v <= 32767,
        forall|j: int| 0 <= j < x.len() ==> #[trigger] x[j] == u + v * j,
        doubling_on_line(iir, u, v),
        -32766 <= x[n] - v <= 32766,
        -32766 <= x[n] - 2 * v <= 32766,
    ensures
        ({
            let even: int = doubled(iir, x)[2 * n] as int;
            let odd: int = doubled(iir, x)[2 * n + 1] as int;
            let m: int = if v < 0 {
                -v
            } else {
                v
            };
            &&& -(1000 + m) <= 1000 * (even - x[n]) + 1829 * v <= 1000 + m
            &&& -(1000 + m) <= 1000 * (odd - x[n]) + 1329 * v <= 1000 + m
        }),
        doubling_on_line(doubled_next(iir, x), u + v * x.len(), v),
{
    assert(v * 0 == 0);
    assert(x[0] == u + v * 0);
    lemma_chains_stay_on_line(iir, x, u, v, n);
    lemma_chains_stay_on_line(iir, x, u, v, x.len() as int);
    lemma_doubled_next_holds(iir, x);
    vstd::arithmetic::power2::lemma2_to64();
    let e = even_chain(first_chain(iir), x, n);
    let o = odd_chain(second_chain(iir), x, n);
    let at = 1024 * (u + v * n);
    assert(x[n] == u + v * n);
    assert(x[n] * 1024 == at);
    lemma_even_plain(e, at, 1024 * v);
    lemma_odd_plain(o, at, 1024 * v);
    lemma_chain_on_line(e, at, 1024 * v, 1746, 14986, 39083);
    lemma_chain_on_line(o, at, 1024 * v, 6854, 25769, 55542);
    let a = chain_out(e, at, 1746, 14986, -26453);
    let b = chain_out(o, at, 6854, 25769, -9994);
    assert((2 * n) / 2 == n && (2 * n) % 2 == 0 && (2 * n + 1) / 2 == n && (2 * n + 1) % 2 == 1);
    assert(up2_sample(iir, x, 2 * n) == sat16((a + 512) / 1024));
    assert(up2_sample(iir, x, 2 * n + 1) == sat16((b + 512) / 1024));
}

} // verus!
