//! What synthesis is for: short-term prediction put back, and a signal put out
//! at its gain, each up to rounding.

use vstd::prelude::*;

use crate::silk::decode_core::long_term;
use crate::silk::macros::{
    is_word, lemma_wrap_is_word, lshift_sat32, rshift, rshift_round, sat16, smlawb, smulwb, smulww,
    wrap,
};
use crate::silk::synthesis::{
    lemma_synthesis_elsewhere, scaled_sample, short_term, synthesis, synthesized,
};

verus! {

/// The sum of the last `n` samples in front of `o`, each by its weight.
pub open spec fn weighted_past(y: Seq<i32>, o: int, a: Seq<i16>, n: int) -> int
    decreases n,
{
    if n <= 0 {
        0
    } else {
        weighted_past(y, o, a, n - 1) + a[n - 1] * y[o - n]
    }
}

/// Whether sample `o` of `y` is `e` with its prediction from the `order` samples
/// before it added, weights in Q12: to within eight units for each weight. Where
/// the prediction or the sum leaves 32 bits, nothing is said.
pub open spec fn is_predicted(y: Seq<i32>, o: int, e: int, a: Seq<i16>, order: int) -> bool {
    let s = weighted_past(y, o, a, order);
    -0x7ff_ffe0 * 0x1_0000 <= s <= 0x7ff_ffe0 * 0x1_0000 && -0x7fff_fe00 <= e + s / 4096
        <= 0x7fff_fe00 ==> -(8 * order + 16) * 4096 <= 4096 * (y[o] - e) - s <= (8 * order + 16)
        * 4096
}

/// Whether `v` is `x`, Q14, at a gain in Q16: to within a half and what the gain
/// loses in its lowest six bits, as far as 16 bits reach.
pub open spec fn is_put_out(v: int, x: int, gain_q16: int) -> bool {
    let t = x * gain_q16;
    let m: int = if x < 0 {
        -x
    } else {
        x
    };
    let slack = 0x2040_0000 + 64 * m;
    -0x7fff * 0x4000_0000 <= t <= 0x7fff * 0x4000_0000 ==> -slack <= v * 0x4000_0000 - t <= slack
}

proof fn lemma_short_term_is_the_sum(buf: Seq<i32>, o: int, a: Seq<i16>, order: int, n: int)
    requires
        0 <= n <= 16,
    ensures
        ({
            let s = weighted_past(buf, o, a, n);
            exists|v: int|
                #[trigger] wrap(v) == wrap(short_term(buf, o, a, order, n)) && s - 0x1_0000 * n
                    <= 0x1_0000 * (v - order / 2) <= s
        }),
    decreases n,
{
    if n <= 0 {
        let v = order / 2;
        assert(wrap(v) == wrap(short_term(buf, o, a, order, n)));
    } else {
        lemma_short_term_is_the_sum(buf, o, a, order, n - 1);
        let s0 = weighted_past(buf, o, a, n - 1);
        let t0 = short_term(buf, o, a, order, n - 1);
        let v = choose|v: int|
            #[trigger] wrap(v) == wrap(t0) && s0 - 0x1_0000 * (n - 1) <= 0x1_0000 * (v - order / 2)
                <= s0;
        let x: int = buf[o - n] as int;
        let c: int = a[n - 1] as int;
        lemma_wrap_is_word(c);
        let p = smulwb(x, c);
        assert(p == x * c / 0x1_0000);
        assert(x * c == c * x) by (nonlinear_arith);
        let w = v + p;
        lemma_wrap_adds(v, t0, p);
        assert(short_term(buf, o, a, order, n) == wrap(t0 + p));
        lemma_wrap_is_word(t0 + p);
        assert(wrap(w) == wrap(short_term(buf, o, a, order, n)));
    }
}

proof fn lemma_wrap_adds(v: int, t: int, p: int)
    requires
        wrap(v) == wrap(t),
    ensures
        wrap(v + p) == wrap(t + p),
{
    let m = 0x1_0000_0000int;
    assert(v % m == t % m);
    assert((v + p) % m == (t + p) % m) by {
        vstd::arithmetic::div_mod::lemma_add_mod_noop(v, p, m);
        vstd::arithmetic::div_mod::lemma_add_mod_noop(t, p, m);
    }
}

proof fn lemma_synthesized_is_predicted(b: Seq<i32>, o: int, a: Seq<i16>, order: int)
    requires
        order == 10 || order == 16,
    ensures
        is_word(synthesized(b, o, a, order)),
        ({
            let s = weighted_past(b, o, a, order);
            let e: int = b[o] as int;
            let y = synthesized(b, o, a, order);
            -0x7ff_ffe0 * 0x1_0000 <= s <= 0x7ff_ffe0 * 0x1_0000 && -0x7fff_fe00 <= e + s / 4096
                <= 0x7fff_fe00 ==> -(8 * order + 16) * 4096 <= 4096 * (y - e) - s <= (8 * order
                + 16) * 4096
        }),
{
    let s = weighted_past(b, o, a, order);
    let e: int = b[o] as int;
    let st = short_term(b, o, a, order, order);
    lemma_short_term_is_the_sum(b, o, a, order, order);
    let v = choose|v: int|
        #[trigger] wrap(v) == wrap(st) && s - 0x1_0000 * order <= 0x1_0000 * (v - order / 2) <= s;
    vstd::arithmetic::power2::lemma2_to64();
    assert(is_word(st)) by {
        assert(st == smlawb(
            short_term(b, o, a, order, order - 1),
            b[o - order] as int,
            a[order - 1] as int,
        ));
        lemma_wrap_is_word(
            short_term(b, o, a, order, order - 1) + smulwb(
                b[o - order] as int,
                a[order - 1] as int,
            ),
        );
    }
    if -0x7ff_ffe0 * 0x1_0000 <= s <= 0x7ff_ffe0 * 0x1_0000 && -0x7fff_fe00 <= e + s / 4096
        <= 0x7fff_fe00 {
        lemma_wrap_is_word(v);
        lemma_wrap_is_word(st);
        assert(v == st);
        assert(rshift(-0x8000_0000, 4) == -0x800_0000 && rshift(0x7fff_ffff, 4) == 0x7ff_ffff);
        assert(lshift_sat32(st, 4) == st * 16);
    }
}

proof fn lemma_synthesis_stays(
    buf: Seq<i32>,
    base: int,
    a: Seq<i16>,
    order: int,
    n: int,
    m: int,
    j: int,
)
    requires
        0 <= m <= n,
        0 <= base,
        base + n <= buf.len(),
        0 <= j < base + m,
    ensures
        synthesis(buf, base, a, order, n).len() == buf.len(),
        synthesis(buf, base, a, order, n)[j] == synthesis(buf, base, a, order, m)[j],
    decreases n - m,
{
    if n > m {
        lemma_synthesis_stays(buf, base, a, order, n - 1, m, j);
    } else {
        lemma_synthesis_len(buf, base, a, order, n);
    }
}

proof fn lemma_synthesis_len(buf: Seq<i32>, base: int, a: Seq<i16>, order: int, n: int)
    requires
        0 <= base,
        base + n <= buf.len(),
    ensures
        synthesis(buf, base, a, order, n).len() == buf.len(),
    decreases n,
{
    if n > 0 {
        lemma_synthesis_len(buf, base, a, order, n - 1);
    }
}

pub proof fn lemma_weighted_alike(y: Seq<i32>, z: Seq<i32>, o: int, p: int, a: Seq<i16>, n: int)
    requires
        forall|j: int| 1 <= j <= n ==> #[trigger] y[o - j] == z[p - j],
    ensures
        weighted_past(y, o, a, n) == weighted_past(z, p, a, n),
    decreases n,
{
    if n > 0 {
        lemma_weighted_alike(y, z, o, p, a, n - 1);
        assert(y[o - n] == z[p - n]);
    }
}

/// Short-term synthesis is the inverse of prediction: every sample is what stood
/// there with its prediction from the synthesized samples before it added.
pub proof fn law_synthesis_puts_the_prediction_back(
    buf: Seq<i32>,
    base: int,
    a: Seq<i16>,
    order: int,
    n: int,
    i: int,
)
    requires
        order == 10 || order == 16,
        order <= base,
        base + n <= buf.len(),
        0 <= i < n,
    ensures
        is_predicted(
            synthesis(buf, base, a, order, n),
            base + i,
            buf[base + i] as int,
            a,
            order,
        ),
{
    let y = synthesis(buf, base, a, order, n);
    let b = synthesis(buf, base, a, order, i);
    let o = base + i;
    lemma_synthesis_elsewhere(buf, base, a, order, i, o);
    assert forall|j: int| 1 <= j <= order implies #[trigger] y[o - j] == b[o - j] by {
        lemma_synthesis_stays(buf, base, a, order, n, i, o - j);
    }
    lemma_weighted_alike(y, b, o, o, a, order);
    lemma_synthesis_stays(buf, base, a, order, n, i + 1, o);
    lemma_synthesized_is_predicted(b, o, a, order);
    assert(synthesis(buf, base, a, order, i + 1)[o] == synthesized(b, o, a, order) as i32);
}

/// A synthesized sample is put out at its gain.
pub proof fn law_a_sample_is_put_out_at_its_gain(x: int, gain_q16: int)
    requires
        is_word(x),
        0 < gain_q16 <= 0x7fff_ffff,
    ensures
        is_put_out(scaled_sample(x, rshift(gain_q16, 6)), x, gain_q16),
{
    vstd::arithmetic::power2::lemma2_to64();
    let g = gain_q16 / 64;
    assert(rshift(gain_q16, 6) == g);
    let rest = gain_q16 % 64;
    let t = x * gain_q16;
    let m: int = if x < 0 {
        -x
    } else {
        x
    };
    let u = x * g;
    assert(t == 64 * u + x * rest) by (nonlinear_arith)
        requires
            t == x * gain_q16,
            u == x * g,
            gain_q16 == 64 * g + rest,
    ;
    assert(-64 * m <= x * rest <= 64 * m) by (nonlinear_arith)
        requires
            0 <= rest < 64,
            m == (if x < 0 {
                -x
            } else {
                x
            }),
    ;
    if -0x7fff * 0x4000_0000 <= t <= 0x7fff * 0x4000_0000 {
        assert(-0x800_0000_0000 <= u <= 0x800_0000_0000);
        let w = u / 0x1_0000;
        lemma_wrap_is_word(w);
        assert(smulww(x, g) == w);
        let q = (w + 128) / 256;
        assert(rshift_round(w, 8) == q);
        let r = sat16(q);
        assert(q * 0x4000_0000 - 64 * u <= 0x2040_0000);
        assert(q * 0x4000_0000 - 64 * u >= -0x2040_0000);
    }
}

// ---------------------------------------------------------------------------
// Long-term prediction
// ---------------------------------------------------------------------------
pub(crate) proof fn lemma_long_term_is_the_sum(buf: Seq<i32>, at: int, b: Seq<i16>)
    ensures
        ({
            let s = b[0] * buf[at] + b[1] * buf[at - 1] + b[2] * buf[at - 2] + b[3] * buf[at - 3]
                + b[4] * buf[at - 4];
            exists|v: int|
                #[trigger] wrap(v) == long_term(buf, at, b, 5) && s - 0x5_0000 <= 0x1_0000 * (v - 2)
                    <= s
        }),
{
    reveal_with_fuel(long_term, 6);
    let p0 = smulwb(buf[at] as int, b[0] as int);
    let p1 = smulwb(buf[at - 1] as int, b[1] as int);
    let p2 = smulwb(buf[at - 2] as int, b[2] as int);
    let p3 = smulwb(buf[at - 3] as int, b[3] as int);
    let p4 = smulwb(buf[at - 4] as int, b[4] as int);
    lemma_tap(buf[at] as int, b[0] as int);
    lemma_tap(buf[at - 1] as int, b[1] as int);
    lemma_tap(buf[at - 2] as int, b[2] as int);
    lemma_tap(buf[at - 3] as int, b[3] as int);
    lemma_tap(buf[at - 4] as int, b[4] as int);
    let v = 2 + p0 + p1 + p2 + p3 + p4;
    assert(buf[at - 0] == buf[at]);
    lemma_wraps_once(2 + p0, p1);
    lemma_wraps_once(2 + p0 + p1, p2);
    lemma_wraps_once(2 + p0 + p1 + p2, p3);
    lemma_wraps_once(2 + p0 + p1 + p2 + p3, p4);
    assert(long_term(buf, at, b, 0) == 2);
    assert(long_term(buf, at, b, 1) == wrap(2 + p0));
    assert(long_term(buf, at, b, 2) == wrap(2 + p0 + p1));
    assert(long_term(buf, at, b, 3) == wrap(2 + p0 + p1 + p2));
    assert(long_term(buf, at, b, 4) == wrap(2 + p0 + p1 + p2 + p3));
    assert(long_term(buf, at, b, 5) == wrap(v));
}

pub(crate) proof fn lemma_wraps_once(v: int, p: int)
    ensures
        wrap(wrap(v) + p) == wrap(v + p),
{
    let m = 0x1_0000_0000int;
    vstd::arithmetic::div_mod::lemma_add_mod_noop(v, p, m);
    vstd::arithmetic::div_mod::lemma_add_mod_noop(wrap(v), p, m);
}

pub(crate) proof fn lemma_tap(x: int, c: int)
    requires
        -32768 <= c <= 32767,
    ensures
        c * x - 0x1_0000 < 0x1_0000 * smulwb(x, c) <= c * x,
{
    lemma_wrap_is_word(c);
    assert(x * c == c * x) by (nonlinear_arith);
}

} // verus!
