//! Changing the sampling rate.

use vstd::prelude::*;

use crate::silk::macros::{
    lemma_product_bound, lshift, rshift_round, sat16, silk_add32_ovflw, silk_lshift,
    silk_rshift_round, silk_sat16, silk_smlawb, silk_smulwb, silk_sub32_ovflw, smlawb, smulwb, wrap,
};

verus! {

/// The first all-pass coefficient of [`silk_resampler_down2`].
pub const SILK_RESAMPLER_DOWN2_0: i32 = 9872;

/// The second all-pass coefficient of [`silk_resampler_down2`].
pub const SILK_RESAMPLER_DOWN2_1: i32 = -25727;

/// Coefficients of [`silk_resampler_down2_3`]: two of the recursive filter, then
/// the taps.
pub const SILK_RESAMPLER_2_3_COEFS_LQ: [i16; 6] = [-2797, -6507, 4697, 10739, 1567, 8276];

// ---------------------------------------------------------------------------
// Twice the rate
// ---------------------------------------------------------------------------
/// The state of three all-pass sections in a row.
pub struct Chain {
    pub a: int,
    pub b: int,
    pub c: int,
}

/// The output of an all-pass section with state `s` and coefficient `k`.
pub open spec fn section_out(s: int, x: int, k: int) -> int {
    wrap(s + smulwb(wrap(x - s), k))
}

/// The next state of such a section.
pub open spec fn section_next(s: int, x: int, k: int) -> int {
    wrap(x + smulwb(wrap(x - s), k))
}

/// The output of an all-pass section whose coefficient is one more than `k`.
pub open spec fn steep_out(s: int, x: int, k: int) -> int {
    wrap(s + smlawb(wrap(x - s), wrap(x - s), k))
}

/// The next state of such a section.
pub open spec fn steep_next(s: int, x: int, k: int) -> int {
    wrap(x + smlawb(wrap(x - s), wrap(x - s), k))
}

/// The output of a chain.
#[verifier::opaque]
pub open spec fn chain_out(h: Chain, x: int, k0: int, k1: int, k2: int) -> int {
    steep_out(h.c, section_out(h.b, section_out(h.a, x, k0), k1), k2)
}

/// The next state of a chain.
#[verifier::opaque]
pub open spec fn chain_next(h: Chain, x: int, k0: int, k1: int, k2: int) -> Chain {
    let y = section_out(h.a, x, k0);
    let z = section_out(h.b, y, k1);
    Chain { a: section_next(h.a, x, k0), b: section_next(h.b, y, k1), c: steep_next(h.c, z, k2) }
}

/// The chain of the even output samples behind `n` input samples.
pub open spec fn even_chain(h: Chain, x: Seq<i16>, n: int) -> Chain
    decreases n,
{
    if n <= 0 {
        h
    } else {
        chain_next(even_chain(h, x, n - 1), x[n - 1] * 1024, 1746, 14986, -26453)
    }
}

/// The chain of the odd output samples behind `n` input samples.
pub open spec fn odd_chain(h: Chain, x: Seq<i16>, n: int) -> Chain
    decreases n,
{
    if n <= 0 {
        h
    } else {
        chain_next(odd_chain(h, x, n - 1), x[n - 1] * 1024, 6854, 25769, -9994)
    }
}

/// The chain in the first three of six numbers.
pub open spec fn first_chain(s: Seq<i32>) -> Chain {
    Chain { a: s[0] as int, b: s[1] as int, c: s[2] as int }
}

/// The chain in the last three of six numbers.
pub open spec fn second_chain(s: Seq<i32>) -> Chain {
    Chain { a: s[3] as int, b: s[4] as int, c: s[5] as int }
}

/// Sample `i` of a signal at twice the rate.
pub open spec fn up2_sample(s: Seq<i32>, x: Seq<i16>, i: int) -> int {
    let k = i / 2;
    let v = if i % 2 == 0 {
        chain_out(even_chain(first_chain(s), x, k), x[k] * 1024, 1746, 14986, -26453)
    } else {
        chain_out(odd_chain(second_chain(s), x, k), x[k] * 1024, 6854, 25769, -9994)
    };
    sat16(rshift_round(v, 10))
}

/// Three filter states.
#[derive(Clone, Copy)]
struct Triple {
    a: i32,
    b: i32,
    c: i32,
}

fn run_chain(h: Triple, x: i32, k0: i32, k1: i32, k2: i32) -> (r: (i32, Triple))
    ensures
        ({
            let g = Chain { a: h.a as int, b: h.b as int, c: h.c as int };
            let n = chain_next(g, x as int, k0 as int, k1 as int, k2 as int);
            &&& r.0 == chain_out(g, x as int, k0 as int, k1 as int, k2 as int)
            &&& r.1.a == n.a
            &&& r.1.b == n.b
            &&& r.1.c == n.c
        }),
{
    reveal(chain_out);
    reveal(chain_next);
    let p: i32 = silk_smulwb(silk_sub32_ovflw(x, h.a), k0);
    let y: i32 = silk_add32_ovflw(h.a, p);
    let a: i32 = silk_add32_ovflw(x, p);
    let q: i32 = silk_smulwb(silk_sub32_ovflw(y, h.b), k1);
    let z: i32 = silk_add32_ovflw(h.b, q);
    let b: i32 = silk_add32_ovflw(y, q);
    let d: i32 = silk_sub32_ovflw(z, h.c);
    let r: i32 = silk_smlawb(d, d, k2);
    let o: i32 = silk_add32_ovflw(h.c, r);
    let c: i32 = silk_add32_ovflw(z, r);
    (o, Triple { a, b, c })
}

/// Double the rate of the first `len` samples of `input`. The six numbers of
/// `s` carry the filters from call to call.
pub fn silk_resampler_private_up2_hq(s: &mut [i32], out: &mut [i16], input: &[i16], len: i32)
    requires
        len >= 0,
        old(s)@.len() >= 6,
        len <= input@.len(),
        2 * len <= old(out)@.len(),
    ensures
        final(s)@.len() == old(s)@.len(),
        first_chain(final(s)@) == even_chain(first_chain(old(s)@), input@, len as int),
        second_chain(final(s)@) == odd_chain(second_chain(old(s)@), input@, len as int),
        final(s)@.skip(6) == old(s)@.skip(6),
        final(out)@.len() == old(out)@.len(),
        forall|i: int|
            0 <= i < old(out)@.len() ==> #[trigger] final(out)@[i] == if i < 2 * len {
                up2_sample(old(s)@, input@, i)
            } else {
                old(out)@[i] as int
            },
{
    let ghost start = s@;
    let ghost before = out@;
    let n: usize = len as usize;
    let room: usize = out.len();
    let mut even: Triple = Triple { a: s[0], b: s[1], c: s[2] };
    let mut odd: Triple = Triple { a: s[3], b: s[4], c: s[5] };
    let mut k: usize = 0;
    while k < n
        invariant
            k <= n <= input@.len(),
            2 * n <= room == out@.len(),
            out@.len() == before.len(),
            (Chain { a: even.a as int, b: even.b as int, c: even.c as int }) == even_chain(
                first_chain(start),
                input@,
                k as int,
            ),
            (Chain { a: odd.a as int, b: odd.b as int, c: odd.c as int }) == odd_chain(
                second_chain(start),
                input@,
                k as int,
            ),
            forall|i: int|
                0 <= i < out@.len() ==> #[trigger] out@[i] == if i < 2 * k {
                    up2_sample(start, input@, i)
                } else {
                    before[i] as int
                },
        decreases n - k,
    {
        let x: i32 = input[k] as i32 * 1024;
        let (v, e) = run_chain(even, x, 1746, 14986, -26453);
        let (w, o) = run_chain(odd, x, 6854, 25769, -9994);
        assert((2 * k) as int / 2 == k && (2 * k) as int % 2 == 0);
        assert((2 * k + 1) as int / 2 == k && (2 * k + 1) as int % 2 == 1);
        out[2 * k] = silk_sat16(silk_rshift_round(v, 10));
        out[2 * k + 1] = silk_sat16(silk_rshift_round(w, 10));
        even = e;
        odd = o;
        k += 1;
    }
    s[0] = even.a;
    s[1] = even.b;
    s[2] = even.c;
    s[3] = odd.a;
    s[4] = odd.b;
    s[5] = odd.c;
    assert(s@.skip(6) =~= start.skip(6));
}

// ---------------------------------------------------------------------------
// Half the rate
// ---------------------------------------------------------------------------
/// The state of the section for the even input samples behind `n` pairs.
pub open spec fn down2_even(s: int, x: Seq<i16>, n: int) -> int
    decreases n,
{
    if n <= 0 {
        s
    } else {
        steep_next(down2_even(s, x, n - 1), x[2 * n - 2] * 1024, SILK_RESAMPLER_DOWN2_1 as int)
    }
}

/// The state of the section for the odd input samples behind `n` pairs.
pub open spec fn down2_odd(s: int, x: Seq<i16>, n: int) -> int
    decreases n,
{
    if n <= 0 {
        s
    } else {
        section_next(down2_odd(s, x, n - 1), x[2 * n - 1] * 1024, SILK_RESAMPLER_DOWN2_0 as int)
    }
}

/// Sample `k` of a signal at half the rate.
pub open spec fn down2_sample(s0: int, s1: int, x: Seq<i16>, k: int) -> int {
    let e = down2_even(s0, x, k);
    let o = down2_odd(s1, x, k);
    let xe = x[2 * k] * 1024;
    let xo = x[2 * k + 1] * 1024;
    let sum = wrap(
        wrap(steep_out(e, xe, SILK_RESAMPLER_DOWN2_1 as int) + o) + smulwb(
            wrap(xo - o),
            SILK_RESAMPLER_DOWN2_0 as int,
        ),
    );
    sat16(rshift_round(sum, 11))
}

/// Halve the rate of the first `in_len` samples of `input`; of an odd number
/// the last is left out. The first two numbers of `s` carry the filters from
/// call to call.
pub fn silk_resampler_down2(s: &mut [i32], out: &mut [i16], input: &[i16], in_len: i32)
    requires
        in_len >= 0,
        old(s)@.len() >= 2,
        2 * (in_len / 2) <= input@.len(),
        in_len / 2 <= old(out)@.len(),
    ensures
        final(s)@ == old(s)@.update(
            0,
            down2_even(old(s)@[0] as int, input@, in_len as int / 2) as i32,
        ).update(1, down2_odd(old(s)@[1] as int, input@, in_len as int / 2) as i32),
        final(out)@.len() == old(out)@.len(),
        forall|i: int|
            0 <= i < old(out)@.len() ==> #[trigger] final(out)@[i] == if i < in_len as int / 2 {
                down2_sample(old(s)@[0] as int, old(s)@[1] as int, input@, i)
            } else {
                old(out)@[i] as int
            },
{
    let ghost start = s@;
    let ghost before = out@;
    let n: usize = (in_len / 2) as usize;
    let mut e: i32 = s[0];
    let mut o: i32 = s[1];
    let mut k: usize = 0;
    while k < n
        invariant
            k <= n,
            2 * n <= input@.len(),
            n <= out@.len(),
            n <= 0x4000_0000,
            out@.len() == before.len(),
            e == down2_even(start[0] as int, input@, k as int),
            o == down2_odd(start[1] as int, input@, k as int),
            forall|i: int|
                0 <= i < out@.len() ==> #[trigger] out@[i] == if i < k {
                    down2_sample(start[0] as int, start[1] as int, input@, i)
                } else {
                    before[i] as int
                },
        decreases n - k,
    {
        let xe: i32 = input[2 * k] as i32 * 1024;
        let y: i32 = silk_sub32_ovflw(xe, e);
        let p: i32 = silk_smlawb(y, y, SILK_RESAMPLER_DOWN2_1);
        let first: i32 = silk_add32_ovflw(e, p);
        let xo: i32 = input[2 * k + 1] as i32 * 1024;
        let q: i32 = silk_smulwb(silk_sub32_ovflw(xo, o), SILK_RESAMPLER_DOWN2_0);
        let sum: i32 = silk_add32_ovflw(silk_add32_ovflw(first, o), q);
        out[k] = silk_sat16(silk_rshift_round(sum, 11));
        e = silk_add32_ovflw(xe, p);
        o = silk_add32_ovflw(xo, q);
        k += 1;
    }
    s[0] = e;
    s[1] = o;
    assert(s@ =~= start.update(0, e).update(1, o));
}

// ---------------------------------------------------------------------------
// Two thirds of the rate
// ---------------------------------------------------------------------------
/// A second-order recursive filter: its two states behind `n` samples.
pub open spec fn ar2_state(s: (int, int), x: Seq<i16>, a0: int, a1: int, n: int) -> (int, int)
    decreases n,
{
    if n <= 0 {
        s
    } else {
        let t = ar2_state(s, x, a0, a1, n - 1);
        let y = wrap(t.0 + x[n - 1] * 256);
        (wrap(t.1 + smlawb(y, y, a0)), smlawb(0, y, a1))
    }
}

/// Its output for sample `k`, Q8.
pub open spec fn ar2_sample(s: (int, int), x: Seq<i16>, a0: int, a1: int, k: int) -> int {
    wrap(ar2_state(s, x, a0, a1, k).0 + x[k] * 256)
}

/// Filter the first `len` samples of `input`. The first two numbers of `s` carry
/// the filter from call to call.
pub fn silk_resampler_private_ar2(
    s: &mut [i32],
    out_q8: &mut [i32],
    input: &[i16],
    a_q14: &[i16],
    len: i32,
)
    requires
        len >= 0,
        old(s)@.len() >= 2,
        len <= input@.len(),
        len <= old(out_q8)@.len(),
        a_q14@.len() >= 2,
    ensures
        ({
            let t = ar2_state(
                (old(s)@[0] as int, old(s)@[1] as int),
                input@,
                a_q14@[0] as int,
                a_q14@[1] as int,
                len as int,
            );
            &&& final(s)@.len() == old(s)@.len()
            &&& final(s)@[0] == t.0
            &&& final(s)@[1] == t.1
            &&& final(s)@.skip(2) == old(s)@.skip(2)
        }),
        final(out_q8)@.len() == old(out_q8)@.len(),
        forall|i: int|
            0 <= i < old(out_q8)@.len() ==> #[trigger] final(out_q8)@[i] == if i < len {
                ar2_sample(
                    (old(s)@[0] as int, old(s)@[1] as int),
                    input@,
                    a_q14@[0] as int,
                    a_q14@[1] as int,
                    i,
                )
            } else {
                old(out_q8)@[i] as int
            },
{
    let ghost start = s@;
    let ghost before = out_q8@;
    let n: usize = len as usize;
    let a0: i32 = a_q14[0] as i32;
    let a1: i32 = a_q14[1] as i32;
    let mut s0: i32 = s[0];
    let mut s1: i32 = s[1];
    let mut k: usize = 0;
    while k < n
        invariant
            k <= n <= input@.len(),
            n <= out_q8@.len(),
            out_q8@.len() == before.len(),
            (s0 as int, s1 as int) == ar2_state(
                (start[0] as int, start[1] as int),
                input@,
                a0 as int,
                a1 as int,
                k as int,
            ),
            forall|i: int|
                0 <= i < out_q8@.len() ==> #[trigger] out_q8@[i] == if i < k {
                    ar2_sample(
                        (start[0] as int, start[1] as int),
                        input@,
                        a0 as int,
                        a1 as int,
                        i,
                    )
                } else {
                    before[i] as int
                },
        decreases n - k,
    {
        let y: i32 = silk_add32_ovflw(s0, input[k] as i32 * 256);
        s0 = silk_add32_ovflw(s1, silk_smlawb(y, y, a0));
        s1 = silk_smlawb(0, y, a1);
        out_q8[k] = y;
        k += 1;
    }
    s[0] = s0;
    s[1] = s1;
    assert(s@.skip(2) =~= start.skip(2));
}

/// The filtered signal behind the four samples of history.
pub open spec fn filtered_2_3(s: Seq<i32>, x: Seq<i16>, i: int) -> int {
    if i < 4 {
        s[i] as int
    } else {
        ar2_sample((s[4] as int, s[5] as int), x, -2797, -6507, i - 4)
    }
}

/// A weighted sum of four samples, Q6.
pub open spec fn four_taps(
    y0: int,
    y1: int,
    y2: int,
    y3: int,
    c0: int,
    c1: int,
    c2: int,
    c3: int,
) -> int {
    smlawb(smlawb(smlawb(smulwb(y0, c0), y1, c1), y2, c2), y3, c3)
}

/// Sample `i` of a signal at two thirds of the rate: two for every three.
pub open spec fn down2_3_sample(s: Seq<i32>, x: Seq<i16>, i: int) -> int {
    let b = 3 * (i / 2);
    let y1 = filtered_2_3(s, x, b + 1);
    let y2 = filtered_2_3(s, x, b + 2);
    let y3 = filtered_2_3(s, x, b + 3);
    if i % 2 == 0 {
        sat16(
            rshift_round(
                four_taps(filtered_2_3(s, x, b), y1, y2, y3, 4697, 10739, 8276, 1567),
                9,
            ),
        )
    } else {
        sat16(
            rshift_round(
                four_taps(y1, y2, y3, filtered_2_3(s, x, b + 4), 1567, 8276, 10739, 4697),
                8,
            ),
        )
    }
}

fn weigh_four(y0: i32, y1: i32, y2: i32, y3: i32, c0: i32, c1: i32, c2: i32, c3: i32) -> (r: i32)
    ensures
        r == four_taps(
            y0 as int,
            y1 as int,
            y2 as int,
            y3 as int,
            c0 as int,
            c1 as int,
            c2 as int,
            c3 as int,
        ),
{
    silk_smlawb(silk_smlawb(silk_smlawb(silk_smulwb(y0, c0), y1, c1), y2, c2), y3, c3)
}

/// Bring the first `in_len` samples of `input` to two thirds of their rate; of a
/// number that three does not divide the rest only enters the filter. The six
/// numbers of `s` carry it from call to call: four samples of history and the
/// two states.
pub fn silk_resampler_down2_3(s: &mut [i32], out: &mut [i16], input: &[i16], in_len: i32)
    requires
        in_len >= 0,
        old(s)@.len() >= 6,
        in_len <= input@.len(),
        2 * (in_len as int / 3) <= old(out)@.len(),
    ensures
        final(out)@.len() == old(out)@.len(),
        forall|i: int|
            0 <= i < old(out)@.len() ==> #[trigger] final(out)@[i] == if i < 2 * (in_len as int
                / 3) {
                down2_3_sample(old(s)@, input@, i)
            } else {
                old(out)@[i] as int
            },
        final(s)@.len() == old(s)@.len(),
        forall|i: int|
            0 <= i < 4 ==> #[trigger] final(s)@[i] == filtered_2_3(
                old(s)@,
                input@,
                in_len + i,
            ),
        (final(s)@[4] as int, final(s)@[5] as int) == ar2_state(
            (old(s)@[4] as int, old(s)@[5] as int),
            input@,
            -2797,
            -6507,
            in_len as int,
        ),
        final(s)@.skip(6) == old(s)@.skip(6),
{
    let ghost start = s@;
    let ghost before = out@;
    let n: usize = in_len as usize;
    let room: usize = out.len();
    let mut pair: [i32; 2] = [s[4], s[5]];
    let mut filtered: Vec<i32> = vec![0i32; n];
    silk_resampler_private_ar2(
        &mut pair,
        filtered.as_mut_slice(),
        input,
        &SILK_RESAMPLER_2_3_COEFS_LQ,
        in_len,
    );
    let mut y: Vec<i32> = Vec::with_capacity(n + 4);
    let mut i: usize = 0;
    while i < n + 4
        invariant
            i <= n + 4,
            n <= 0x7fff_ffff,
            s@ == start,
            start.len() >= 6,
            filtered@.len() == n,
            forall|j: int|
                0 <= j < n ==> #[trigger] filtered@[j] == ar2_sample(
                    (start[4] as int, start[5] as int),
                    input@,
                    -2797,
                    -6507,
                    j,
                ),
            y@.len() == i,
            forall|j: int| 0 <= j < i ==> #[trigger] y@[j] == filtered_2_3(start, input@, j),
        decreases n + 4 - i,
    {
        if i < 4 {
            y.push(s[i]);
        } else {
            y.push(filtered[i - 4]);
        }
        i += 1;
    }
    let pairs: usize = n / 3;
    let mut m: usize = 0;
    while m < pairs
        invariant
            m <= pairs == n as int / 3,
            n <= 0x7fff_ffff,
            y@.len() == n + 4,
            forall|j: int| 0 <= j < n + 4 ==> #[trigger] y@[j] == filtered_2_3(start, input@, j),
            2 * pairs <= room == out@.len(),
            out@.len() == before.len(),
            forall|j: int|
                0 <= j < out@.len() ==> #[trigger] out@[j] == if j < 2 * m {
                    down2_3_sample(start, input@, j)
                } else {
                    before[j] as int
                },
        decreases pairs - m,
    {
        let b: usize = 3 * m;
        assert((2 * m) as int / 2 == m && (2 * m) as int % 2 == 0);
        assert((2 * m + 1) as int / 2 == m && (2 * m + 1) as int % 2 == 1);
        let v: i32 = weigh_four(y[b], y[b + 1], y[b + 2], y[b + 3], 4697, 10739, 8276, 1567);
        let w: i32 = weigh_four(y[b + 1], y[b + 2], y[b + 3], y[b + 4], 1567, 8276, 10739, 4697);
        out[2 * m] = silk_sat16(silk_rshift_round(v, 9));
        out[2 * m + 1] = silk_sat16(silk_rshift_round(w, 8));
        m += 1;
    }
    s[0] = y[n];
    s[1] = y[n + 1];
    s[2] = y[n + 2];
    s[3] = y[n + 3];
    s[4] = pair[0];
    s[5] = pair[1];
    assert(s@.skip(6) =~= start.skip(6));
}

// ---------------------------------------------------------------------------
// From the internal rate up
// ---------------------------------------------------------------------------
/// Taps of the fractional interpolation, one row for each twelfth of a sample.
pub const FIR_COEFS_12_8: [[i16; 8]; 12] = [
    [189, -600, 617, 30567, 2996, -1375, 425, -46],
    [117, -159, -1070, 29704, 5784, -2143, 611, -71],
    [52, 221, -2392, 28276, 8798, -2865, 773, -91],
    [-4, 529, -3350, 26341, 11950, -3487, 896, -103],
    [-48, 758, -3956, 23973, 15143, -3957, 967, -107],
    [-80, 905, -4235, 21254, 18278, -4222, 972, -99],
    [-99, 972, -4222, 18278, 21254, -4235, 905, -80],
    [-107, 967, -3957, 15143, 23973, -3956, 758, -48],
    [-103, 896, -3487, 11950, 26341, -3350, 529, -4],
    [-91, 773, -2865, 8798, 28276, -2392, 221, 52],
    [-71, 611, -2143, 5784, 29704, -1070, -159, 117],
    [-46, 425, -1375, 2996, 30567, 617, -600, 189],
];

/// The first `n` of the eight taps of row `t` applied from sample `b` on.
pub open spec fn fir12_sum(buf: Seq<i16>, b: int, t: int, n: int) -> int
    decreases n,
{
    if n <= 0 {
        0
    } else {
        wrap(fir12_sum(buf, b, t, n - 1) + buf[b + n - 1] * FIR_COEFS_12_8@[t]@[n - 1])
    }
}

/// The signal at position `at`, Q16.
pub open spec fn interpolated(buf: Seq<i16>, at: int) -> int {
    sat16(rshift_round(fir12_sum(buf, at / 0x1_0000, at % 0x1_0000 * 12 / 0x1_0000, 8), 15))
}

/// How many positions a step of `inc` apart lie below `end`.
pub open spec fn steps_below(end: int, inc: int) -> int {
    (end + inc - 1) / inc
}

/// The signal at every step of `inc` over `n` samples of the lower rate.
pub open spec fn interpolation(buf: Seq<i16>, n: int, inc: int) -> Seq<i16> {
    Seq::new(
        steps_below(n * 0x2_0000, inc) as nat,
        |k: int| interpolated(buf, k * inc) as i16,
    )
}

/// What the fractional resampler carries from block to block.
pub struct UpState {
    /// The six numbers of the doubling.
    pub iir: Seq<i32>,
    /// The last eight samples at twice the rate.
    pub fir: Seq<i16>,
}

/// The signal at twice the rate.
pub open spec fn doubled(iir: Seq<i32>, x: Seq<i16>) -> Seq<i16> {
    Seq::new(2 * x.len(), |i: int| up2_sample(iir, x, i) as i16)
}

/// The six numbers behind it.
pub open spec fn doubled_next(iir: Seq<i32>, x: Seq<i16>) -> Seq<i32> {
    let e = even_chain(first_chain(iir), x, x.len() as int);
    let o = odd_chain(second_chain(iir), x, x.len() as int);
    seq![e.a as i32, e.b as i32, e.c as i32, o.a as i32, o.b as i32, o.c as i32]
}

/// The samples a batch is interpolated from.
pub open spec fn batch_buf(st: UpState, x: Seq<i16>) -> Seq<i16> {
    st.fir + doubled(st.iir, x)
}

/// The state behind a batch.
pub open spec fn batch_next(st: UpState, x: Seq<i16>) -> UpState {
    let n = 2 * x.len() as int;
    UpState { iir: doubled_next(st.iir, x), fir: batch_buf(st, x).subrange(n, n + 8) }
}

/// How much of a block goes into the next batch.
pub open spec fn batch_len(x: Seq<i16>, batch: int) -> int {
    if x.len() < batch {
        x.len() as int
    } else {
        batch
    }
}

/// A block resampled batch by batch.
pub open spec fn resampled(st: UpState, x: Seq<i16>, batch: int, inc: int) -> Seq<i16>
    decreases x.len(),
{
    if x.len() == 0 || batch <= 0 {
        Seq::empty()
    } else {
        let n = batch_len(x, batch);
        interpolation(batch_buf(st, x.take(n)), n, inc) + resampled(
            batch_next(st, x.take(n)),
            x.skip(n),
            batch,
            inc,
        )
    }
}

/// The state behind a block.
pub open spec fn resampled_next(st: UpState, x: Seq<i16>, batch: int) -> UpState
    decreases x.len(),
{
    if x.len() == 0 || batch <= 0 {
        st
    } else {
        let n = batch_len(x, batch);
        resampled_next(batch_next(st, x.take(n)), x.skip(n), batch)
    }
}

/// `y` written over `out` from `at` on, as far as there is room.
pub open spec fn overlaid(out: Seq<i16>, at: int, y: Seq<i16>) -> Seq<i16> {
    Seq::new(
        out.len(),
        |i: int|
            if at <= i < at + y.len() {
                y[i - at]
            } else {
                out[i]
            },
    )
}

fn fir12(buf: &Vec<i16>, b: usize, t: usize) -> (r: i32)
    requires
        b + 8 <= buf@.len(),
        t < 12,
    ensures
        r == fir12_sum(buf@, b as int, t as int, 8),
{
    let mut r: i32 = 0;
    let mut j: usize = 0;
    let n: usize = buf.len();
    while j < 8
        invariant
            j <= 8,
            b + 8 <= n == buf@.len(),
            t < 12,
            r == fir12_sum(buf@, b as int, t as int, j as int),
        decreases 8 - j,
    {
        let x: i32 = buf[b + j] as i32;
        let c: i32 = FIR_COEFS_12_8[t][j] as i32;
        proof {
            lemma_product_bound(x as int, c as int, 32768, 32768);
        }
        r = silk_add32_ovflw(r, x * c);
        j += 1;
    }
    r
}

fn interpolate(buf: &Vec<i16>, n: usize, inc: i32) -> (y: Vec<i16>)
    requires
        n <= 480,
        buf@.len() == 2 * n + 8,
        inc >= 1,
    ensures
        y@ == interpolation(buf@, n as int, inc as int),
{
    let end: i64 = n as i64 * 0x2_0000;
    let mut y: Vec<i16> = Vec::new();
    let mut at: i64 = 0;
    proof {
        assert(inc * 0 == 0) by (nonlinear_arith);
    }
    while at < end
        invariant
            n <= 480,
            buf@.len() == 2 * n + 8,
            inc >= 1,
            end == n * 0x2_0000,
            at == y@.len() * inc,
            0 <= at < end + inc,
            y@.len() <= at,
            forall|k: int|
                0 <= k < y@.len() ==> #[trigger] y@[k] == interpolated(buf@, k * inc) as i16,
        decreases end + inc - at,
    {
        let b: usize = (at / 0x1_0000) as usize;
        let t: usize = (at % 0x1_0000 * 12 / 0x1_0000) as usize;
        y.push(silk_sat16(silk_rshift_round(fir12(buf, b, t), 15)));
        proof {
            let k: int = y@.len() - 1;
            let i: int = inc as int;
            assert((k + 1) * i == k * i + i) by (nonlinear_arith);
        }
        at = at + inc as i64;
    }
    proof {
        let c: int = y@.len() as int;
        let i: int = inc as int;
        let e: int = end as int;
        assert(c == (e + i - 1) / i) by (nonlinear_arith)
            requires
                c * i >= e,
                c * i < e + i,
                i >= 1,
        ;
        assert(y@ =~= interpolation(buf@, n as int, inc as int));
    }
    y
}

/// How a resampler gets from one rate to the other.
#[derive(Debug, Clone, Copy, PartialEq, Eq)]
pub enum ResamplerMode {
    /// Samples pass unchanged.
    Copy,
    /// The rate is doubled.
    Up2HQ,
    /// The rate is doubled, then interpolated.
    IirFir,
}

/// Samples held back, by input and output rate.
pub const DELAY_MATRIX_DEC: [[i8; 6]; 3] = [
    [4, 0, 2, 0, 0, 0],
    [0, 9, 4, 7, 4, 4],
    [0, 3, 12, 7, 7, 7],
];

/// The row or column of a rate; rates that are not listed share the last.
pub open spec fn rate_index(rate_hz: int) -> int {
    if rate_hz == 8000 {
        0
    } else if rate_hz == 12000 {
        1
    } else if rate_hz == 16000 {
        2
    } else if rate_hz == 24000 {
        3
    } else if rate_hz == 48000 {
        4
    } else {
        5
    }
}

fn rate_id(rate_hz: i32) -> (i: usize)
    ensures
        i == rate_index(rate_hz as int),
        i <= 5,
{
    if rate_hz == 8000 {
        0
    } else if rate_hz == 12000 {
        1
    } else if rate_hz == 16000 {
        2
    } else if rate_hz == 24000 {
        3
    } else if rate_hz == 48000 {
        4
    } else {
        5
    }
}

/// The mode between two rates.
pub open spec fn mode_between(fs_in: int, fs_out: int) -> ResamplerMode {
    if fs_out == fs_in {
        ResamplerMode::Copy
    } else if fs_out == 2 * fs_in {
        ResamplerMode::Up2HQ
    } else {
        ResamplerMode::IirFir
    }
}

/// The step between output samples, Q16, rounded up; fractional resampling
/// steps through the doubled signal.
pub open spec fn step_between(fs_in: int, fs_out: int) -> int {
    let whole = if mode_between(fs_in, fs_out) is IirFir {
        fs_in * 0x2_0000
    } else {
        fs_in * 0x1_0000
    };
    (whole + fs_out - 1) / fs_out
}

/// The state of a resampler.
pub struct ResamplerView {
    /// The filters.
    pub up: UpState,
    /// The input held back.
    pub held: Seq<i16>,
    /// Input rate, kHz; nought before the rates are chosen.
    pub fs_in_khz: int,
    /// Output rate, kHz.
    pub fs_out_khz: int,
    /// Samples in a batch.
    pub batch: int,
    /// The step between output samples, Q16.
    pub inc: int,
    /// How the rates are brought together.
    pub mode: ResamplerMode,
}

/// A resampler whose rates are not chosen.
pub open spec fn idle_resampler() -> ResamplerView {
    ResamplerView {
        up: UpState { iir: Seq::new(6, |i: int| 0i32), fir: Seq::new(8, |i: int| 0i16) },
        held: Seq::empty(),
        fs_in_khz: 0,
        fs_out_khz: 0,
        batch: 0,
        inc: 0,
        mode: ResamplerMode::Copy,
    }
}

/// A resampler between two rates, before its first sample.
pub open spec fn fresh_resampler(fs_in: int, fs_out: int) -> ResamplerView {
    let delay = DELAY_MATRIX_DEC@[rate_index(fs_in)]@[rate_index(fs_out)] as nat;
    ResamplerView {
        held: Seq::new(delay, |i: int| 0i16),
        fs_in_khz: fs_in / 1000,
        fs_out_khz: fs_out / 1000,
        batch: fs_in / 1000 * 10,
        inc: step_between(fs_in, fs_out),
        mode: mode_between(fs_in, fs_out),
        ..idle_resampler()
    }
}

impl ResamplerView {
    /// How many samples `in_len` of them become; nothing is known before the
    /// rates are chosen.
    pub open spec fn output_len(self, in_len: int) -> Option<int> {
        if self.fs_in_khz <= 0 || self.fs_out_khz <= 0 || in_len < 0 {
            None
        } else {
            Some(
                match self.mode {
                    ResamplerMode::Copy => in_len,
                    ResamplerMode::Up2HQ => 2 * in_len,
                    ResamplerMode::IirFir => in_len * self.fs_out_khz / self.fs_in_khz,
                },
            )
        }
    }

    /// Whether a call has the input and the room that it needs.
    pub open spec fn accepts(self, room: int, given: int, in_len: int) -> bool {
        &&& in_len >= self.fs_in_khz
        &&& in_len <= given
        &&& self.output_len(in_len) is Some
        &&& self.output_len(in_len)->0 <= room
        &&& self.fs_out_khz <= room
    }

    /// The input behind the samples held back.
    pub open spec fn delayed(self, x: Seq<i16>) -> Seq<i16> {
        self.held + x.take(x.len() - self.held.len())
    }

    /// The fractional resampling of the first millisecond.
    pub open spec fn first_part(self, x: Seq<i16>) -> Seq<i16> {
        resampled(self.up, self.delayed(x).take(self.fs_in_khz), self.batch, self.inc)
    }

    /// The filters behind it.
    pub open spec fn behind_first(self, x: Seq<i16>) -> UpState {
        resampled_next(self.up, self.delayed(x).take(self.fs_in_khz), self.batch)
    }

    /// The fractional resampling of the rest.
    pub open spec fn second_part(self, x: Seq<i16>) -> Seq<i16> {
        resampled(
            self.behind_first(x),
            self.delayed(x).skip(self.fs_in_khz),
            self.batch,
            self.inc,
        )
    }

    /// `out` once the input is resampled into it.
    pub open spec fn written(self, out: Seq<i16>, x: Seq<i16>) -> Seq<i16> {
        match self.mode {
            ResamplerMode::Copy => overlaid(out, 0, self.delayed(x)),
            ResamplerMode::Up2HQ => overlaid(out, 0, doubled(self.up.iir, self.delayed(x))),
            ResamplerMode::IirFir => {
                let y = self.first_part(x);
                let at = if y.len() < out.len() {
                    y.len() as int
                } else {
                    out.len() as int
                };
                overlaid(overlaid(out, 0, y), at, self.second_part(x))
            },
        }
    }

    /// The state behind the input.
    pub open spec fn next(self, x: Seq<i16>) -> ResamplerView {
        ResamplerView {
            up: match self.mode {
                ResamplerMode::Copy => self.up,
                ResamplerMode::Up2HQ => UpState {
                    iir: doubled_next(self.up.iir, self.delayed(x)),
                    fir: self.up.fir,
                },
                ResamplerMode::IirFir => resampled_next(
                    self.behind_first(x),
                    self.delayed(x).skip(self.fs_in_khz),
                    self.batch,
                ),
            },
            held: x.skip(x.len() - self.held.len()),
            ..self
        }
    }
}

/// A resampler from the internal rate up to the rate that is asked for.
#[derive(Clone, Copy)]
pub struct SilkResampler {
    s_iir: [i32; 6],
    s_fir: [i16; 8],
    delay_buf: [i16; 48],
    input_delay: i32,
    fs_in_khz: i32,
    fs_out_khz: i32,
    batch_size: i32,
    inv_ratio_q16: i32,
    mode: ResamplerMode,
}

impl View for SilkResampler {
    type V = ResamplerView;

    closed spec fn view(&self) -> ResamplerView {
        ResamplerView {
            up: UpState { iir: self.s_iir@, fir: self.s_fir@ },
            held: self.delay_buf@.take(self.input_delay as int),
            fs_in_khz: self.fs_in_khz as int,
            fs_out_khz: self.fs_out_khz as int,
            batch: self.batch_size as int,
            inc: self.inv_ratio_q16 as int,
            mode: self.mode,
        }
    }
}

impl Default for SilkResampler {
    fn default() -> (r: Self)
        ensures
            r.inv(),
            r@ == idle_resampler(),
    {
        let r = SilkResampler {
            s_iir: [0; 6],
            s_fir: [0; 8],
            delay_buf: [0; 48],
            input_delay: 0,
            fs_in_khz: 0,
            fs_out_khz: 0,
            batch_size: 0,
            inv_ratio_q16: 0,
            mode: ResamplerMode::Copy,
        };
        proof {
            assert(r@.up.iir =~= idle_resampler().up.iir);
            assert(r@.up.fir =~= idle_resampler().up.fir);
            assert(r@.held =~= idle_resampler().held);
        }
        r
    }
}

impl SilkResampler {
    /// What holds of a resampler between calls.
    pub closed spec fn inv(&self) -> bool {
        &&& 0 <= self.fs_in_khz <= 16
        &&& 0 <= self.input_delay <= self.fs_in_khz
        &&& 0 <= self.fs_out_khz
        &&& self.batch_size == 10 * self.fs_in_khz
        &&& self.fs_in_khz > 0 ==> self.inv_ratio_q16 >= 1
        &&& self.mode is Copy ==> self.fs_out_khz == self.fs_in_khz
        &&& self.mode is Up2HQ ==> self.fs_out_khz == 2 * self.fs_in_khz
    }

    /// Choose the rates, in Hz, and forget all samples. Returns -1, with the
    /// resampler left idle, for an input rate that is not internal.
    pub fn init(&mut self, fs_hz_in: i32, fs_hz_out: i32) -> (r: i32)
        requires
            fs_hz_out >= 1,
        ensures
            final(self).inv(),
            rate_index(fs_hz_in as int) <= 2 ==> r == 0 && final(self)@ == fresh_resampler(
                fs_hz_in as int,
                fs_hz_out as int,
            ),
            rate_index(fs_hz_in as int) > 2 ==> r == -1 && final(self)@ == idle_resampler(),
    {
        let in_id: usize = rate_id(fs_hz_in);
        let out_id: usize = rate_id(fs_hz_out);
        if in_id > 2 {
            *self = SilkResampler::default();
            return -1;
        }
        let mode: ResamplerMode = if fs_hz_out == fs_hz_in {
            ResamplerMode::Copy
        } else if fs_hz_out == fs_hz_in * 2 {
            ResamplerMode::Up2HQ
        } else {
            ResamplerMode::IirFir
        };
        let whole: i64 = if matches!(mode, ResamplerMode::IirFir) {
            fs_hz_in as i64 * 0x2_0000
        } else {
            fs_hz_in as i64 * 0x1_0000
        };
        let inc: i64 = (whole + fs_hz_out as i64 - 1) / fs_hz_out as i64;
        proof {
            let w: int = whole as int;
            let o: int = fs_hz_out as int;
            assert(1 <= (w + o - 1) / o <= w) by (nonlinear_arith)
                requires
                    w >= 1,
                    o >= 1,
            ;
            let d = DELAY_MATRIX_DEC@[in_id as int]@;
            assert(0 <= d[out_id as int] <= fs_hz_in / 1000);
        }
        *self = SilkResampler {
            s_iir: [0; 6],
            s_fir: [0; 8],
            delay_buf: [0; 48],
            input_delay: DELAY_MATRIX_DEC[in_id][out_id] as i32,
            fs_in_khz: fs_hz_in / 1000,
            fs_out_khz: fs_hz_out / 1000,
            batch_size: fs_hz_in / 1000 * 10,
            inv_ratio_q16: inc as i32,
            mode,
        };
        proof {
            assert(self@.up.iir =~= fresh_resampler(fs_hz_in as int, fs_hz_out as int).up.iir);
            assert(self@.up.fir =~= fresh_resampler(fs_hz_in as int, fs_hz_out as int).up.fir);
            assert(self@.held =~= fresh_resampler(fs_hz_in as int, fs_hz_out as int).held);
        }
        0
    }

    fn needed(&self, in_len: i32) -> (n: u64)
        requires
            self.inv(),
            self@.output_len(in_len as int) is Some,
        ensures
            Some(n as int) == self@.output_len(in_len as int),
    {
        let n: u64 = in_len as u64;
        match self.mode {
            ResamplerMode::Copy => n,
            ResamplerMode::Up2HQ => n * 2,
            ResamplerMode::IirFir => {
                proof {
                    let a: int = n as int;
                    let b: int = self.fs_out_khz as int;
                    assert(0 <= a * b <= 0x7fff_ffff * 0x7fff_ffff) by (nonlinear_arith)
                        requires
                            0 <= a <= 0x7fff_ffff,
                            0 <= b <= 0x7fff_ffff,
                    ;
                }
                n * self.fs_out_khz as u64 / self.fs_in_khz as u64
            },
        }
    }

    /// The samples that [`SilkResampler::process`] writes for `in_len` of them.
    pub fn output_len(&self, in_len: i32) -> (r: Option<usize>)
        requires
            self.inv(),
        ensures
            match self@.output_len(in_len as int) {
                None => r is None,
                Some(n) => n <= usize::MAX ==> r == Some(n as usize),
            },
            r is None ==> self@.output_len(in_len as int) is None,
    {
        if self.fs_in_khz <= 0 || self.fs_out_khz <= 0 || in_len < 0 {
            return None;
        }
        Some(self.needed(in_len) as usize)
    }
}

fn join(a: &[i16], b: &[i16]) -> (v: Vec<i16>)
    ensures
        v@ == a@ + b@,
{
    let mut v: Vec<i16> = Vec::with_capacity(a.len());
    let mut i: usize = 0;
    while i < a.len()
        invariant
            i <= a@.len(),
            v@ == a@.take(i as int),
        decreases a@.len() - i,
    {
        v.push(a[i]);
        i += 1;
        assert(v@ =~= a@.take(i as int));
    }
    assert(v@ =~= a@ + b@.take(0));
    let mut j: usize = 0;
    while j < b.len()
        invariant
            j <= b@.len(),
            v@ == a@ + b@.take(j as int),
        decreases b@.len() - j,
    {
        v.push(b[j]);
        j += 1;
        assert(v@ =~= a@ + b@.take(j as int));
    }
    assert(b@.take(b@.len() as int) =~= b@);
    v
}

pub(crate) fn overlay(out: &mut [i16], at: usize, y: &Vec<i16>) -> (end: usize)
    requires
        at <= old(out)@.len(),
    ensures
        final(out)@ == overlaid(old(out)@, at as int, y@),
        end <= final(out)@.len(),
        end == if at + y@.len() < old(out)@.len() {
            at + y@.len()
        } else {
            old(out)@.len() as int
        },
{
    let ghost before = out@;
    let room: usize = out.len();
    let mut i: usize = 0;
    while i < y.len() && at + i < room
        invariant
            i <= y@.len(),
            at + i <= room == out@.len(),
            out@.len() == before.len(),
            forall|j: int|
                0 <= j < out@.len() ==> #[trigger] out@[j] == if at <= j < at + i {
                    y@[j - at]
                } else {
                    before[j]
                },
        decreases y@.len() - i,
    {
        out[at + i] = y[i];
        i += 1;
    }
    assert(out@ =~= overlaid(before, at as int, y@));
    at + i
}

pub(crate) proof fn lemma_overlay_twice(out: Seq<i16>, at: int, a: Seq<i16>, b: Seq<i16>)
    requires
        0 <= at <= out.len(),
    ensures
        ({
            let mid = if at + a.len() < out.len() {
                at + a.len()
            } else {
                out.len() as int
            };
            overlaid(overlaid(out, at, a), mid, b) == overlaid(out, at, a + b)
        }),
{
    let mid = if at + a.len() < out.len() {
        at + a.len()
    } else {
        out.len() as int
    };
    assert(overlaid(overlaid(out, at, a), mid, b) =~= overlaid(out, at, a + b));
}

impl SilkResampler {
    /// Resample one batch.
    fn batch(&mut self, x: &[i16]) -> (y: Vec<i16>)
        requires
            old(self).inv(),
            old(self)@.fs_in_khz > 0,
            x@.len() <= 160,
        ensures
            y@ == interpolation(
                batch_buf(old(self)@.up, x@),
                x@.len() as int,
                old(self)@.inc,
            ),
            final(self)@ == (ResamplerView { up: batch_next(old(self)@.up, x@), ..old(self)@ }),
            final(self).inv(),
    {
        let n: usize = x.len();
        let ghost st = self@.up;
        let mut twice: Vec<i16> = vec![0i16; 2 * n];
        let mut iir: [i32; 6] = self.s_iir;
        silk_resampler_private_up2_hq(&mut iir, twice.as_mut_slice(), x, n as i32);
        assert(twice@ =~= doubled(st.iir, x@));
        assert(iir@ =~= doubled_next(st.iir, x@));
        let buf: Vec<i16> = join(&self.s_fir, twice.as_slice());
        assert(buf@ == batch_buf(st, x@));
        let y: Vec<i16> = interpolate(&buf, n, self.inv_ratio_q16);
        self.s_iir = iir;
        self.s_fir = [
            buf[2 * n],
            buf[2 * n + 1],
            buf[2 * n + 2],
            buf[2 * n + 3],
            buf[2 * n + 4],
            buf[2 * n + 5],
            buf[2 * n + 6],
            buf[2 * n + 7],
        ];
        assert(self.s_fir@ =~= buf@.subrange(2 * n, 2 * n + 8));
        y
    }

    /// Resample one block, batch by batch.
    fn block(&mut self, x: &[i16], out: &mut [i16], at: usize) -> (end: usize)
        requires
            old(self).inv(),
            old(self)@.fs_in_khz > 0,
            at <= old(out)@.len(),
        ensures
            final(self).inv(),
            final(self)@ == (ResamplerView {
                up: resampled_next(old(self)@.up, x@, old(self)@.batch),
                ..old(self)@
            }),
            final(out)@ == overlaid(
                old(out)@,
                at as int,
                resampled(old(self)@.up, x@, old(self)@.batch, old(self)@.inc),
            ),
            end <= final(out)@.len(),
            end == ({
                let y = resampled(old(self)@.up, x@, old(self)@.batch, old(self)@.inc);
                if at + y.len() < old(out)@.len() {
                    at + y.len()
                } else {
                    old(out)@.len() as int
                }
            }),
    {
        let ghost all = resampled(self@.up, x@, self@.batch, self@.inc);
        let ghost end_state = resampled_next(self@.up, x@, self@.batch);
        let ghost batch = self@.batch;
        let ghost inc = self@.inc;
        let ghost before = out@;
        let ghost mut done = Seq::<i16>::empty();
        let total: usize = x.len();
        let mut pos: usize = 0;
        let mut idx: usize = at;
        assert(x@.skip(0) =~= x@);
        assert(overlaid(before, at as int, done) =~= before);
        assert(done + all =~= all);
        while pos < total
            invariant
                self.inv(),
                self@.fs_in_khz > 0,
                self@ == (ResamplerView { up: self@.up, ..old(self)@ }),
                self@.batch == batch,
                self@.inc == inc,
                pos <= total == x@.len(),
                at <= before.len(),
                out@ == overlaid(before, at as int, done),
                idx == if at + done.len() < before.len() {
                    at + done.len()
                } else {
                    before.len() as int
                },
                done + resampled(self@.up, x@.skip(pos as int), batch, inc) == all,
                resampled_next(self@.up, x@.skip(pos as int), batch) == end_state,
            decreases total - pos,
        {
            let left: usize = total - pos;
            let n: usize = if left < self.batch_size as usize {
                left
            } else {
                self.batch_size as usize
            };
            let part: &[i16] = vstd::slice::slice_subrange(x, pos, pos + n);
            let ghost st = self@.up;
            let ghost rest = x@.skip(pos as int);
            assert(batch_len(rest, batch) == n);
            assert(part@ =~= rest.take(n as int));
            assert(rest.skip(n as int) =~= x@.skip(pos + n));
            let y: Vec<i16> = self.batch(part);
            idx = overlay(out, idx, &y);
            proof {
                lemma_overlay_twice(before, at as int, done, y@);
                assert(done + (y@ + resampled(self@.up, x@.skip(pos + n), batch, inc)) =~= (done
                    + y@) + resampled(self@.up, x@.skip(pos + n), batch, inc));
                done = done + y@;
            }
            pos += n;
        }
        proof {
            assert(x@.skip(pos as int) =~= Seq::<i16>::empty());
            assert(done =~= all);
        }
        idx
    }

    /// Resample the first `in_len` samples of `input` into `out`. Returns -1,
    /// with nothing changed, where there is less than a millisecond of input,
    /// where `input` is shorter than it says, where `out` has no room for the
    /// result, and where no rates were chosen.
    pub fn process(&mut self, out: &mut [i16], input: &[i16], in_len: i32) -> (r: i32)
        requires
            old(self).inv(),
        ensures
            final(self).inv(),
            !old(self)@.accepts(
                old(out)@.len() as int,
                input@.len() as int,
                in_len as int,
            ) ==> r == -1 && final(self)@ == old(self)@ && final(out)@ == old(out)@,
            old(self)@.accepts(old(out)@.len() as int, input@.len() as int, in_len as int) ==> {
                &&& r == 0
                &&& final(self)@ == old(self)@.next(input@.take(in_len as int))
                &&& final(out)@ == old(self)@.written(old(out)@, input@.take(in_len as int))
            },
    {
        if in_len < self.fs_in_khz {
            return -1;
        }
        if input.len() < in_len as usize {
            return -1;
        }
        if self.fs_in_khz <= 0 || self.fs_out_khz <= 0 {
            return -1;
        }
        let room: usize = out.len();
        let need: u64 = self.needed(in_len);
        if (room as u64) < need || room < self.fs_out_khz as usize {
            return -1;
        }
        let n: usize = in_len as usize;
        let delay: usize = self.input_delay as usize;
        let ghost st = self@;
        let ghost x = input@.take(in_len as int);
        let held: &[i16] = vstd::slice::slice_subrange(
            vstd::array::array_as_slice(&self.delay_buf),
            0,
            delay,
        );
        let taken: &[i16] = vstd::slice::slice_subrange(input, 0, n - delay);
        assert(held@ =~= st.held);
        assert(taken@ =~= x.take(x.len() - st.held.len()));
        let delayed: Vec<i16> = join(held, taken);
        assert(delayed@ == st.delayed(x));
        match self.mode {
            ResamplerMode::Copy => {
                overlay(out, 0, &delayed);
            },
            ResamplerMode::Up2HQ => {
                let mut twice: Vec<i16> = vec![0i16; 2 * n];
                let mut iir: [i32; 6] = self.s_iir;
                silk_resampler_private_up2_hq(
                    &mut iir,
                    twice.as_mut_slice(),
                    delayed.as_slice(),
                    in_len,
                );
                self.s_iir = iir;
                assert(twice@ =~= doubled(st.up.iir, delayed@));
                assert(iir@ =~= doubled_next(st.up.iir, delayed@));
                overlay(out, 0, &twice);
            },
            ResamplerMode::IirFir => {
                let ms: usize = self.fs_in_khz as usize;
                let first: &[i16] = vstd::slice::slice_subrange(delayed.as_slice(), 0, ms);
                let rest: &[i16] = vstd::slice::slice_subrange(delayed.as_slice(), ms, n);
                assert(first@ =~= st.delayed(x).take(st.fs_in_khz));
                assert(rest@ =~= st.delayed(x).skip(st.fs_in_khz));
                let at: usize = self.block(first, out, 0);
                self.block(rest, out, at);
            },
        }
        let ghost before = self@;
        let mut i: usize = 0;
        let start: usize = n - delay;
        while i < delay
            invariant
                i <= delay <= 48,
                start + delay == n <= input@.len(),
                delay == self.input_delay,
                self.inv(),
                self.fs_in_khz == before.fs_in_khz,
                self@ == (ResamplerView { held: self@.held, ..before }),
                forall|j: int| 0 <= j < i ==> #[trigger] self.delay_buf@[j] == input@[start + j],
            decreases delay - i,
        {
            self.delay_buf[i] = input[start + i];
            i += 1;
        }
        assert(self@.held =~= x.skip(x.len() - st.held.len()));
        0
    }
}

/// At the listed rates a batch of whole milliseconds becomes as many
/// milliseconds.
pub(crate) proof fn lemma_batch_duration(fs_in: int, fs_out: int, ms: int)
    requires
        fs_in == 8 || fs_in == 12 || fs_in == 16,
        fs_out == 8 || fs_out == 12 || fs_out == 16 || fs_out == 24 || fs_out == 48,
        mode_between(fs_in * 1000, fs_out * 1000) is IirFir,
        0 <= ms <= 10,
    ensures
        steps_below(ms * fs_in * 0x2_0000, step_between(fs_in * 1000, fs_out * 1000)) == ms
            * fs_out,
{
    assert(step_between(8000, 12000) == 87382);
    assert(step_between(8000, 24000) == 43691);
    assert(step_between(8000, 48000) == 21846);
    assert(step_between(12000, 8000) == 196608);
    assert(step_between(12000, 16000) == 98304);
    assert(step_between(12000, 48000) == 32768);
    assert(step_between(16000, 8000) == 262144);
    assert(step_between(16000, 12000) == 174763);
    assert(step_between(16000, 24000) == 87382);
    assert(step_between(16000, 48000) == 43691);
    let inc = step_between(fs_in * 1000, fs_out * 1000);
    let end = ms * fs_in * 0x2_0000;
    if fs_in == 8 {
        assert(fs_out == 12 || fs_out == 24 || fs_out == 48);
    } else if fs_in == 12 {
        assert(fs_out == 8 || fs_out == 16 || fs_out == 48);
    } else {
        assert(fs_out == 8 || fs_out == 12 || fs_out == 24 || fs_out == 48);
    }
    let k: int = ms * fs_out;
    assert(k * inc >= end && k * inc < end + inc) by (nonlinear_arith)
        requires
            k == ms * fs_out,
            end == ms * fs_in * 0x2_0000,
            0 <= ms <= 10,
            8 <= fs_out <= 48,
            inc * fs_out >= fs_in * 0x2_0000,
            inc * fs_out < fs_in * 0x2_0000 + fs_out,
            inc > 480,
    ;
    assert((end + inc - 1) / inc == k) by (nonlinear_arith)
        requires
            k * inc >= end,
            k * inc < end + inc,
            inc >= 1,
    ;
}

/// Fractional resampling between the listed rates keeps the duration: `ms`
/// milliseconds of input become `ms` milliseconds of output.
pub proof fn law_resampling_keeps_the_duration(
    st: UpState,
    x: Seq<i16>,
    fs_in: int,
    fs_out: int,
    ms: int,
)
    requires
        fs_in == 8 || fs_in == 12 || fs_in == 16,
        fs_out == 8 || fs_out == 12 || fs_out == 16 || fs_out == 24 || fs_out == 48,
        mode_between(fs_in * 1000, fs_out * 1000) is IirFir,
        ms >= 0,
        x.len() == ms * fs_in,
    ensures
        resampled(st, x, 10 * fs_in, step_between(fs_in * 1000, fs_out * 1000)).len() == ms
            * fs_out,
    decreases ms,
{
    let inc = step_between(fs_in * 1000, fs_out * 1000);
    if ms == 0 {
        assert(ms * fs_in == 0 && ms * fs_out == 0) by (nonlinear_arith)
            requires
                ms == 0,
        ;
    } else {
        let m: int = if ms < 10 {
            ms
        } else {
            10
        };
        let n = batch_len(x, 10 * fs_in);
        assert(ms * fs_in > 0 && n == m * fs_in && (ms - m) * fs_in == ms * fs_in - m * fs_in && (ms
            - m) * fs_out == ms * fs_out - m * fs_out) by (nonlinear_arith)
            requires
                ms >= 1,
                fs_in >= 8,
                m == (if ms < 10 {
                    ms
                } else {
                    10
                }),
                n == (if ms * fs_in < 10 * fs_in {
                    ms * fs_in
                } else {
                    10 * fs_in
                }),
        ;
        lemma_batch_duration(fs_in, fs_out, m);
        assert(n * 0x2_0000 == m * fs_in * 0x2_0000);
        assert(m * fs_out >= 0) by (nonlinear_arith)
            requires
                m >= 0,
                fs_out >= 0,
        ;
        law_resampling_keeps_the_duration(
            batch_next(st, x.take(n)),
            x.skip(n),
            fs_in,
            fs_out,
            ms - m,
        );
    }
}

// ---------------------------------------------------------------------------
// From the rate that is asked for down
// ---------------------------------------------------------------------------
/// Three quarters of the rate: two recursive coefficients, then three rows of
/// taps.
pub const RESAMPLER_3_4_COEFS: [i16; 29] = [
    -20694, -13867, -49, 64, 17, -157, 353, -496, 163, 11047, 22205, -39, 6, 91, -170, 186, 23,
    -896, 6336, 19928, -19, -36, 102, -89, -24, 328, -951, 2568, 15909,
];

/// Two thirds of the rate.
pub const RESAMPLER_2_3_COEFS: [i16; 20] = [
    -14457, -14019, 64, 128, -122, 36, 310, -768, 584, 9267, 17733, 12, 128, 18, -142, 288, -117,
    -865, 4123, 14459,
];

/// Half the rate.
pub const RESAMPLER_1_2_COEFS: [i16; 14] = [
    616, -14323, -10, 39, 58, -46, -84, 120, 184, -315, -541, 1284, 5380, 9024,
];

/// A third of the rate.
pub const RESAMPLER_1_3_COEFS: [i16; 20] = [
    16102, -15162, -13, 0, 20, 26, 5, -31, -43, -4, 65, 90, 7, -157, -248, -44, 593, 1583, 2612,
    3271,
];

/// A quarter of the rate.
pub const RESAMPLER_1_4_COEFS: [i16; 20] = [
    22500, -15099, 3, -14, -20, -15, 2, 25, 37, 25, -16, -71, -107, -79, 50, 292, 623, 982, 1288,
    1464,
];

/// A sixth of the rate.
pub const RESAMPLER_1_6_COEFS: [i16; 20] = [
    27540, -15257, 17, 12, 8, 1, -10, -22, -30, -32, -22, 3, 44, 100, 168, 243, 317, 381, 429, 455,
];

/// A way down from one rate to another.
pub struct DownPlan {
    /// The two recursive coefficients and the taps.
    pub coefs: Seq<i16>,
    /// Samples that the taps span.
    pub order: int,
    /// Rows of taps; with one row the taps are symmetric.
    pub fracs: int,
    /// The step between output samples, Q16.
    pub inc: int,
}

/// Whether there is a way down from one rate to another, in kHz.
pub open spec fn is_down_pair(fs_in: int, fs_out: int) -> bool {
    ||| fs_in == 12 && fs_out == 8
    ||| fs_in == 16 && (fs_out == 8 || fs_out == 12)
    ||| fs_in == 24 && (fs_out == 8 || fs_out == 12 || fs_out == 16)
    ||| fs_in == 48 && (fs_out == 8 || fs_out == 12 || fs_out == 16)
}

/// The way down from one rate to another.
pub open spec fn down_plan(fs_in: int, fs_out: int) -> DownPlan {
    let inc = (fs_in * 0x1_0000 + fs_out - 1) / fs_out;
    if fs_out * 4 == fs_in * 3 {
        DownPlan { coefs: RESAMPLER_3_4_COEFS@, order: 18, fracs: 3, inc }
    } else if fs_out * 3 == fs_in * 2 {
        DownPlan { coefs: RESAMPLER_2_3_COEFS@, order: 18, fracs: 2, inc }
    } else if fs_out * 2 == fs_in {
        DownPlan { coefs: RESAMPLER_1_2_COEFS@, order: 24, fracs: 1, inc }
    } else if fs_out * 3 == fs_in {
        DownPlan { coefs: RESAMPLER_1_3_COEFS@, order: 36, fracs: 1, inc }
    } else if fs_out * 4 == fs_in {
        DownPlan { coefs: RESAMPLER_1_4_COEFS@, order: 36, fracs: 1, inc }
    } else {
        DownPlan { coefs: RESAMPLER_1_6_COEFS@, order: 36, fracs: 1, inc }
    }
}

/// Samples held back, by input and output rate.
pub const DELAY_MATRIX_ENC: [[i8; 3]; 5] = [
    [6, 0, 3],
    [0, 7, 3],
    [0, 1, 10],
    [0, 2, 6],
    [18, 10, 12],
];

/// Whether a rate is one that may be asked for, and another one that is
/// internal, in Hz.
pub open spec fn are_encoder_rates(fs_in: int, fs_out: int) -> bool {
    rate_index(fs_in) <= 4 && rate_index(fs_out) <= 2
}

fn enc_input_delay(fs_hz_in: i32, fs_hz_out: i32) -> (d: Option<usize>)
    ensures
        d is Some <==> are_encoder_rates(fs_hz_in as int, fs_hz_out as int),
        d is Some ==> d->0 == DELAY_MATRIX_ENC@[rate_index(fs_hz_in as int)]@[rate_index(
            fs_hz_out as int,
        )],
        d is Some ==> d->0 <= fs_hz_in / 1000,
{
    let i: usize = rate_id(fs_hz_in);
    let o: usize = rate_id(fs_hz_out);
    if i > 4 || o > 2 {
        return None;
    }
    proof {
        let row = DELAY_MATRIX_ENC@[i as int]@;
        assert(0 <= row[o as int] <= fs_hz_in / 1000);
    }
    Some(DELAY_MATRIX_ENC[i][o] as usize)
}

/// The input of a call behind the samples held back.
pub open spec fn behind(held: Seq<i16>, x: Seq<i16>) -> Seq<i16> {
    held + x.take(x.len() - held.len())
}

fn delay_line(delay_buf: &[i16; 48], delay: usize, input: &[i16]) -> (v: Vec<i16>)
    requires
        delay <= 48,
        delay <= input@.len(),
    ensures
        v@ == behind(delay_buf@.take(delay as int), input@),
{
    let held: &[i16] = vstd::slice::slice_subrange(
        vstd::array::array_as_slice(delay_buf),
        0,
        delay,
    );
    let taken: &[i16] = vstd::slice::slice_subrange(input, 0, input.len() - delay);
    assert(held@ =~= delay_buf@.take(delay as int));
    assert(taken@ =~= input@.take(input@.len() - delay));
    join(held, taken)
}

fn hold_back(delay_buf: &mut [i16; 48], delay: usize, input: &[i16])
    requires
        delay <= 48,
        delay <= input@.len(),
    ensures
        final(delay_buf)@.take(delay as int) == input@.skip(input@.len() - delay),
{
    let n: usize = input.len();
    let start: usize = n - delay;
    let mut i: usize = 0;
    while i < delay
        invariant
            i <= delay <= 48,
            start + delay == n == input@.len(),
            forall|j: int| 0 <= j < i ==> #[trigger] delay_buf@[j] == input@[start + j],
        decreases delay - i,
    {
        delay_buf[i] = input[start + i];
        i += 1;
    }
    assert(delay_buf@.take(delay as int) =~= input@.skip(input@.len() - delay));
}

/// A resampler between equal rates: samples pass unchanged, but late, so that
/// all pairs of rates have the same delay in all.
pub struct SilkPassthroughResampler {
    delay_buf: [i16; 48],
    input_delay: usize,
    fs_khz: usize,
}

impl SilkPassthroughResampler {
    /// What holds of it between calls.
    pub closed spec fn inv(&self) -> bool {
        8 <= self.fs_khz <= 16 && self.input_delay <= self.fs_khz
    }

    /// The samples held back.
    pub closed spec fn held(&self) -> Seq<i16> {
        self.delay_buf@.take(self.input_delay as int)
    }

    /// The rate, in kHz.
    pub closed spec fn rate(&self) -> int {
        self.fs_khz as int
    }

    fn new(fs_hz: i32) -> (r: Option<Self>)
        ensures
            r is Some <==> are_encoder_rates(fs_hz as int, fs_hz as int),
            r is Some ==> {
                &&& (r->0).inv()
                &&& (r->0).rate() == fs_hz / 1000
                &&& (r->0).held() == Seq::new(
                    DELAY_MATRIX_ENC@[rate_index(fs_hz as int)]@[rate_index(fs_hz as int)] as nat,
                    |i: int| 0i16,
                )
            },
    {
        match enc_input_delay(fs_hz, fs_hz) {
            None => None,
            Some(d) => {
                let r = SilkPassthroughResampler {
                    delay_buf: [0; 48],
                    input_delay: d,
                    fs_khz: (fs_hz / 1000) as usize,
                };
                assert(r.held() =~= Seq::new(d as nat, |i: int| 0i16));
                Some(r)
            },
        }
    }

    fn process(&mut self, out: &mut [i16], input: &[i16])
        requires
            old(self).inv(),
            old(self).rate() <= input@.len() <= old(out)@.len(),
        ensures
            final(self).inv(),
            final(self).rate() == old(self).rate(),
            final(out)@ == overlaid(old(out)@, 0, behind(old(self).held(), input@)),
            final(self).held() == input@.skip(input@.len() - old(self).held().len()),
    {
        let delayed: Vec<i16> = delay_line(&self.delay_buf, self.input_delay, input);
        overlay(out, 0, &delayed);
        let mut buf: [i16; 48] = self.delay_buf;
        hold_back(&mut buf, self.input_delay, input);
        self.delay_buf = buf;
    }
}

/// Blocks laid end to end.
pub open spec fn joined(blocks: Seq<Seq<i16>>) -> Seq<i16>
    decreases blocks.len(),
{
    if blocks.len() == 0 {
        Seq::empty()
    } else {
        joined(blocks.drop_last()) + blocks.last()
    }
}

/// The samples held back behind blocks that have passed.
pub open spec fn held_behind(held: Seq<i16>, blocks: Seq<Seq<i16>>) -> Seq<i16> {
    if blocks.len() == 0 {
        held
    } else {
        blocks.last().skip(blocks.last().len() - held.len())
    }
}

/// What comes out when blocks pass one after the other.
pub open spec fn passed(held: Seq<i16>, blocks: Seq<Seq<i16>>) -> Seq<i16>
    decreases blocks.len(),
{
    if blocks.len() == 0 {
        Seq::empty()
    } else {
        passed(held, blocks.drop_last()) + behind(
            held_behind(held, blocks.drop_last()),
            blocks.last(),
        )
    }
}

/// A delay joins blocks without a seam: however a signal is cut, it comes out
/// whole behind the samples first held back, and the samples held back at the
/// end are its last.
#[verifier::spinoff_prover]
#[verifier::rlimit(60)]
pub proof fn law_a_delay_has_no_seams(held: Seq<i16>, blocks: Seq<Seq<i16>>)
    requires
        forall|i: int| 0 <= i < blocks.len() ==> held.len() <= (#[trigger] blocks[i]).len(),
    ensures
        passed(held, blocks) + held_behind(held, blocks) == held + joined(blocks),
        passed(held, blocks).len() == joined(blocks).len(),
        blocks.len() > 0 ==> passed(held, blocks) == behind(held, joined(blocks)),
    decreases blocks.len(),
{
    if blocks.len() > 0 {
        let front = blocks.drop_last();
        let last = blocks[blocks.len() - 1];
        assert(held.len() <= last.len());
        assert forall|i: int| 0 <= i < front.len() implies held.len() <= (
        #[trigger] front[i]).len() by {
            assert(front[i] == blocks[i]);
        }
        law_a_delay_has_no_seams(held, front);
        let h = held_behind(held, front);
        if front.len() > 0 {
            assert(held.len() <= front[front.len() - 1].len());
        }
        assert(h.len() == held.len());
        lemma_delayed_block(passed(held, front), h, last);
        assert((held + joined(front)) + last =~= held + (joined(front) + last));
        lemma_passed_is_behind(passed(held, blocks), held_behind(held, blocks), held, joined(blocks));
    }
}

proof fn lemma_delayed_block(before: Seq<i16>, h: Seq<i16>, x: Seq<i16>)
    requires
        h.len() <= x.len(),
    ensures
        (before + behind(h, x)) + x.skip(x.len() - h.len()) == (before + h) + x,
        behind(h, x).len() == x.len(),
{
    assert((before + behind(h, x)) + x.skip(x.len() - h.len()) =~= (before + h) + x);
}

proof fn lemma_passed_is_behind(p: Seq<i16>, tail: Seq<i16>, held: Seq<i16>, x: Seq<i16>)
    requires
        p + tail == held + x,
        p.len() == x.len(),
        held.len() <= x.len(),
    ensures
        p == behind(held, x),
{
    assert forall|i: int| 0 <= i < p.len() implies p[i] == behind(held, x)[i] by {
        assert((p + tail)[i] == p[i]);
        if i >= held.len() {
            let k: int = i - held.len();
            assert((held + x)[i] == x[k]);
            assert(x.take(x.len() - held.len())[k] == x[k]);
        }
    }
    assert(p =~= behind(held, x));
}

/// The two states of the recursive filter behind `n` samples.
pub open spec fn lowpass_state(s: (int, int), x: Seq<i16>, a0: int, a1: int, n: int) -> (int, int)
    decreases n,
{
    if n <= 0 {
        s
    } else {
        let t = lowpass_state(s, x, a0, a1, n - 1);
        let y = lshift(wrap(t.0 + x[n - 1] * 256), 2);
        (smlawb(t.1, y, a0), smulwb(y, a1))
    }
}

/// Its output for sample `k`, Q8.
pub open spec fn lowpass_sample(s: (int, int), x: Seq<i16>, a0: int, a1: int, k: int) -> int {
    wrap(lowpass_state(s, x, a0, a1, k).0 + x[k] * 256)
}

/// The first `n` of nine taps from `row` on, applied upwards from sample `b`.
pub open spec fn taps_up(acc: int, buf: Seq<i32>, b: int, c: Seq<i16>, row: int, n: int) -> int
    decreases n,
{
    if n <= 0 {
        acc
    } else {
        smlawb(taps_up(acc, buf, b, c, row, n - 1), buf[b + n - 1] as int, c[row + n - 1] as int)
    }
}

/// The first `n` of nine taps from `row` on, applied downwards from sample `b`.
pub open spec fn taps_down(acc: int, buf: Seq<i32>, b: int, c: Seq<i16>, row: int, n: int) -> int
    decreases n,
{
    if n <= 0 {
        acc
    } else {
        smlawb(
            taps_down(acc, buf, b, c, row, n - 1),
            buf[b - (n - 1)] as int,
            c[row + n - 1] as int,
        )
    }
}

/// The first `n` of symmetric taps, each applied to a pair of samples.
pub open spec fn taps_paired(buf: Seq<i32>, b: int, c: Seq<i16>, order: int, n: int) -> int
    decreases n,
{
    if n <= 0 {
        0
    } else {
        smlawb(
            taps_paired(buf, b, c, order, n - 1),
            wrap(buf[b + n - 1] + buf[b + order - n]),
            c[2 + n - 1] as int,
        )
    }
}

/// The signal at position `at`, Q16: with several rows of taps the one for the
/// fraction of a sample, from both ends.
pub open spec fn decimated(buf: Seq<i32>, at: int, plan: DownPlan) -> int {
    let b = at / 0x1_0000;
    let res = if plan.order == 18 {
        let ind = at % 0x1_0000 * plan.fracs / 0x1_0000;
        taps_down(
            taps_up(0, buf, b, plan.coefs, 2 + 9 * ind, 9),
            buf,
            b + 17,
            plan.coefs,
            2 + 9 * (plan.fracs - 1 - ind),
            9,
        )
    } else {
        taps_paired(buf, b, plan.coefs, plan.order, plan.order / 2)
    };
    sat16(rshift_round(res, 6))
}

/// What the way down carries from block to block.
pub struct DownState {
    /// The recursive filter.
    pub iir: (int, int),
    /// The last filtered samples, as many as the taps span.
    pub fir: Seq<i32>,
}

/// The samples a batch is taken from.
pub open spec fn down_buf(st: DownState, x: Seq<i16>, plan: DownPlan) -> Seq<i32> {
    st.fir + Seq::new(
        x.len(),
        |i: int|
            lowpass_sample(st.iir, x, plan.coefs[0] as int, plan.coefs[1] as int, i) as i32,
    )
}

/// A batch brought down.
pub open spec fn down_batch(st: DownState, x: Seq<i16>, plan: DownPlan) -> Seq<i16> {
    Seq::new(
        steps_below(x.len() as int * 0x1_0000, plan.inc) as nat,
        |k: int| decimated(down_buf(st, x, plan), k * plan.inc, plan) as i16,
    )
}

/// The state behind a batch.
pub open spec fn down_batch_next(st: DownState, x: Seq<i16>, plan: DownPlan) -> DownState {
    DownState {
        iir: lowpass_state(
            st.iir,
            x,
            plan.coefs[0] as int,
            plan.coefs[1] as int,
            x.len() as int,
        ),
        fir: down_buf(st, x, plan).skip(x.len() as int),
    }
}

/// A block brought down, batch by batch; a single sample left over is dropped.
pub open spec fn lowered(st: DownState, x: Seq<i16>, batch: int, plan: DownPlan) -> Seq<i16>
    decreases x.len(),
{
    let n = batch_len(x, batch);
    if batch <= 0 {
        Seq::empty()
    } else if x.len() - n > 1 {
        down_batch(st, x.take(n), plan) + lowered(
            down_batch_next(st, x.take(n), plan),
            x.skip(n),
            batch,
            plan,
        )
    } else {
        down_batch(st, x.take(n), plan)
    }
}

/// The state behind a block.
pub open spec fn lowered_next(st: DownState, x: Seq<i16>, batch: int, plan: DownPlan) -> DownState
    decreases x.len(),
{
    let n = batch_len(x, batch);
    if batch <= 0 {
        st
    } else if x.len() - n > 1 {
        lowered_next(down_batch_next(st, x.take(n), plan), x.skip(n), batch, plan)
    } else {
        down_batch_next(st, x.take(n), plan)
    }
}

/// A resampler from the rate that is asked for down to the internal one.
pub struct SilkDownFirResampler {
    s_iir: [i32; 2],
    s_fir: Vec<i32>,
    delay_buf: [i16; 48],
    input_delay: usize,
    fir_order: usize,
    fir_fracs: i32,
    batch_size: usize,
    inv_ratio_q16: i32,
    fs_in_khz: usize,
    fs_out_khz: usize,
    coefs: &'static [i16],
}

fn lowpass(s: &[i32; 2], x: &[i16], a0: i32, a1: i32) -> (r: (Vec<i32>, [i32; 2]))
    ensures
        r.0@.len() == x@.len(),
        forall|i: int|
            0 <= i < x@.len() ==> #[trigger] r.0@[i] == lowpass_sample(
                (s@[0] as int, s@[1] as int),
                x@,
                a0 as int,
                a1 as int,
                i,
            ),
        (r.1@[0] as int, r.1@[1] as int) == lowpass_state(
            (s@[0] as int, s@[1] as int),
            x@,
            a0 as int,
            a1 as int,
            x@.len() as int,
        ),
{
    let n: usize = x.len();
    let mut y: Vec<i32> = Vec::with_capacity(n);
    let mut s0: i32 = s[0];
    let mut s1: i32 = s[1];
    let mut k: usize = 0;
    while k < n
        invariant
            k <= n == x@.len(),
            y@.len() == k,
            (s0 as int, s1 as int) == lowpass_state(
                (s@[0] as int, s@[1] as int),
                x@,
                a0 as int,
                a1 as int,
                k as int,
            ),
            forall|i: int|
                0 <= i < k ==> #[trigger] y@[i] == lowpass_sample(
                    (s@[0] as int, s@[1] as int),
                    x@,
                    a0 as int,
                    a1 as int,
                    i,
                ),
        decreases n - k,
    {
        let v: i32 = silk_add32_ovflw(s0, x[k] as i32 * 256);
        y.push(v);
        let w: i32 = silk_lshift(v, 2);
        s0 = silk_smlawb(s1, w, a0);
        s1 = silk_smulwb(w, a1);
        k += 1;
    }
    (y, [s0, s1])
}

fn run_taps_up(buf: &Vec<i32>, b: usize, c: &[i16], row: usize) -> (r: i32)
    requires
        b + 9 <= buf@.len(),
        row + 9 <= c@.len(),
    ensures
        r == taps_up(0, buf@, b as int, c@, row as int, 9),
{
    let nb: usize = buf.len();
    let nc: usize = c.len();
    let mut r: i32 = 0;
    let mut j: usize = 0;
    while j < 9
        invariant
            j <= 9,
            b + 9 <= nb == buf@.len(),
            row + 9 <= nc == c@.len(),
            r == taps_up(0, buf@, b as int, c@, row as int, j as int),
        decreases 9 - j,
    {
        r = silk_smlawb(r, buf[b + j], c[row + j] as i32);
        j += 1;
    }
    r
}

fn run_taps_down(acc: i32, buf: &Vec<i32>, b: usize, c: &[i16], row: usize) -> (r: i32)
    requires
        8 <= b < buf@.len(),
        row + 9 <= c@.len(),
    ensures
        r == taps_down(acc as int, buf@, b as int, c@, row as int, 9),
{
    let nc: usize = c.len();
    let mut r: i32 = acc;
    let mut j: usize = 0;
    while j < 9
        invariant
            j <= 9,
            8 <= b < buf@.len(),
            row + 9 <= nc == c@.len(),
            r == taps_down(acc as int, buf@, b as int, c@, row as int, j as int),
        decreases 9 - j,
    {
        r = silk_smlawb(r, buf[b - j], c[row + j] as i32);
        j += 1;
    }
    r
}

fn run_taps_paired(buf: &Vec<i32>, b: usize, c: &[i16], order: usize) -> (r: i32)
    requires
        order <= 36,
        b + order <= buf@.len(),
        2 + order as int / 2 <= c@.len(),
    ensures
        r == taps_paired(buf@, b as int, c@, order as int, order as int / 2),
{
    let nb: usize = buf.len();
    let half: usize = order / 2;
    let mut r: i32 = 0;
    let mut j: usize = 0;
    while j < half
        invariant
            j <= half == order as int / 2,
            order <= 36,
            b + order <= nb == buf@.len(),
            2 + half <= c@.len(),
            r == taps_paired(buf@, b as int, c@, order as int, j as int),
        decreases half - j,
    {
        let sum: i32 = silk_add32_ovflw(buf[b + j], buf[b + order - 1 - j]);
        r = silk_smlawb(r, sum, c[2 + j] as i32);
        j += 1;
    }
    r
}

impl SilkDownFirResampler {
    /// What holds of it between calls.
    pub closed spec fn inv(&self) -> bool {
        let plan = down_plan(self.fs_in_khz as int, self.fs_out_khz as int);
        &&& is_down_pair(self.fs_in_khz as int, self.fs_out_khz as int)
        &&& self.coefs@ == plan.coefs
        &&& self.fir_order == plan.order
        &&& self.fir_fracs == plan.fracs
        &&& self.inv_ratio_q16 == plan.inc
        &&& self.batch_size == 10 * self.fs_in_khz
        &&& self.input_delay <= self.fs_in_khz
        &&& self.s_fir@.len() == self.fir_order
    }

    /// The samples held back.
    pub closed spec fn held(&self) -> Seq<i16> {
        self.delay_buf@.take(self.input_delay as int)
    }

    /// The filters.
    pub closed spec fn state(&self) -> DownState {
        DownState { iir: (self.s_iir@[0] as int, self.s_iir@[1] as int), fir: self.s_fir@ }
    }

    /// The input rate, in kHz.
    pub closed spec fn rate_in(&self) -> int {
        self.fs_in_khz as int
    }

    /// The output rate, in kHz.
    pub closed spec fn rate_out(&self) -> int {
        self.fs_out_khz as int
    }

    /// The way down.
    pub open spec fn plan(&self) -> DownPlan {
        down_plan(self.rate_in(), self.rate_out())
    }

    /// The signal that a call brings out: the first millisecond, then the rest.
    pub open spec fn lowers(&self, x: Seq<i16>) -> Seq<i16> {
        let y = behind(self.held(), x);
        let first = y.take(self.rate_in());
        let batch = 10 * self.rate_in();
        lowered(self.state(), first, batch, self.plan()) + lowered(
            lowered_next(self.state(), first, batch, self.plan()),
            y.skip(self.rate_in()),
            batch,
            self.plan(),
        )
    }

    /// The filters behind that call.
    pub open spec fn next_state(&self, x: Seq<i16>) -> DownState {
        let y = behind(self.held(), x);
        let first = y.take(self.rate_in());
        let batch = 10 * self.rate_in();
        lowered_next(
            lowered_next(self.state(), first, batch, self.plan()),
            y.skip(self.rate_in()),
            batch,
            self.plan(),
        )
    }

    /// A resampler between two rates, in Hz. There is one from each rate above
    /// an internal rate to it.
    pub fn new(fs_hz_in: i32, fs_hz_out: i32) -> (r: Option<Self>)
        ensures
            r is Some <==> are_encoder_rates(fs_hz_in as int, fs_hz_out as int) && fs_hz_out
                < fs_hz_in,
            r is Some ==> {
                &&& (r->0).inv()
                &&& (r->0).rate_in() == fs_hz_in / 1000
                &&& (r->0).rate_out() == fs_hz_out / 1000
                &&& (r->0).state().iir == (0int, 0int)
                &&& (r->0).state().fir == Seq::new((r->0).plan().order as nat, |i: int| 0i32)
                &&& (r->0).held() == Seq::new(
                    DELAY_MATRIX_ENC@[rate_index(fs_hz_in as int)]@[rate_index(
                        fs_hz_out as int,
                    )] as nat,
                    |i: int| 0i16,
                )
            },
    {
        match enc_input_delay(fs_hz_in, fs_hz_out) {
            None => None,
            Some(input_delay) => {
                if fs_hz_out >= fs_hz_in {
                    return None;
                }
                let fs_in: usize = (fs_hz_in / 1000) as usize;
                let fs_out: usize = (fs_hz_out / 1000) as usize;
                let (coefs, fir_order, fir_fracs): (&'static [i16], usize, i32) = if fs_out * 4
                    == fs_in * 3 {
                    (&RESAMPLER_3_4_COEFS, 18, 3)
                } else if fs_out * 3 == fs_in * 2 {
                    (&RESAMPLER_2_3_COEFS, 18, 2)
                } else if fs_out * 2 == fs_in {
                    (&RESAMPLER_1_2_COEFS, 24, 1)
                } else if fs_out * 3 == fs_in {
                    (&RESAMPLER_1_3_COEFS, 36, 1)
                } else if fs_out * 4 == fs_in {
                    (&RESAMPLER_1_4_COEFS, 36, 1)
                } else {
                    (&RESAMPLER_1_6_COEFS, 36, 1)
                };
                let inc: usize = (fs_in * 0x1_0000 + fs_out - 1) / fs_out;
                proof {
                    lemma_down_step(fs_in as int, fs_out as int);
                }
                let r = SilkDownFirResampler {
                    s_iir: [0; 2],
                    s_fir: vec![0i32; fir_order],
                    delay_buf: [0; 48],
                    input_delay,
                    fir_order,
                    fir_fracs,
                    batch_size: fs_in * 10,
                    inv_ratio_q16: inc as i32,
                    fs_in_khz: fs_in,
                    fs_out_khz: fs_out,
                    coefs,
                };
                proof {
                    assert(r.state().fir =~= Seq::new(fir_order as nat, |i: int| 0i32));
                    assert(r.held() =~= Seq::new(input_delay as nat, |i: int| 0i16));
                }
                Some(r)
            },
        }
    }

    fn sample(&self, buf: &Vec<i32>, at: i64) -> (y: i16)
        requires
            self.inv(),
            buf@.len() >= self.fir_order,
            0 <= at < (buf@.len() - self.fir_order) * 0x1_0000,
            at <= 0x4000_0000,
        ensures
            y == decimated(buf@, at as int, self.plan()),
    {
        let b: usize = (at / 0x1_0000) as usize;
        let res: i32 = if self.fir_order == 18 {
            let fraction: i64 = at % 0x1_0000;
            proof {
                let f: int = fraction as int;
                let k: int = self.fir_fracs as int;
                assert(0 <= f * k && f * k < k * 0x1_0000) by (nonlinear_arith)
                    requires
                        0 <= f < 0x1_0000,
                        2 <= k <= 3,
                ;
            }
            let ind: usize = (fraction * self.fir_fracs as i64 / 0x1_0000) as usize;
            let rows: usize = self.fir_fracs as usize;
            let up: i32 = run_taps_up(buf, b, self.coefs, 2 + 9 * ind);
            run_taps_down(up, buf, b + 17, self.coefs, 2 + 9 * (rows - 1 - ind))
        } else {
            run_taps_paired(buf, b, self.coefs, self.fir_order)
        };
        silk_sat16(silk_rshift_round(res, 6))
    }

    fn batch(&mut self, x: &[i16]) -> (y: Vec<i16>)
        requires
            old(self).inv(),
            x@.len() <= 480,
        ensures
            final(self).inv(),
            y@ == down_batch(old(self).state(), x@, old(self).plan()),
            final(self).state() == down_batch_next(old(self).state(), x@, old(self).plan()),
            final(self).rate_in() == old(self).rate_in(),
            final(self).rate_out() == old(self).rate_out(),
            final(self).held() == old(self).held(),
    {
        let ghost st = self.state();
        let ghost plan = self.plan();
        let n: usize = x.len();
        let (filtered, s) = lowpass(&self.s_iir, x, self.coefs[0] as i32, self.coefs[1] as i32);
        let mut buf: Vec<i32> = Vec::with_capacity(self.fir_order + n);
        let mut i: usize = 0;
        while i < self.fir_order + n
            invariant
                self.inv(),
                i <= self.fir_order + n,
                n == x@.len() <= 480,
                self.s_fir@ == st.fir,
                filtered@.len() == n,
                buf@.len() == i,
                plan == self.plan(),
                forall|j: int|
                    0 <= j < n ==> #[trigger] filtered@[j] == lowpass_sample(
                        st.iir,
                        x@,
                        plan.coefs[0] as int,
                        plan.coefs[1] as int,
                        j,
                    ),
                forall|j: int| 0 <= j < i ==> #[trigger] buf@[j] == down_buf(st, x@, plan)[j],
            decreases self.fir_order + n - i,
        {
            if i < self.fir_order {
                buf.push(self.s_fir[i]);
            } else {
                buf.push(filtered[i - self.fir_order]);
            }
            i += 1;
        }
        assert(buf@ =~= down_buf(st, x@, plan));
        let end: i64 = n as i64 * 0x1_0000;
        let inc: i64 = self.inv_ratio_q16 as i64;
        let mut y: Vec<i16> = Vec::new();
        let mut at: i64 = 0;
        proof {
            assert(0 * inc == 0) by (nonlinear_arith);
            lemma_down_step(self.rate_in(), self.rate_out());
        }
        while at < end
            invariant
                self.inv(),
                plan == self.plan(),
                n <= 480,
                end == n * 0x1_0000,
                inc == plan.inc,
                1 <= inc <= 0x10_0000,
                buf@ == down_buf(st, x@, plan),
                buf@.len() == self.fir_order + n,
                at == y@.len() * inc,
                0 <= at < end + inc,
                forall|k: int|
                    0 <= k < y@.len() ==> #[trigger] y@[k] == decimated(buf@, k * inc, plan) as i16,
            decreases end + inc - at,
        {
            y.push(self.sample(&buf, at));
            proof {
                let k: int = y@.len() - 1;
                let i: int = inc as int;
                assert((k + 1) * i == k * i + i) by (nonlinear_arith);
            }
            at = at + inc;
        }
        proof {
            let c: int = y@.len() as int;
            let i: int = inc as int;
            let e: int = end as int;
            assert(c == (e + i - 1) / i) by (nonlinear_arith)
                requires
                    c * i >= e,
                    c * i < e + i,
                    i >= 1,
            ;
            assert(y@ =~= down_batch(st, x@, plan));
        }
        let tail: &[i32] = vstd::slice::slice_subrange(buf.as_slice(), n, n + self.fir_order);
        self.s_fir = vstd::slice::slice_to_vec(tail);
        self.s_iir = s;
        assert(self.s_fir@ =~= down_buf(st, x@, plan).skip(n as int));
        y
    }
}

proof fn lemma_down_step(fs_in: int, fs_out: int)
    requires
        is_down_pair(fs_in, fs_out),
    ensures
        ({
            let inc = down_plan(fs_in, fs_out).inc;
            &&& 1 <= inc <= 0x10_0000
            &&& fs_in * 0x1_0000 <= inc * fs_out < fs_in * 0x1_0000 + fs_out
            &&& inc > 480
        }),
{
    let w: int = fs_in * 0x1_0000;
    let inc: int = (w + fs_out - 1) / fs_out;
    assert(w <= inc * fs_out && inc * fs_out < w + fs_out && inc <= w) by (nonlinear_arith)
        requires
            inc == (w + fs_out - 1) / fs_out,
            fs_out >= 1,
            w >= 1,
    ;
    assert(inc <= 0x10_0000 && inc > 480) by (nonlinear_arith)
        requires
            inc * fs_out < w + fs_out,
            w <= inc * fs_out,
            8 <= fs_out <= 16,
            0x1_0000 * 12 <= w <= 0x1_0000 * 48,
    ;
}

/// On the way down whole milliseconds become as many milliseconds.
pub proof fn law_lowering_keeps_the_duration(
    st: DownState,
    x: Seq<i16>,
    fs_in: int,
    fs_out: int,
    ms: int,
)
    requires
        is_down_pair(fs_in, fs_out),
        ms >= 0,
        x.len() == ms * fs_in,
    ensures
        lowered(st, x, 10 * fs_in, down_plan(fs_in, fs_out)).len() == ms * fs_out,
    decreases ms,
{
    let plan = down_plan(fs_in, fs_out);
    let m: int = if ms < 10 {
        ms
    } else {
        10
    };
    let n = batch_len(x, 10 * fs_in);
    assert(n == m * fs_in && (ms - m) * fs_in == ms * fs_in - m * fs_in && (ms - m) * fs_out == ms
        * fs_out - m * fs_out && (ms > m ==> (ms - m) * fs_in > 1)) by (nonlinear_arith)
        requires
            ms >= 0,
            fs_in >= 8,
            m == (if ms < 10 {
                ms
            } else {
                10
            }),
            n == (if ms * fs_in < 10 * fs_in {
                ms * fs_in
            } else {
                10 * fs_in
            }),
    ;
    lemma_down_step(fs_in, fs_out);
    let inc = plan.inc;
    let k: int = m * fs_out;
    let end: int = n * 0x1_0000;
    assert(k >= 0 && k * inc >= end && k * inc < end + inc) by (nonlinear_arith)
        requires
            k == m * fs_out,
            end == n * 0x1_0000,
            n == m * fs_in,
            0 <= m <= 10,
            8 <= fs_out <= 16,
            inc * fs_out >= fs_in * 0x1_0000,
            inc * fs_out < fs_in * 0x1_0000 + fs_out,
            inc > 480,
    ;
    assert((end + inc - 1) / inc == k) by (nonlinear_arith)
        requires
            k * inc >= end,
            k * inc < end + inc,
            inc >= 1,
    ;
    if ms > m {
        law_lowering_keeps_the_duration(
            down_batch_next(st, x.take(n), plan),
            x.skip(n),
            fs_in,
            fs_out,
            ms - m,
        );
    } else {
        assert((ms - m) * fs_in == 0) by (nonlinear_arith)
            requires
                ms == m,
        ;
    }
}

impl SilkDownFirResampler {
    fn block(&mut self, x: &[i16]) -> (y: Vec<i16>)
        requires
            old(self).inv(),
        ensures
            final(self).inv(),
            y@ == lowered(old(self).state(), x@, 10 * old(self).rate_in(), old(self).plan()),
            final(self).state() == lowered_next(
                old(self).state(),
                x@,
                10 * old(self).rate_in(),
                old(self).plan(),
            ),
            final(self).rate_in() == old(self).rate_in(),
            final(self).rate_out() == old(self).rate_out(),
            final(self).held() == old(self).held(),
    {
        let ghost plan = self.plan();
        let ghost batch = 10 * self.rate_in();
        let ghost all = lowered(self.state(), x@, batch, plan);
        let ghost end_state = lowered_next(self.state(), x@, batch, plan);
        let total: usize = x.len();
        let mut y: Vec<i16> = Vec::new();
        let mut pos: usize = 0;
        let mut more = true;
        assert(x@.skip(0) =~= x@);
        assert(y@ + all =~= all);
        while more
            invariant
                self.inv(),
                self.rate_in() == old(self).rate_in(),
                self.rate_out() == old(self).rate_out(),
                self.held() == old(self).held(),
                plan == self.plan(),
                batch == 10 * self.rate_in(),
                pos <= total == x@.len(),
                more ==> {
                    &&& y@ + lowered(self.state(), x@.skip(pos as int), batch, plan) == all
                    &&& lowered_next(self.state(), x@.skip(pos as int), batch, plan) == end_state
                    &&& pos > 0 ==> total - pos > 1
                },
                !more ==> y@ == all && self.state() == end_state,
            decreases total - pos + (if more {
                1int
            } else {
                0
            }),
        {
            let left: usize = total - pos;
            let n: usize = if left < self.batch_size {
                left
            } else {
                self.batch_size
            };
            let part: &[i16] = vstd::slice::slice_subrange(x, pos, pos + n);
            let ghost rest = x@.skip(pos as int);
            assert(batch_len(rest, batch) == n);
            assert(part@ =~= rest.take(n as int));
            assert(rest.skip(n as int) =~= x@.skip(pos + n));
            let ghost before = y@;
            let part_out: Vec<i16> = self.batch(part);
            y = join(y.as_slice(), part_out.as_slice());
            pos += n;
            more = total - pos > 1;
            proof {
                if more {
                    assert(before + (part_out@ + lowered(
                        self.state(),
                        x@.skip(pos as int),
                        batch,
                        plan,
                    )) =~= y@ + lowered(self.state(), x@.skip(pos as int), batch, plan));
                }
            }
        }
        y
    }

    /// Bring `input`, whole milliseconds and at least one, down into `out`.
    pub fn process(&mut self, out: &mut [i16], input: &[i16])
        requires
            old(self).inv(),
            old(self).rate_in() <= input@.len(),
            input@.len() as int % old(self).rate_in() == 0,
            input@.len() as int / old(self).rate_in() * old(self).rate_out() <= old(out)@.len(),
        ensures
            final(self).inv(),
            final(self).rate_in() == old(self).rate_in(),
            final(self).rate_out() == old(self).rate_out(),
            final(self).held() == input@.skip(input@.len() - old(self).held().len()),
            final(self).state() == old(self).next_state(input@),
            final(out)@ == overlaid(old(out)@, 0, old(self).lowers(input@)),
            old(self).lowers(input@).len() == input@.len() as int / old(self).rate_in() * old(
                self,
            ).rate_out(),
    {
        let ghost start = *self;
        let n: usize = input.len();
        let ms: usize = self.fs_in_khz;
        let delayed: Vec<i16> = delay_line(&self.delay_buf, self.input_delay, input);
        let first: &[i16] = vstd::slice::slice_subrange(delayed.as_slice(), 0, ms);
        let rest: &[i16] = vstd::slice::slice_subrange(delayed.as_slice(), ms, n);
        let ghost x = behind(start.held(), input@);
        assert(first@ =~= x.take(start.rate_in()));
        assert(rest@ =~= x.skip(start.rate_in()));
        let head: Vec<i16> = self.block(first);
        let ghost mid = self.state();
        let tail: Vec<i16> = self.block(rest);
        let y: Vec<i16> = join(head.as_slice(), tail.as_slice());
        overlay(out, 0, &y);
        let mut buf: [i16; 48] = self.delay_buf;
        hold_back(&mut buf, self.input_delay, input);
        self.delay_buf = buf;
        proof {
            let fi: int = start.rate_in();
            let fo: int = start.rate_out();
            let count: int = n as int / fi;
            let len: int = n as int;
            assert(len == count * fi && (count - 1) * fi == len - fi && (count - 1) * fo + fo
                == count * fo && count >= 1 && 1 * fi == fi && 1 * fo == fo) by (nonlinear_arith)
                requires
                    count == len / fi,
                    len % fi == 0,
                    len >= fi,
                    fi >= 1,
            ;
            law_lowering_keeps_the_duration(start.state(), first@, fi, fo, 1);
            law_lowering_keeps_the_duration(mid, rest@, fi, fo, count - 1);
        }
    }
}

/// The resampler of the encoder: the rate that is asked for in, the internal
/// rate out. Equal rates are no exception: the samples pass, but late.
pub enum SilkEncoderResampler {
    /// The internal rate is lower.
    Ratio(SilkDownFirResampler),
    /// The rates are equal.
    Pass(SilkPassthroughResampler),
}

impl SilkEncoderResampler {
    /// What holds of it between calls.
    pub open spec fn inv(&self) -> bool {
        match self {
            SilkEncoderResampler::Ratio(r) => r.inv(),
            SilkEncoderResampler::Pass(r) => r.inv(),
        }
    }

    /// The input rate, in kHz.
    pub open spec fn rate_in(&self) -> int {
        match self {
            SilkEncoderResampler::Ratio(r) => r.rate_in(),
            SilkEncoderResampler::Pass(r) => r.rate(),
        }
    }

    /// The output rate, in kHz.
    pub open spec fn rate_out(&self) -> int {
        match self {
            SilkEncoderResampler::Ratio(r) => r.rate_out(),
            SilkEncoderResampler::Pass(r) => r.rate(),
        }
    }

    /// The samples held back.
    pub open spec fn held(&self) -> Seq<i16> {
        match self {
            SilkEncoderResampler::Ratio(r) => r.held(),
            SilkEncoderResampler::Pass(r) => r.held(),
        }
    }

    /// The signal that a call brings out.
    pub open spec fn gives(&self, x: Seq<i16>) -> Seq<i16> {
        match self {
            SilkEncoderResampler::Ratio(r) => r.lowers(x),
            SilkEncoderResampler::Pass(r) => behind(r.held(), x),
        }
    }

    /// The filters; equal rates need none.
    pub open spec fn filters(&self) -> Option<DownState> {
        match self {
            SilkEncoderResampler::Ratio(r) => Some(r.state()),
            SilkEncoderResampler::Pass(r) => None,
        }
    }

    /// The filters behind a call.
    pub open spec fn next_filters(&self, x: Seq<i16>) -> Option<DownState> {
        match self {
            SilkEncoderResampler::Ratio(r) => Some(r.next_state(x)),
            SilkEncoderResampler::Pass(r) => None,
        }
    }

    /// A resampler between two rates, in Hz.
    pub fn new(fs_hz_in: i32, fs_hz_out: i32) -> (r: Option<Self>)
        ensures
            r is Some <==> are_encoder_rates(fs_hz_in as int, fs_hz_out as int) && fs_hz_out
                <= fs_hz_in,
            r is Some ==> {
                &&& (r->0).inv()
                &&& (r->0) is Pass <==> fs_hz_in == fs_hz_out
                &&& (r->0).rate_in() == fs_hz_in / 1000
                &&& (r->0).rate_out() == fs_hz_out / 1000
                &&& (r->0).held() == Seq::new(
                    DELAY_MATRIX_ENC@[rate_index(fs_hz_in as int)]@[rate_index(
                        fs_hz_out as int,
                    )] as nat,
                    |i: int| 0i16,
                )
                &&& (r->0) matches SilkEncoderResampler::Ratio(d) ==> d.state().iir == (0int, 0int)
                    && d.state().fir == Seq::new(d.plan().order as nat, |i: int| 0i32)
            },
    {
        if fs_hz_in == fs_hz_out {
            match SilkPassthroughResampler::new(fs_hz_in) {
                Some(p) => Some(SilkEncoderResampler::Pass(p)),
                None => None,
            }
        } else {
            match SilkDownFirResampler::new(fs_hz_in, fs_hz_out) {
                Some(d) => Some(SilkEncoderResampler::Ratio(d)),
                None => None,
            }
        }
    }

    /// Resample `input`, whole milliseconds and at least one, into `out`.
    pub fn process(&mut self, out: &mut [i16], input: &[i16])
        requires
            old(self).inv(),
            old(self).rate_in() <= input@.len(),
            input@.len() as int % old(self).rate_in() == 0,
            input@.len() as int / old(self).rate_in() * old(self).rate_out() <= old(out)@.len(),
        ensures
            final(self).inv(),
            final(self).rate_in() == old(self).rate_in(),
            final(self).rate_out() == old(self).rate_out(),
            final(self).held() == input@.skip(input@.len() - old(self).held().len()),
            final(out)@ == overlaid(old(out)@, 0, old(self).gives(input@)),
            final(self).filters() == old(self).next_filters(input@),
    {
        match self {
            SilkEncoderResampler::Ratio(r) => {
                r.process(out, input);
            },
            SilkEncoderResampler::Pass(r) => {
                proof {
                    let len: int = input@.len() as int;
                    let f: int = r.rate();
                    assert(len / f * f == len) by (nonlinear_arith)
                        requires
                            len % f == 0,
                            f >= 1,
                    ;
                }
                r.process(out, input);
            },
        }
    }
}

} // verus!
