//! Fixed-point signal processing: roots, quotients, energies and filters.

use vstd::arithmetic::power2::{
    lemma2_to64, lemma_pow2_adds, lemma_pow2_pos, lemma_pow2_strictly_increases,
    lemma_pow2_unfold, pow2,
};
use vstd::prelude::*;

use super::macros::{
    abs, clz, div_trunc, larger, lemma_clz_range, lemma_product_bound, lemma_wrap_is_word, lshift,
    lshift_sat32, rshift, rshift_round, sat16, silk_clz32, silk_div32, silk_lshift,
    silk_lshift_sat32, silk_max_int, silk_rshift, silk_rshift_round, silk_sat16, silk_smlawb,
    silk_smmul, silk_smulbb, silk_smulwb, silk_smulww, silk_sub32_ovflw, silk_wrap32, smlawb,
    smmul, smulbb, smulwb, smulww, wrap,
};

verus! {

// ---------------------------------------------------------------------------
// Square root
// ---------------------------------------------------------------------------
/// The seven bits behind the highest set bit of a word.
pub open spec fn fraction_q7(x: int) -> int {
    if clz(x) <= 24 {
        x / (pow2((24 - clz(x)) as nat) as int) % 128
    } else {
        x * pow2((clz(x) - 24) as nat) % 128
    }
}

/// An approximate square root: the power of two from the leading zeros, then a
/// line through the fraction.
pub open spec fn sqrt_approx(x: int) -> int {
    if x <= 0 {
        0
    } else {
        let base = (if clz(x) % 2 == 1 {
            32768int
        } else {
            46214
        }) / (pow2((clz(x) / 2) as nat) as int);
        smlawb(base, base, smulbb(213, fraction_q7(x)))
    }
}

/// See [`sqrt_approx`].
pub fn silk_sqrt_approx(x: i32) -> (y: i32)
    ensures
        y == sqrt_approx(x as int),
{
    if x <= 0 {
        return 0;
    }
    let lz: i32 = silk_clz32(x);
    let scaled: i32 = if lz <= 24 {
        silk_rshift(x, (24 - lz) as u32)
    } else {
        proof {
            lemma2_to64();
            lemma_pow2_adds((32 - lz) as nat, (lz - 24) as nat);
            lemma_pow2_pos((lz - 24) as nat);
            let xi: int = x as int;
            let p: int = pow2((lz - 24) as nat) as int;
            let q: int = pow2((32 - lz) as nat) as int;
            assert(0 <= xi * p <= q * p) by (nonlinear_arith)
                requires
                    0 <= xi <= q,
                    p >= 1,
            ;
            lemma_wrap_is_word(xi * p);
        }
        silk_lshift(x, (lz - 24) as u32)
    };
    proof {
        if lz <= 24 {
            lemma_pow2_pos((24 - lz) as nat);
            let xi: int = x as int;
            let p: int = pow2((24 - lz) as nat) as int;
            assert(0 <= xi / p) by (nonlinear_arith)
                requires
                    xi >= 0,
                    p >= 1,
            ;
        }
    }
    let frac: i32 = scaled % 128;
    let top: i32 = if lz % 2 == 1 {
        32768
    } else {
        46214
    };
    let base: i32 = silk_rshift(top, (lz / 2) as u32);
    silk_smlawb(base, base, silk_smulbb(213, frac))
}

// ---------------------------------------------------------------------------
// Quotients
// ---------------------------------------------------------------------------
/// The left shifts that bring a number to the top of its word.
pub open spec fn headroom(x: int) -> int {
    clz(abs(x)) - 1
}

/// An approximate reciprocal of a number brought to the top of its word.
pub open spec fn reciprocal(b_nrm: int) -> int {
    div_trunc(0x1fff_ffff, rshift(b_nrm, 16))
}

/// A number shifted right by `s`, or left and saturating where `s` is negative.
pub open spec fn rescale(x: int, s: int) -> int {
    if s < 0 {
        lshift_sat32(x, (-s) as nat)
    } else if s < 32 {
        rshift(x, s as nat)
    } else {
        0
    }
}

/// An approximation of `1 / b` with `q` fraction bits, good to about 30 bits:
/// a 16-bit reciprocal refined once.
pub open spec fn inverse32_varq(b: int, q: int) -> int {
    let b_nrm = lshift(b, headroom(b) as nat);
    let inv = reciprocal(b_nrm);
    let err = lshift(wrap(0x2000_0000 - smulwb(b_nrm, inv)), 3);
    let result = wrap(lshift(inv, 16) + smulww(err, inv));
    rescale(result, 61 - headroom(b) - q)
}

/// An approximation of `a / b` with `q` fraction bits, good to about 30 bits.
pub open spec fn div32_varq(a: int, b: int, q: int) -> int {
    let a_nrm = lshift(a, headroom(a) as nat);
    let b_nrm = lshift(b, headroom(b) as nat);
    let inv = reciprocal(b_nrm);
    let first = smulwb(a_nrm, inv);
    let left = wrap(a_nrm - lshift(smmul(b_nrm, first), 3));
    let result = smlawb(first, left, inv);
    rescale(result, 29 + headroom(a) - headroom(b) - q)
}

fn magnitude_of(x: i32) -> (m: i32)
    requires
        x > i32::MIN,
    ensures
        m == abs(x as int),
{
    if x < 0 {
        -x
    } else {
        x
    }
}

fn headroom_of(x: i32) -> (h: i32)
    requires
        x > i32::MIN,
    ensures
        h == headroom(x as int),
        0 <= h <= 31,
        x != 0 ==> h <= 30,
        x != 0 ==> pow2((30 - h) as nat) <= abs(x as int) < pow2((31 - h) as nat),
{
    silk_clz32(magnitude_of(x)) - 1
}

pub(crate) proof fn lemma_normalized(b: int, h: int)
    requires
        b != 0,
        0 <= h <= 30,
        pow2((30 - h) as nat) <= abs(b) < pow2((31 - h) as nat),
    ensures
        lshift(b, h as nat) == b * pow2(h as nat),
        b > 0 ==> 0x4000_0000 <= b * pow2(h as nat) <= 0x7fff_ffff,
        b < 0 ==> -0x8000_0000 < b * pow2(h as nat) <= -0x4000_0000,
        b > 0 ==> 16384 <= rshift(b * pow2(h as nat), 16) <= 32767,
        b < 0 ==> -32768 <= rshift(b * pow2(h as nat), 16) <= -16384,
{
    lemma2_to64();
    lemma_pow2_pos(h as nat);
    lemma_pow2_adds((30 - h) as nat, h as nat);
    lemma_pow2_adds((31 - h) as nat, h as nat);
    let p: int = pow2(h as nat) as int;
    let lo: int = pow2((30 - h) as nat) as int;
    let hi: int = pow2((31 - h) as nat) as int;
    let m: int = abs(b);
    assert(lo * p <= m * p && m * p < hi * p) by (nonlinear_arith)
        requires
            lo <= m < hi,
            p >= 1,
    ;
    if b < 0 {
        assert(b * p == -(m * p)) by (nonlinear_arith)
            requires
                m == -b,
        ;
    }
    lemma_wrap_is_word(b * p);
}

fn normalize(x: i32, h: i32) -> (n: i32)
    requires
        0 <= h <= 31,
    ensures
        n == lshift(x as int, h as nat),
{
    silk_lshift(x, h as u32)
}

fn rescale_word(x: i32, s: i32) -> (r: i32)
    requires
        s >= -31,
    ensures
        r == rescale(x as int, s as int),
{
    if s < 0 {
        silk_lshift_sat32(x, (-s) as u32)
    } else if s < 32 {
        silk_rshift(x, s as u32)
    } else {
        0
    }
}

/// See [`inverse32_varq`].
pub fn silk_inverse32_varq(b: i32, q: i32) -> (r: i32)
    requires
        b != 0,
        b > i32::MIN,
        0 < q <= 61,
    ensures
        r == inverse32_varq(b as int, q as int),
{
    let h: i32 = headroom_of(b);
    let b_nrm: i32 = normalize(b, h);
    proof {
        lemma_normalized(b as int, h as int);
    }
    let inv: i32 = silk_div32(0x1fff_ffff, silk_rshift(b_nrm, 16));
    let err: i32 = silk_lshift(silk_sub32_ovflw(0x2000_0000, silk_smulwb(b_nrm, inv)), 3);
    let result: i32 = silk_wrap32(silk_lshift(inv, 16) as i64 + silk_smulww(err, inv) as i64);
    rescale_word(result, 61 - h - q)
}

/// See [`div32_varq`].
pub fn silk_div32_varq(a: i32, b: i32, q: i32) -> (r: i32)
    requires
        a > i32::MIN,
        b != 0,
        b > i32::MIN,
        0 <= q <= 30,
    ensures
        r == div32_varq(a as int, b as int, q as int),
{
    let ha: i32 = headroom_of(a);
    let hb: i32 = headroom_of(b);
    let a_nrm: i32 = normalize(a, ha);
    let b_nrm: i32 = normalize(b, hb);
    proof {
        lemma_normalized(b as int, hb as int);
    }
    let inv: i32 = silk_div32(0x1fff_ffff, silk_rshift(b_nrm, 16));
    let first: i32 = silk_smulwb(a_nrm, inv);
    let left: i32 = silk_sub32_ovflw(a_nrm, silk_lshift(silk_smmul(b_nrm, first), 3));
    let result: i32 = silk_smlawb(first, left, inv);
    rescale_word(result, 29 + ha - hb - q)
}

// ---------------------------------------------------------------------------
// Energies
// ---------------------------------------------------------------------------
/// The energy of the first `n` samples, each pair of squares shifted right by
/// `s` before it is added.
pub open spec fn energy(x: Seq<i16>, n: int, s: nat) -> int
    decreases n,
{
    if n <= 0 {
        0
    } else if n % 2 == 1 {
        energy(x, n - 1, s) + rshift(x[n - 1] * x[n - 1], s)
    } else {
        energy(x, n - 2, s) + rshift(x[n - 2] * x[n - 2] + x[n - 1] * x[n - 1], s)
    }
}

/// The energy of the first `n` samples and the shift that leaves it a few bits
/// of headroom in a word.
pub open spec fn sum_sqr_shift(x: Seq<i16>, n: int) -> (int, int) {
    let first = 31 - clz(n);
    let rough = n + energy(x, n, first as nat);
    let s = larger(0, first + 3 - clz(rough));
    (wrap(energy(x, n, s as nat)), s)
}

proof fn lemma_square(v: i16)
    ensures
        0 <= v * v <= 0x4000_0000,
{
    assert(0 <= v * v <= 0x4000_0000) by (nonlinear_arith)
        requires
            -32768 <= v <= 32767,
    ;
}

proof fn lemma_energy_bound(x: Seq<i16>, n: int, s: nat)
    requires
        0 <= n <= x.len(),
        s <= 31,
    ensures
        0 <= energy(x, n, s) <= ((n + 1) / 2) * pow2((31 - s) as nat),
    decreases n,
{
    lemma2_to64();
    lemma_pow2_pos(s);
    lemma_pow2_adds(s, (31 - s) as nat);
    let p: int = pow2(s) as int;
    let k: int = pow2((31 - s) as nat) as int;
    if n <= 0 {
        assert(((n + 1) / 2) * k == 0) by (nonlinear_arith)
            requires
                (n + 1) / 2 == 0,
        ;
    } else {
        lemma_square(x[n - 1]);
        let m: int = if n % 2 == 1 {
            n - 1
        } else {
            n - 2
        };
        let t: int = if n % 2 == 1 {
            x[n - 1] * x[n - 1]
        } else {
            lemma_square(x[n - 2]);
            x[n - 2] * x[n - 2] + x[n - 1] * x[n - 1]
        };
        lemma_energy_bound(x, m, s);
        assert(0 <= t / p <= k) by (nonlinear_arith)
            requires
                0 <= t <= 0x8000_0000,
                p >= 1,
                p * k == 0x8000_0000,
        ;
        assert((n + 1) / 2 == (m + 1) / 2 + 1);
        assert(((m + 1) / 2 + 1) * k == ((m + 1) / 2) * k + k) by (nonlinear_arith);
    }
}

/// Add up the energy of the first `n` samples.
fn energy_of(x: &[i16], n: usize, s: u32) -> (e: i64)
    requires
        n <= x@.len(),
        n <= 0x7fff_ffff,
        s <= 31,
    ensures
        e == energy(x@, n as int, s as nat),
        0 <= e <= 0x4000_0000_0000_0000,
{
    let mut e: i64 = 0;
    let mut i: usize = 0;
    proof {
        lemma2_to64();
        lemma_pow2_pos(s as nat);
    }
    let p: i64 = shift_factor(s);
    while i + 1 < n
        invariant
            i <= n <= x@.len(),
            i % 2 == 0,
            n <= 0x7fff_ffff,
            s <= 31,
            p == pow2(s as nat),
            p >= 1,
            e == energy(x@, i as int, s as nat),
            0 <= e <= i * 0x4000_0000,
        decreases n - i,
    {
        let a: i64 = x[i] as i64;
        let b: i64 = x[i + 1] as i64;
        proof {
            lemma_square(x@[i as int]);
            lemma_square(x@[i + 1]);
            let t: int = a * a + b * b;
            assert(0 <= t / (p as int) <= t) by (nonlinear_arith)
                requires
                    0 <= t,
                    p >= 1,
            ;
        }
        e = e + (a * a + b * b) / p;
        i += 2;
    }
    if i < n {
        let a: i64 = x[i] as i64;
        proof {
            lemma_square(x@[i as int]);
            let t: int = a * a;
            assert(0 <= t / (p as int) <= t) by (nonlinear_arith)
                requires
                    0 <= t,
                    p >= 1,
            ;
        }
        e = e + a * a / p;
    }
    e
}

fn shift_factor(s: u32) -> (p: i64)
    requires
        s <= 31,
    ensures
        p == pow2(s as nat),
        1 <= p <= 0x8000_0000,
{
    let mut p: i64 = 1;
    let mut i: u32 = 0;
    proof {
        lemma2_to64();
        if s < 31 {
            lemma_pow2_strictly_increases(s as nat, 31);
        }
    }
    while i < s
        invariant
            i <= s <= 31,
            p == pow2(i as nat),
            1 <= p <= 0x8000_0000,
            pow2(31) == 0x8000_0000,
        decreases s - i,
    {
        proof {
            lemma_pow2_unfold((i + 1) as nat);
            if i + 1 < 31 {
                lemma_pow2_strictly_increases((i + 1) as nat, 31);
            }
        }
        p = p * 2;
        i += 1;
    }
    p
}

/// Leading zeros of an unsigned word.
fn clz_unsigned(x: i64) -> (n: i32)
    requires
        0 < x < 0x1_0000_0000,
    ensures
        n == clz(x as int),
        0 <= n <= 31,
{
    proof {
        lemma2_to64();
        lemma_clz_range(x as int);
        let c: int = clz(x as int);
        if c < 0 {
            if 32 < 31 - c {
                lemma_pow2_strictly_increases(32, (31 - c) as nat);
            }
        }
    }
    if x >= 0x8000_0000 {
        proof {
            let c: int = clz(x as int);
            if c > 0 {
                if 32 - c < 31 {
                    lemma_pow2_strictly_increases((32 - c) as nat, 31);
                }
            }
        }
        0
    } else {
        silk_clz32(x as i32)
    }
}

/// See [`sum_sqr_shift`].
pub fn silk_sum_sqr_shift(x: &[i16], len: usize) -> (r: (i32, i32))
    requires
        1 <= len <= x@.len(),
        len <= 0x7fff_ffff,
    ensures
        r.0 == sum_sqr_shift(x@, len as int).0,
        r.1 == sum_sqr_shift(x@, len as int).1,
        0 <= r.1 <= 34,
{
    let first: i32 = 31 - silk_clz32(len as i32);
    let rough: i64 = len as i64 + energy_of(x, len, first as u32);
    proof {
        lemma_energy_bound(x@, len as int, first as nat);
        lemma2_to64();
        lemma_clz_range(len as int);
        lemma_pow2_adds(first as nat, (31 - first) as nat);
        lemma_pow2_unfold((first + 1) as nat);
        let k: int = pow2((31 - first) as nat) as int;
        let p: int = pow2(first as nat) as int;
        let h: int = (len + 1) / 2;
        assert(h * k <= p * k) by (nonlinear_arith)
            requires
                h <= p,
                k >= 0,
        ;
    }
    let s: i32 = silk_max_int(0, first + 3 - clz_unsigned(rough));
    if s > 31 {
        proof {
            lemma_energy_vanishes(x@, len as int, s as nat);
            lemma_wrap_is_word(0);
        }
        return (0, s);
    }
    (silk_wrap32(energy_of(x, len, s as u32)), s)
}

proof fn lemma_energy_vanishes(x: Seq<i16>, n: int, s: nat)
    requires
        0 <= n <= x.len(),
        s > 31,
    ensures
        energy(x, n, s) == 0,
    decreases n,
{
    lemma2_to64();
    lemma_pow2_strictly_increases(31, s);
    let p: int = pow2(s) as int;
    if n > 0 {
        lemma_square(x[n - 1]);
        if n % 2 == 1 {
            lemma_energy_vanishes(x, n - 1, s);
            vstd::arithmetic::div_mod::lemma_basic_div(x[n - 1] * x[n - 1], p);
        } else {
            lemma_square(x[n - 2]);
            lemma_energy_vanishes(x, n - 2, s);
            vstd::arithmetic::div_mod::lemma_basic_div(
                x[n - 2] * x[n - 2] + x[n - 1] * x[n - 1],
                p,
            );
        }
    }
}

/// The inner product of the first `n` samples of two signals, each product
/// shifted right by `s`.
pub open spec fn inner_product(x: Seq<i16>, y: Seq<i16>, n: int, s: nat) -> int
    decreases n,
{
    if n <= 0 {
        0
    } else {
        wrap(inner_product(x, y, n - 1, s) + rshift(x[n - 1] * y[n - 1], s))
    }
}

/// See [`inner_product`].
pub fn silk_inner_prod_aligned_scale(x: &[i16], y: &[i16], scale: u32, len: usize) -> (r: i32)
    requires
        len <= x@.len(),
        len <= y@.len(),
        scale <= 31,
    ensures
        r == inner_product(x@, y@, len as int, scale as nat),
{
    let mut sum: i32 = 0;
    let mut i: usize = 0;
    while i < len
        invariant
            i <= len,
            len <= x@.len(),
            len <= y@.len(),
            scale <= 31,
            sum == inner_product(x@, y@, i as int, scale as nat),
        decreases len - i,
    {
        proof {
            lemma_product_bound(x@[i as int] as int, y@[i as int] as int, 32768, 32768);
        }
        let p: i32 = x[i] as i32 * y[i] as i32;
        sum = silk_wrap32(sum as i64 + silk_rshift(p, scale) as i64);
        i += 1;
    }
    sum
}

// ---------------------------------------------------------------------------
// Bounds
// ---------------------------------------------------------------------------
/// The sum of the squares of the first `n` samples.
pub open spec fn square_sum(x: Seq<i16>, n: int) -> int
    decreases n,
{
    if n <= 0 {
        0
    } else {
        square_sum(x, n - 1) + x[n - 1] * x[n - 1]
    }
}

pub proof fn lemma_square_sum_grows(x: Seq<i16>, m: int, n: int)
    requires
        0 <= m <= n <= x.len(),
    ensures
        0 <= square_sum(x, m) <= square_sum(x, n),
    decreases n,
{
    if n > 0 {
        lemma_square(x[n - 1]);
        if m < n {
            lemma_square_sum_grows(x, m, n - 1);
        } else {
            lemma_square_sum_grows(x, m - 1, n - 1);
        }
    }
}

proof fn lemma_energy_against_squares(x: Seq<i16>, n: int, s: nat)
    requires
        0 <= n <= x.len(),
    ensures
        energy(x, n, s) * pow2(s) <= square_sum(x, n) <= (energy(x, n, s) + n) * pow2(s),
    decreases n,
{
    lemma_pow2_pos(s);
    let p: int = pow2(s) as int;
    if n > 0 {
        let (m, t): (int, int) = if n % 2 == 1 {
            (n - 1, x[n - 1] * x[n - 1])
        } else {
            (n - 2, x[n - 2] * x[n - 2] + x[n - 1] * x[n - 1])
        };
        lemma_energy_against_squares(x, m, s);
        if n % 2 == 0 {
            assert(square_sum(x, n - 1) == square_sum(x, n - 2) + x[n - 2] * x[n - 2]);
        }
        assert(square_sum(x, n) == square_sum(x, m) + t);
        let e: int = energy(x, m, s);
        let q: int = t / p;
        let total: int = square_sum(x, m);
        assert((e + q) * p <= total + t && total + t <= (e + q + n) * p) by (nonlinear_arith)
            requires
                q == t / p,
                p >= 1,
                e * p <= total <= (e + m) * p,
                m + 1 <= n,
        ;
    } else {
        assert(0 * p == 0) by (nonlinear_arith);
    }
}

/// The shift of [`sum_sqr_shift`] brings the energy below two to the power 29.
pub proof fn lemma_energy_has_headroom(x: Seq<i16>, n: int)
    requires
        1 <= n <= x.len(),
        n <= 0x4000,
    ensures
        ({
            let (e, s) = sum_sqr_shift(x, n);
            &&& 0 <= s <= 17
            &&& 0 <= e <= 0x2000_0000
            &&& square_sum(x, n) <= 0x2000_0000 * pow2(s as nat)
        }),
{
    lemma2_to64();
    lemma_clz_range(n);
    let first: int = 31 - clz(n);
    if first > 14 {
        if first > 15 {
            lemma_pow2_strictly_increases(15, first as nat);
        }
    }
    if first < 0 {
        assert(false);
    }
    let rough: int = n + energy(x, n, first as nat);
    lemma_energy_bound(x, n, first as nat);
    lemma_energy_against_squares(x, n, first as nat);
    lemma_pow2_adds(first as nat, (31 - first) as nat);
    lemma_pow2_unfold((first + 1) as nat);
    let k: int = pow2((31 - first) as nat) as int;
    let f: int = pow2(first as nat) as int;
    let h: int = (n + 1) / 2;
    assert(h * k <= f * k) by (nonlinear_arith)
        requires
            h <= f,
            k >= 0,
    ;
    lemma_clz_range(rough);
    let c: int = clz(rough);
    if c < 0 {
        if 32 < 31 - c {
            lemma_pow2_strictly_increases(32, (31 - c) as nat);
        }
    }
    let s: int = larger(0, first + 3 - c);
    lemma_pow2_adds((32 - c) as nat, first as nat);
    lemma_pow2_adds(29, s as nat);
    if 32 - c + first < 29 + s {
        lemma_pow2_strictly_increases((32 - c + first) as nat, (29 + s) as nat);
    }
    let top: int = pow2((32 - c) as nat) as int;
    assert(rough * f <= top * f) by (nonlinear_arith)
        requires
            rough <= top,
            f >= 0,
    ;
    assert(square_sum(x, n) <= 0x2000_0000 * pow2(s as nat));
    lemma_energy_against_squares(x, n, s as nat);
    lemma_square_sum_grows(x, 0, n);
    lemma_pow2_pos(s as nat);
    let p: int = pow2(s as nat) as int;
    let e: int = energy(x, n, s as nat);
    lemma_energy_nonneg(x, n, s as nat);
    assert(e <= 0x2000_0000) by (nonlinear_arith)
        requires
            e * p <= 0x2000_0000 * p,
            p >= 1,
    ;
    lemma_wrap_is_word(e);
}

proof fn lemma_energy_nonneg(x: Seq<i16>, n: int, s: nat)
    requires
        0 <= n <= x.len(),
    ensures
        energy(x, n, s) >= 0,
    decreases n,
{
    lemma_pow2_pos(s);
    if n > 0 {
        lemma_square(x[n - 1]);
        let p: int = pow2(s) as int;
        if n % 2 == 1 {
            lemma_energy_nonneg(x, n - 1, s);
            vstd::arithmetic::div_mod::lemma_div_pos_is_pos(x[n - 1] * x[n - 1], p);
        } else {
            lemma_square(x[n - 2]);
            lemma_energy_nonneg(x, n - 2, s);
            vstd::arithmetic::div_mod::lemma_div_pos_is_pos(
                x[n - 2] * x[n - 2] + x[n - 1] * x[n - 1],
                p,
            );
        }
    }
}

/// An inner product is no larger than the energies allow.
pub proof fn lemma_inner_product_bound(x: Seq<i16>, y: Seq<i16>, m: int, n: int, s: nat)
    requires
        0 <= m <= n <= 0x4000,
        n <= x.len(),
        n <= y.len(),
        square_sum(x, n) <= 0x2000_0000 * pow2(s),
        square_sum(y, n) <= 0x2000_0000 * pow2(s),
    ensures
        2 * pow2(s) * inner_product(x, y, m, s) <= square_sum(x, m) + square_sum(y, m) + 2 * pow2(s)
            * m,
        -(2 * pow2(s) * inner_product(x, y, m, s)) <= square_sum(x, m) + square_sum(y, m) + 2
            * pow2(s) * m,
        -0x2000_0000 - m <= inner_product(x, y, m, s) <= 0x2000_0000 + m,
    decreases m,
{
    lemma_pow2_pos(s);
    let p: int = pow2(s) as int;
    if m > 0 {
        lemma_inner_product_bound(x, y, m - 1, n, s);
        lemma_square_sum_grows(x, m, n);
        lemma_square_sum_grows(y, m, n);
        let a: int = x[m - 1] as int;
        let b: int = y[m - 1] as int;
        let t: int = a * b;
        let f: int = t / p;
        let before: int = inner_product(x, y, m - 1, s);
        let sum: int = before + f;
        let tx: int = square_sum(x, m - 1);
        let ty: int = square_sum(y, m - 1);
        assert(2 * t <= a * a + b * b && -2 * t <= a * a + b * b) by (nonlinear_arith)
            requires
                t == a * b,
        ;
        assert(p * f <= t && t <= p * f + p) by (nonlinear_arith)
            requires
                f == t / p,
                p >= 1,
        ;
        assert(2 * p * sum == 2 * p * before + 2 * (p * f)) by (nonlinear_arith)
            requires
                sum == before + f,
        ;
        assert(2 * p * m == 2 * p * (m - 1) + 2 * p) by (nonlinear_arith);
        let bound: int = 0x2000_0000 * p + 0x2000_0000 * p + 2 * p * m;
        assert(-0x2000_0000 - m <= sum <= 0x2000_0000 + m) by (nonlinear_arith)
            requires
                2 * p * sum <= bound,
                -(2 * p * sum) <= bound,
                bound == 0x2000_0000 * p + 0x2000_0000 * p + 2 * p * m,
                p >= 1,
        ;
        lemma_wrap_is_word(sum);
    } else {
        assert(2 * p * 0 == 0) by (nonlinear_arith);
    }
}

/// The approximate root of a word fits 16 bits.
pub proof fn lemma_sqrt_bound(x: int)
    requires
        x <= 0x7fff_ffff,
    ensures
        0 <= sqrt_approx(x) <= 0xffff,
{
    if x > 0 {
        let c: int = clz(x);
        lemma_clz_range(x);
        let top: int = if c % 2 == 1 {
            32768
        } else {
            46214
        };
        lemma_pow2_pos((c / 2) as nat);
        let p: int = pow2((c / 2) as nat) as int;
        let base: int = top / p;
        assert(0 <= base <= 46214) by (nonlinear_arith)
            requires
                base == top / p,
                0 <= top <= 46214,
                p >= 1,
        ;
        let frac: int = fraction_q7(x);
        assert(0 <= frac <= 127);
        lemma_wrap_is_word(frac);
        lemma_wrap_is_word(213);
        let slope: int = 213 * frac;
        lemma_wrap_is_word(slope);
        assert(0 <= base * slope <= 46214 * 27051) by (nonlinear_arith)
            requires
                0 <= base <= 46214,
                0 <= slope <= 27051,
        ;
        lemma_wrap_is_word(base + base * slope / 0x1_0000);
    }
}

// ---------------------------------------------------------------------------
// Prediction filters
// ---------------------------------------------------------------------------
/// The prediction of sample `i` from the `n` before it.
pub open spec fn prediction(x: Seq<i16>, b: Seq<i16>, i: int, n: int) -> int
    decreases n,
{
    if n <= 0 {
        0
    } else {
        prediction(x, b, i, n - 1) + x[i - n] * b[n - 1]
    }
}

/// Sample `i` less its prediction of order `d` with coefficients in Q12; the
/// first `d` samples have none and give zero.
pub open spec fn residual(x: Seq<i16>, b: Seq<i16>, i: int, d: int) -> int {
    if i < d {
        0
    } else {
        sat16(rshift_round(wrap(x[i] * 4096 - prediction(x, b, i, d)), 12))
    }
}

/// Take the short-term prediction out of `x`.
pub fn silk_lpc_analysis_filter(x: &[i16], b: &[i16], len: usize, d: usize) -> (out: Vec<i16>)
    requires
        len <= x@.len(),
        d <= b@.len(),
        d <= 16,
    ensures
        out@.len() == len,
        forall|i: int| 0 <= i < len ==> #[trigger] out@[i] == residual(x@, b@, i, d as int),
{
    let mut out: Vec<i16> = Vec::with_capacity(len);
    let mut i: usize = 0;
    while i < len
        invariant
            i <= len <= x@.len(),
            d <= b@.len(),
            d <= 16,
            out@.len() == i,
            forall|j: int| 0 <= j < i ==> #[trigger] out@[j] == residual(x@, b@, j, d as int),
        decreases len - i,
    {
        if i < d {
            out.push(0);
        } else {
            let mut p: i64 = 0;
            let mut j: usize = 0;
            while j < d
                invariant
                    j <= d <= 16,
                    d <= i < x@.len(),
                    d <= b@.len(),
                    p == prediction(x@, b@, i as int, j as int),
                    -0x4000_0000 * j <= p <= 0x4000_0000 * j,
                decreases d - j,
            {
                proof {
                    lemma_product_bound(
                        x@[i - j - 1] as int,
                        b@[j as int] as int,
                        32768,
                        32768,
                    );
                }
                p = p + x[i - j - 1] as i64 * b[j] as i64;
                j += 1;
            }
            let q: i32 = silk_wrap32(x[i] as i64 * 4096 - p);
            out.push(silk_sat16(silk_rshift_round(q, 12)));
        }
        i += 1;
    }
    out
}

/// The factor of coefficient `i` when a filter's bandwidth is expanded: roughly
/// `chirp` to the power `i + 1`, in Q16.
pub open spec fn chirp_power(chirp: int, i: int) -> int
    decreases i,
{
    if i <= 0 {
        chirp
    } else {
        let c = chirp_power(chirp, i - 1);
        c + rshift_round(c * (chirp - 0x1_0000), 16)
    }
}

proof fn lemma_chirp_power(chirp: int, i: int)
    requires
        0 <= chirp <= 0x1_0000,
    ensures
        0 <= chirp_power(chirp, i) <= 0x1_0000,
    decreases i,
{
    if i > 0 {
        lemma_chirp_power(chirp, i - 1);
        lemma2_to64();
        let c: int = chirp_power(chirp, i - 1);
        let m: int = chirp - 0x1_0000;
        assert(-0x1_0000 * c <= c * m <= 0) by (nonlinear_arith)
            requires
                0 <= c,
                -0x1_0000 <= m <= 0,
        ;
    }
}

/// A coefficient with its bandwidth expanded.
pub open spec fn expanded(ar: Seq<i16>, chirp: int, i: int) -> int {
    rshift_round(chirp_power(chirp, i) * ar[i], 16)
}

/// Expand the bandwidth of the first `d` coefficients by `chirp_q16`.
pub fn silk_bwexpander(ar: &[i16; 16], d: usize, chirp_q16: i32) -> (out: [i16; 16])
    requires
        d <= 16,
        0 <= chirp_q16 <= 0x1_0000,
    ensures
        forall|i: int|
            0 <= i < 16 ==> #[trigger] out@[i] == if i < d {
                expanded(ar@, chirp_q16 as int, i)
            } else {
                ar@[i] as int
            },
{
    let mut out: [i16; 16] = *ar;
    let mut chirp: i64 = chirp_q16 as i64;
    let mut i: usize = 0;
    proof {
        lemma2_to64();
    }
    while i < d
        invariant
            i <= d <= 16,
            0 <= chirp_q16 <= 0x1_0000,
            i < d ==> chirp == chirp_power(chirp_q16 as int, i as int),
            0 <= chirp <= 0x1_0000,
            pow2(16) == 0x1_0000,
            pow2(15) == 0x8000,
            forall|j: int|
                0 <= j < 16 ==> #[trigger] out@[j] == if j < i {
                    expanded(ar@, chirp_q16 as int, j)
                } else {
                    ar@[j] as int
                },
        decreases d - i,
    {
        let a: i64 = ar[i] as i64;
        proof {
            let c: int = chirp as int;
            assert(-0x1_0000 * 32768 <= c * a <= 0x1_0000 * 32767) by (nonlinear_arith)
                requires
                    0 <= c <= 0x1_0000,
                    -32768 <= a <= 32767,
            ;
            lemma_chirp_power(chirp_q16 as int, i + 1);
            assert(-0x1_0000 * 0x1_0000 <= c * (chirp_q16 - 0x1_0000) <= 0) by (nonlinear_arith)
                requires
                    0 <= c <= 0x1_0000,
                    0 <= chirp_q16 <= 0x1_0000,
            ;
        }
        out[i] = shift16_round(chirp * a) as i16;
        chirp = chirp + shift16_round(chirp * (chirp_q16 as i64 - 0x1_0000));
        i += 1;
    }
    out
}

fn shift16_round(x: i64) -> (r: i64)
    requires
        -0x2_0000_0000 <= x <= 0x2_0000_0000,
    ensures
        r == rshift_round(x as int, 16),
{
    proof {
        lemma2_to64();
    }
    let y: i64 = x + 0x8000;
    if y >= 0 {
        y / 0x1_0000
    } else {
        -1 - (-(y + 1)) / 0x1_0000
    }
}

} // verus!
