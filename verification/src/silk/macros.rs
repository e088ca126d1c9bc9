//! Fixed-point arithmetic on 32-bit words.
//!
//! Sums and left shifts wrap around where they leave 32 bits unless the name
//! says that they saturate; right shifts round towards negative infinity. A
//! `b` in a name stands for the low 16 bits of an operand taken as a signed
//! number, a `w` for the whole word.

use vstd::arithmetic::power2::{
    lemma2_to64, lemma_pow2_adds, lemma_pow2_pos, lemma_pow2_strictly_increases,
    lemma_pow2_unfold, pow2,
};
use vstd::prelude::*;

verus! {

/// The 32-bit word that agrees with `x` modulo two to the power 32.
pub open spec fn wrap(x: int) -> int {
    let m = x % 0x1_0000_0000;
    if m >= 0x8000_0000 {
        m - 0x1_0000_0000
    } else {
        m
    }
}

/// The low 16 bits of `x` as a signed number.
pub open spec fn low16(x: int) -> int {
    let m = x % 0x1_0000;
    if m >= 0x8000 {
        m - 0x1_0000
    } else {
        m
    }
}

/// `x` held to the range of a 16-bit number.
pub open spec fn sat16(x: int) -> int {
    if x > 32767 {
        32767
    } else if x < -32768 {
        -32768
    } else {
        x
    }
}

/// `x` held to the range of a 32-bit number.
pub open spec fn sat32(x: int) -> int {
    if x > 0x7fff_ffff {
        0x7fff_ffff
    } else if x < -0x8000_0000 {
        -0x8000_0000
    } else {
        x
    }
}

/// `x` held between two bounds.
pub open spec fn limit(x: int, lo: int, hi: int) -> int {
    if x > hi {
        hi
    } else if x < lo {
        lo
    } else {
        x
    }
}

/// The larger of two numbers.
pub open spec fn larger(a: int, b: int) -> int {
    if a > b {
        a
    } else {
        b
    }
}

/// The smaller of two numbers.
pub open spec fn smaller(a: int, b: int) -> int {
    if a < b {
        a
    } else {
        b
    }
}

/// The distance of `x` from zero.
pub open spec fn abs(x: int) -> int {
    if x < 0 {
        -x
    } else {
        x
    }
}

/// A word times the low half of another, the upper 32 of 48 bits kept.
pub open spec fn smulwb(a: int, b: int) -> int {
    a * low16(b) / 0x1_0000
}

/// [`smulwb`] added to an accumulator.
pub open spec fn smlawb(acc: int, b: int, c: int) -> int {
    wrap(acc + smulwb(b, c))
}

/// The product of two low halves.
pub open spec fn smulbb(a: int, b: int) -> int {
    low16(a) * low16(b)
}

/// [`smulbb`] added to an accumulator.
pub open spec fn smlabb(acc: int, b: int, c: int) -> int {
    wrap(acc + smulbb(b, c))
}

/// A word times another, 16 bits dropped.
pub open spec fn smulww(a: int, b: int) -> int {
    wrap(a * b / 0x1_0000)
}

/// The upper half of a 64-bit product.
pub open spec fn smmul(a: int, b: int) -> int {
    a * b / 0x1_0000_0000
}

/// A right shift, rounding to the nearest, halves up.
pub open spec fn rshift_round(x: int, s: nat) -> int {
    (x + pow2((s - 1) as nat)) / (pow2(s) as int)
}

/// A right shift.
pub open spec fn rshift(x: int, s: nat) -> int {
    x / (pow2(s) as int)
}

/// A left shift, wrapping around.
pub open spec fn lshift(x: int, s: nat) -> int {
    wrap(x * pow2(s))
}

/// A left shift, saturating.
pub open spec fn lshift_sat32(x: int, s: nat) -> int {
    limit(x, rshift(-0x8000_0000, s), rshift(0x7fff_ffff, s)) * pow2(s)
}

/// The next state of the pseudo-random generator.
pub open spec fn rand_next(seed: int) -> int {
    wrap(907633515 + seed * 196314165)
}

/// A quotient rounded towards zero.
pub open spec fn div_trunc(a: int, b: int) -> int {
    if a >= 0 {
        if b > 0 {
            a / b
        } else {
            -(a / -b)
        }
    } else {
        if b > 0 {
            -(-a / b)
        } else {
            -a / -b
        }
    }
}

/// The zero bits above the highest set bit of a non-negative word.
pub open spec fn clz(x: int) -> int
    decreases x,
{
    if x <= 0 {
        32
    } else {
        clz(x / 2) - 1
    }
}

// ---------------------------------------------------------------------------
// Range facts
// ---------------------------------------------------------------------------
/// Whether `x` fits 32 bits.
pub open spec fn is_word(x: int) -> bool {
    -0x8000_0000 <= x <= 0x7fff_ffff
}

pub proof fn lemma_wrap_is_word(x: int)
    ensures
        is_word(wrap(x)),
        is_word(x) ==> wrap(x) == x,
        -32768 <= low16(x) <= 32767,
        -32768 <= x <= 32767 ==> low16(x) == x,
{
}

pub proof fn lemma_product_bound(a: int, b: int, m: int, n: int)
    requires
        -m <= a <= m,
        -n <= b <= n,
    ensures
        -(m * n) <= a * b <= m * n,
{
    assert(-(m * n) <= a * b <= m * n) by (nonlinear_arith)
        requires
            -m <= a <= m,
            -n <= b <= n,
    ;
}

pub proof fn lemma_smulwb_is_word(a: int, b: int)
    requires
        is_word(a),
    ensures
        is_word(smulwb(a, b)),
        -0x8000_0000 * 32768 <= a * low16(b) <= 0x8000_0000 * 32768,
{
    lemma_product_bound(a, low16(b), 0x8000_0000, 32768);
    let p: int = a * low16(b);
    assert(p <= 0x7fff_ffff * 32768 || p <= 0x8000_0000 * 32768);
}

/// Powers of two up to 62 fit a signed 64-bit number.
proof fn lemma_pow2_bound(s: nat, t: nat)
    requires
        s <= t,
    ensures
        1 <= pow2(s) <= pow2(t),
{
    lemma_pow2_pos(s);
    if s < t {
        lemma_pow2_strictly_increases(s, t);
    }
}

// ---------------------------------------------------------------------------
// Operations
// ---------------------------------------------------------------------------
/// `x / d` rounded towards negative infinity.
fn floor_div(x: i64, d: i64) -> (q: i64)
    requires
        d > 0,
        x > i64::MIN,
    ensures
        q == x as int / d as int,
{
    if x >= 0 {
        x / d
    } else {
        let y: i64 = -(x + 1);
        let q: i64 = y / d;
        proof {
            let xi: int = x as int;
            let di: int = d as int;
            let qi: int = q as int;
            assert(xi / di == -1 - qi) by (nonlinear_arith)
                requires
                    di > 0,
                    qi == (-(xi + 1)) / di,
            ;
        }
        -1 - q
    }
}

/// The 32-bit word that agrees with `x`.
pub fn silk_wrap32(x: i64) -> (r: i32)
    requires
        x > i64::MIN,
    ensures
        r == wrap(x as int),
{
    let q: i64 = floor_div(x, 0x1_0000_0000);
    let m: i64 = x - q * 0x1_0000_0000;
    if m >= 0x8000_0000 {
        (m - 0x1_0000_0000) as i32
    } else {
        m as i32
    }
}

fn low_half(x: i32) -> (r: i64)
    ensures
        r == low16(x as int),
        -32768 <= r <= 32767,
{
    let q: i64 = floor_div(x as i64, 0x1_0000);
    let m: i64 = x as i64 - q * 0x1_0000;
    if m >= 0x8000 {
        m - 0x1_0000
    } else {
        m
    }
}

/// See [`low16`].
pub fn silk_trunc16(x: i32) -> (r: i16)
    ensures
        r == low16(x as int),
{
    low_half(x) as i16
}

fn power_of_two(s: u32) -> (p: i64)
    requires
        s <= 62,
    ensures
        p == pow2(s as nat),
        1 <= p <= 0x4000_0000_0000_0000,
        s <= 31 ==> p <= 0x8000_0000,
        s <= 30 ==> p <= 0x4000_0000,
{
    let mut p: i64 = 1;
    let mut i: u32 = 0;
    proof {
        lemma2_to64();
        lemma_pow2_adds(31, 31);
        lemma_pow2_bound(s as nat, 62);
        if s <= 31 {
            lemma_pow2_bound(s as nat, 31);
        }
        if s <= 30 {
            lemma_pow2_bound(s as nat, 30);
        }
    }
    while i < s
        invariant
            i <= s <= 62,
            p == pow2(i as nat),
            pow2(62) == 0x4000_0000_0000_0000,
        decreases s - i,
    {
        proof {
            lemma_pow2_unfold((i + 1) as nat);
            lemma_pow2_bound((i + 1) as nat, 62);
        }
        p = p * 2;
        i += 1;
    }
    p
}

/// See [`smulwb`].
pub fn silk_smulwb(a: i32, b: i32) -> (r: i32)
    ensures
        r == smulwb(a as int, b as int),
{
    proof {
        lemma_smulwb_is_word(a as int, b as int);
    }
    let h: i64 = low_half(b);
    floor_div(a as i64 * h, 0x1_0000) as i32
}

/// See [`smlawb`].
pub fn silk_smlawb(acc: i32, b: i32, c: i32) -> (r: i32)
    ensures
        r == smlawb(acc as int, b as int, c as int),
{
    silk_wrap32(acc as i64 + silk_smulwb(b, c) as i64)
}

/// See [`smulbb`].
pub fn silk_smulbb(a: i32, b: i32) -> (r: i32)
    ensures
        r == smulbb(a as int, b as int),
{
    let x: i64 = low_half(a);
    let y: i64 = low_half(b);
    proof {
        lemma_product_bound(x as int, y as int, 32768, 32768);
    }
    (x * y) as i32
}

/// See [`smlabb`].
pub fn silk_smlabb(acc: i32, b: i32, c: i32) -> (r: i32)
    ensures
        r == smlabb(acc as int, b as int, c as int),
{
    silk_wrap32(acc as i64 + silk_smulbb(b, c) as i64)
}

/// See [`smulww`].
pub fn silk_smulww(a: i32, b: i32) -> (r: i32)
    ensures
        r == smulww(a as int, b as int),
{
    proof {
        lemma_product_bound(a as int, b as int, 0x8000_0000, 0x8000_0000);
    }
    silk_wrap32(floor_div(a as i64 * b as i64, 0x1_0000))
}

/// See [`smmul`].
pub fn silk_smmul(a: i32, b: i32) -> (r: i32)
    ensures
        r == smmul(a as int, b as int),
{
    proof {
        lemma_product_bound(a as int, b as int, 0x8000_0000, 0x8000_0000);
    }
    floor_div(a as i64 * b as i64, 0x1_0000_0000) as i32
}

/// A sum, wrapping around.
pub fn silk_add32_ovflw(a: i32, b: i32) -> (r: i32)
    ensures
        r == wrap(a + b),
{
    silk_wrap32(a as i64 + b as i64)
}

/// A difference, wrapping around.
pub fn silk_sub32_ovflw(a: i32, b: i32) -> (r: i32)
    ensures
        r == wrap(a - b),
{
    silk_wrap32(a as i64 - b as i64)
}

/// See [`rshift_round`].
pub fn silk_rshift_round(x: i32, s: u32) -> (r: i32)
    requires
        1 <= s <= 31,
    ensures
        r == rshift_round(x as int, s as nat),
{
    let half: i64 = power_of_two(s - 1);
    let whole: i64 = power_of_two(s);
    proof {
        lemma_pow2_unfold(s as nat);
        let xi: int = x as int;
        let h: int = half as int;
        let w: int = whole as int;
        assert(-0x8000_0000 <= (xi + h) / w <= 0x7fff_ffff) by (nonlinear_arith)
            requires
                w == 2 * h,
                h >= 1,
                -0x8000_0000 <= xi <= 0x7fff_ffff,
        ;
    }
    floor_div(x as i64 + half, whole) as i32
}

/// See [`rshift`].
pub fn silk_rshift(x: i32, s: u32) -> (r: i32)
    requires
        s <= 31,
    ensures
        r == rshift(x as int, s as nat),
{
    let whole: i64 = power_of_two(s);
    proof {
        let xi: int = x as int;
        let w: int = whole as int;
        assert(-0x8000_0000 <= xi / w <= 0x7fff_ffff) by (nonlinear_arith)
            requires
                w >= 1,
                -0x8000_0000 <= xi <= 0x7fff_ffff,
        ;
    }
    floor_div(x as i64, whole) as i32
}

/// See [`lshift`].
pub fn silk_lshift(x: i32, s: u32) -> (r: i32)
    requires
        s <= 31,
    ensures
        r == lshift(x as int, s as nat),
{
    let p: i64 = power_of_two(s);
    proof {
        lemma_product_bound(x as int, p as int, 0x8000_0000, 0x8000_0000);
    }
    silk_wrap32(x as i64 * p)
}

/// See [`lshift_sat32`].
pub fn silk_lshift_sat32(x: i32, s: u32) -> (r: i32)
    requires
        s <= 31,
    ensures
        r == lshift_sat32(x as int, s as nat),
{
    let p: i64 = power_of_two(s);
    let lo: i32 = silk_rshift(i32::MIN, s);
    let hi: i32 = silk_rshift(i32::MAX, s);
    let y: i32 = if x > hi {
        hi
    } else if x < lo {
        lo
    } else {
        x
    };
    proof {
        lemma2_to64();
        lemma_pow2_adds(s as nat, (31 - s) as nat);
        lemma_pow2_pos((31 - s) as nat);
        let pi: int = p as int;
        let yi: int = y as int;
        let k: int = pow2((31 - s) as nat) as int;
        let l: int = lo as int;
        let h: int = hi as int;
        assert(l == -k && 0 <= h && h * pi <= 0x7fff_ffff) by (nonlinear_arith)
            requires
                pi >= 1,
                pi * k == 0x8000_0000,
                l == -0x8000_0000int / pi,
                h == 0x7fff_ffffint / pi,
        ;
        assert(-0x8000_0000 <= yi * pi <= h * pi) by (nonlinear_arith)
            requires
                pi >= 1,
                pi * k == 0x8000_0000,
                -k <= yi <= h,
        ;
    }
    (y as i64 * p) as i32
}

/// The sum `a + (b << s)`, wrapping around.
pub fn silk_add_lshift32(a: i32, b: i32, s: u32) -> (r: i32)
    requires
        s <= 31,
    ensures
        r == wrap(a + lshift(b as int, s as nat)),
{
    silk_add32_ovflw(a, silk_lshift(b, s))
}

/// The difference `a - (b << s)`, wrapping around.
pub fn silk_sub_lshift32(a: i32, b: i32, s: u32) -> (r: i32)
    requires
        s <= 31,
    ensures
        r == wrap(a - lshift(b as int, s as nat)),
{
    silk_sub32_ovflw(a, silk_lshift(b, s))
}

/// See [`sat16`].
pub fn silk_sat16(x: i32) -> (r: i16)
    ensures
        r == sat16(x as int),
{
    if x > 32767 {
        32767
    } else if x < -32768 {
        -32768
    } else {
        x as i16
    }
}

/// A saturating sum.
pub fn silk_add_sat32(a: i32, b: i32) -> (r: i32)
    ensures
        r == sat32(a + b),
{
    let s: i64 = a as i64 + b as i64;
    if s > 0x7fff_ffff {
        i32::MAX
    } else if s < -0x8000_0000 {
        i32::MIN
    } else {
        s as i32
    }
}

/// A saturating sum of 16-bit numbers.
pub fn silk_add_sat16(a: i16, b: i16) -> (r: i16)
    ensures
        r == sat16(a + b),
{
    silk_sat16(a as i32 + b as i32)
}

/// See [`limit`].
pub fn silk_limit(x: i32, lo: i32, hi: i32) -> (r: i32)
    ensures
        r == limit(x as int, lo as int, hi as int),
{
    if x > hi {
        hi
    } else if x < lo {
        lo
    } else {
        x
    }
}

/// See [`larger`].
pub fn silk_max_int(a: i32, b: i32) -> (r: i32)
    ensures
        r == larger(a as int, b as int),
{
    if a > b {
        a
    } else {
        b
    }
}

/// See [`smaller`].
pub fn silk_min_int(a: i32, b: i32) -> (r: i32)
    ensures
        r == smaller(a as int, b as int),
{
    if a < b {
        a
    } else {
        b
    }
}

/// See [`rand_next`].
pub fn silk_rand(seed: i32) -> (r: i32)
    ensures
        r == rand_next(seed as int),
{
    silk_wrap32(907633515 + seed as i64 * 196314165)
}

/// See [`div_trunc`].
pub fn silk_div32(a: i32, b: i32) -> (r: i32)
    requires
        b != 0,
        !(a == i32::MIN && b == -1),
    ensures
        r == div_trunc(a as int, b as int),
{
    let x: i64 = a as i64;
    let y: i64 = b as i64;
    let q: i64 = if x >= 0 {
        if y > 0 {
            x / y
        } else {
            -(x / -y)
        }
    } else {
        if y > 0 {
            -(-x / y)
        } else {
            -x / -y
        }
    };
    proof {
        let ax: int = abs(a as int);
        let by: int = abs(b as int);
        assert(0 <= ax / by <= ax) by (nonlinear_arith)
            requires
                ax >= 0,
                by >= 1,
        ;
        if a == i32::MIN && b < 0 {
            assert(ax / by <= 0x4000_0000) by (nonlinear_arith)
                requires
                    ax == 0x8000_0000,
                    by >= 2,
            ;
        }
    }
    q as i32
}

/// See [`clz`].
pub fn silk_clz32(x: i32) -> (n: i32)
    requires
        x >= 0,
    ensures
        n == clz(x as int),
        0 < n <= 32,
        x > 0 ==> n <= 31,
        x > 0 ==> pow2((31 - n) as nat) <= x < pow2((32 - n) as nat),
{
    let mut y: i32 = x;
    let mut n: i32 = 32;
    proof {
        lemma_clz_bound(x as int);
    }
    while y > 0
        invariant
            0 <= y,
            clz(x as int) == n - 32 + clz(y as int),
            clz(x as int) >= 1,
            1 <= n <= 32,
            clz(y as int) <= 32,
            y > 0 ==> clz(y as int) <= 31,
        decreases y,
    {
        proof {
            lemma_clz_bound(y as int / 2);
        }
        y = y / 2;
        n -= 1;
    }
    proof {
        if x > 0 {
            lemma_clz_range(x as int);
        }
    }
    n
}

proof fn lemma_clz_bound(x: int)
    requires
        x <= 0x7fff_ffff,
    ensures
        1 <= clz(x) <= 32,
        x > 0 ==> clz(x) <= 31,
{
    lemma2_to64();
    if x > 0 {
        lemma_clz_range(x);
        let n: int = clz(x);
        if n < 1 {
            lemma_pow2_bound(31, (31 - n) as nat);
        }
    }
}

/// The word lies between the powers of two its leading zeros say.
pub proof fn lemma_clz_range(x: int)
    requires
        x > 0,
    ensures
        clz(x) <= 31,
        pow2((31 - clz(x)) as nat) <= x < pow2((32 - clz(x)) as nat),
    decreases x,
{
    lemma2_to64();
    if x == 1 {
        assert(clz(0) == 32);
    } else {
        lemma_clz_range(x / 2);
        let n: int = clz(x / 2);
        lemma_pow2_unfold((32 - n) as nat);
        lemma_pow2_unfold((33 - n) as nat);
    }
}

} // verus!
