//! How close the fixed-point quotients come, and what prediction filters take
//! out.

use vstd::arithmetic::power2::{lemma2_to64, lemma_pow2_adds, lemma_pow2_pos, pow2};
use vstd::prelude::*;

use crate::silk::macros::{
    clz, lemma_clz_range, lemma_wrap_is_word, lshift, rshift, smlawb, smmul, smulwb, smulww, wrap,
};
use crate::silk::sigproc_fix::{
    chirp_power, div32_varq, expanded, fraction_q7, headroom, inverse32_varq, lemma_normalized,
    prediction, reciprocal, residual, sqrt_approx,
};

verus! {

pub(crate) proof fn lemma_headroom(b: int) -> (h: int)
    requires
        0 < b <= 0x7fff_ffff,
    ensures
        h == headroom(b),
        0 <= h <= 30,
        pow2((30 - h) as nat) <= b < pow2((31 - h) as nat),
        lshift(b, h as nat) == b * pow2(h as nat),
        0x4000_0000 <= b * pow2(h as nat) <= 0x7fff_ffff,
        pow2(h as nat) >= 1,
{
    lemma2_to64();
    lemma_clz_range(b);
    let h = headroom(b);
    if h < 0 {
        assert(pow2((31 - clz(b)) as nat) >= pow2(31)) by {
            if 31 - clz(b) > 31 {
                vstd::arithmetic::power2::lemma_pow2_strictly_increases(
                    31,
                    (31 - clz(b)) as nat,
                );
            }
        }
        assert(false);
    }
    lemma_normalized(b, h);
    lemma_pow2_pos(h as nat);
    h
}

/// An approximate reciprocal, and how far it is off.
proof fn lemma_reciprocal(n: int)
    requires
        0x4000_0000 <= n <= 0x7fff_ffff,
    ensures
        16384 <= reciprocal(n) <= 32767,
        -0x8001_0000 <= 0x2000_0000_0000 - n * reciprocal(n) <= 0x8001_0000,
{
    lemma2_to64();
    let top = n / 0x1_0000;
    let rest = n % 0x1_0000;
    let r = reciprocal(n);
    assert(rshift(n, 16) == top);
    assert(16384 <= top <= 32767);
    assert(r == 0x1fff_ffffint / top);
    let left = 0x1fff_ffffint % top;
    vstd::arithmetic::div_mod::lemma_fundamental_div_mod(0x1fff_ffff, top);
    assert(0 <= left < top) by (nonlinear_arith)
        requires
            left == 0x1fff_ffffint % top,
            top > 0,
    ;
    assert(16384 <= r <= 32767) by (nonlinear_arith)
        requires
            0x1fff_ffff == top * r + left,
            0 <= left < top,
            16384 <= top <= 32767,
    ;
    assert(n * r == 0x1_0000 * (top * r) + rest * r) by (nonlinear_arith)
        requires
            n == 0x1_0000 * top + rest,
    ;
    assert(0 <= rest * r <= 0x1_0000 * 32767) by (nonlinear_arith)
        requires
            0 <= rest < 0x1_0000,
            0 <= r <= 32767,
    ;
}

/// The reciprocal refined once.
proof fn lemma_refined(n: int) -> (r: int)
    requires
        0x4000_0000 <= n <= 0x7fff_ffff,
    ensures
        r == wrap(
            lshift(reciprocal(n), 16) + smulww(
                lshift(wrap(0x2000_0000 - smulwb(n, reciprocal(n))), 3),
                reciprocal(n),
            ),
        ),
        0 < r <= 0x7fff_ffff,
        -0x8_0000_0000 <= n * r - 0x2000_0000_0000_0000 <= 0x8_0000_0000,
{
    lemma2_to64();
    lemma_reciprocal(n);
    let v = reciprocal(n);
    let x = n * v;
    lemma_wrap_is_word(v);
    let low = x / 0x1_0000;
    assert(smulwb(n, v) == low);
    let d = 0x2000_0000 - low;
    assert(-0x8002 <= d <= 0x8002);
    lemma_wrap_is_word(d);
    lemma_wrap_is_word(d * 8);
    assert(lshift(d, 3) == d * 8);
    let dv = d * v;
    assert(-0x8002 * 32767 <= dv <= 0x8002 * 32767) by (nonlinear_arith)
        requires
            dv == d * v,
            -0x8002 <= d <= 0x8002,
            0 <= v <= 32767,
    ;
    assert((d * 8) * v == 8 * dv) by (nonlinear_arith)
        requires
            dv == d * v,
    ;
    let step = 8 * dv / 0x1_0000;
    lemma_wrap_is_word(step);
    assert(smulww(d * 8, v) == step);
    lemma_wrap_is_word(v * 0x1_0000);
    let r = v * 0x1_0000 + step;
    assert(v * 0x1_0000 + step <= 32767 * 0x1_0000 + 0x2_0010);
    // Both products, exactly.
    let e = 0x2000_0000_0000 - x;
    let over = 0x1_0000 * d - e;
    assert(0 <= over < 0x1_0000);
    let cut = 8 * dv - 0x1_0000 * step;
    assert(0 <= cut < 0x1_0000);
    assert(8 * (n * dv) == 0x1_0000 * (n * step) + n * cut) by (nonlinear_arith)
        requires
            cut == 8 * dv - 0x1_0000 * step,
    ;
    assert(n * dv == d * x) by (nonlinear_arith)
        requires
            dv == d * v,
            x == n * v,
    ;
    assert(n * r == 0x1_0000 * x + n * step) by (nonlinear_arith)
        requires
            r == v * 0x1_0000 + step,
            x == n * v,
    ;
    assert(0x1_0000 * (d * x) == e * x + over * x) by (nonlinear_arith)
        requires
            over == 0x1_0000 * d - e,
    ;
    assert(e * x == 0x2000_0000_0000 * e - e * e) by (nonlinear_arith)
        requires
            e == 0x2000_0000_0000 - x,
    ;
    assert(0 <= e * e <= 0x8001_0000 * 0x8001_0000) by (nonlinear_arith)
        requires
            -0x8001_0000 <= e <= 0x8001_0000,
    ;
    assert(0 <= over * x <= 0x1_0000 * 0x2000_8001_0000) by (nonlinear_arith)
        requires
            0 <= over < 0x1_0000,
            0 <= x <= 0x2000_8001_0000,
    ;
    assert(0 <= n * cut <= 0x1_0000 * 0x7fff_ffff) by (nonlinear_arith)
        requires
            0 <= cut < 0x1_0000,
            0 <= n <= 0x7fff_ffff,
    ;
    // 2^29 * n * r == 2^45 * x + 2^16 * d * x - 2^13 * n * cut.
    assert(0x2000_0000 * (n * r) == 0x2000_0000_0000 * x + 0x1_0000 * (d * x) - 0x2000 * (n * cut));
    assert(0x2000_0000 * (n * r) == 0x2000_0000_0000 * 0x2000_0000_0000 - e * e + over * x - 0x2000
        * (n * cut));
    assert(r > 0);
    if r > 0x7fff_ffff {
        assert(n * r >= 0x4000_0000 * 0x8000_0000) by (nonlinear_arith)
            requires
                n >= 0x4000_0000,
                r >= 0x8000_0000,
        ;
        lemma_not_over(n, v, d, x, r, step);
    }
    lemma_wrap_is_word(r);
    r
}

proof fn lemma_not_over(n: int, v: int, d: int, x: int, r: int, step: int)
    requires
        0x4000_0000 <= n <= 0x7fff_ffff,
        16384 <= v <= 32767,
        x == n * v,
        d == 0x2000_0000 - x / 0x1_0000,
        step == 8 * (d * v) / 0x1_0000,
        r == v * 0x1_0000 + step,
    ensures
        r <= 0x7fff_ffff,
{
    if v == 32767 {
        assert(n * v >= 0x4000_0000 * 32767) by (nonlinear_arith)
            requires
                n >= 0x4000_0000,
                v == 32767,
        ;
        assert(d <= 0x4000);
        assert(d * v <= 0x4000 * 32767) by (nonlinear_arith)
            requires
                d <= 0x4000,
                v == 32767,
        ;
    } else {
        assert(n * v >= 0x4000_0000 * v) by (nonlinear_arith)
            requires
                n >= 0x4000_0000,
                v >= 0,
        ;
        assert(d <= 0x2000_0000 - 0x4000 * v);
        assert(d * v <= (0x2000_0000 - 0x4000 * v) * v) by (nonlinear_arith)
            requires
                d <= 0x2000_0000 - 0x4000 * v,
                v >= 0,
        ;
        let w = 32768 - v;
        assert((0x2000_0000 - 0x4000 * v) * v == 0x4000 * (w * v)) by (nonlinear_arith)
            requires
                w == 32768 - v,
        ;
        assert(w * v <= 32768 * w) by (nonlinear_arith)
            requires
                w >= 0,
                v <= 32768,
        ;
        assert(8 * (d * v) <= 0x2_0000 * (32768 * w));
        assert(step <= 0x1_0000 * w);
        assert(w * v == 32768 * w - w * w && w * w >= 1) by (nonlinear_arith)
            requires
                w == 32768 - v,
                w >= 1,
        ;
        assert(8 * (d * v) <= 0x2_0000 * (32768 * w - 1));
        assert(step < 0x1_0000 * w);
    }
}

/// Where the result fits, the inverse is close: `b` times it is two to the `q`, to
/// within `b` and one part in two to the 26th.
pub proof fn law_the_inverse_is_close(b: int, q: int)
    requires
        0x1_0000 <= b <= 0x7fff_ffff,
        q == 46 || q == 47,
    ensures
        ({
            let one = pow2(q as nat) as int;
            let r = inverse32_varq(b, q);
            &&& -(b + one / 0x400_0000) <= b * r - one <= one / 0x400_0000
            &&& 0 <= r <= 0x7fff_ffff
        }),
{
    lemma2_to64();
    lemma_pow2_adds(32, 14);
    lemma_pow2_adds(32, 15);
    let h = lemma_headroom(b);
    let p: int = pow2(h as nat) as int;
    if h > 14 {
        assert(pow2((31 - h) as nat) <= pow2(16)) by {
            if 31 - h < 16 {
                vstd::arithmetic::power2::lemma_pow2_strictly_increases((31 - h) as nat, 16);
            }
        }
        assert(false);
    }
    let n = b * p;
    let r = lemma_refined(n);
    let s = 61 - h - q;
    assert(0 <= s <= 15);
    let t: int = pow2(s as nat) as int;
    lemma_pow2_pos(s as nat);
    let res = r / t;
    assert(inverse32_varq(b, q) == res);
    // t * p == 2^(61 - q).
    lemma_pow2_adds(s as nat, h as nat);
    let scale: int = pow2((61 - q) as nat) as int;
    assert(t * p == scale);
    assert(scale == 0x8000 || scale == 0x4000);
    let rest = r % t;
    vstd::arithmetic::div_mod::lemma_fundamental_div_mod(r, t);
    assert(0 <= rest < t) by (nonlinear_arith)
        requires
            rest == r % t,
            t > 0,
    ;
    assert(n * r == scale * (b * res) + n * rest) by (nonlinear_arith)
        requires
            r == t * res + rest,
            n == b * p,
            t * p == scale,
    ;
    assert(0 <= n * rest <= scale * b) by (nonlinear_arith)
        requires
            0 <= rest < t,
            n == b * p,
            t * p == scale,
            b > 0,
            p > 0,
    ;
    assert(0 <= res <= r) by (nonlinear_arith)
        requires
            r == t * res + rest,
            0 <= rest < t,
            t >= 1,
            r > 0,
    ;
    let one: int = pow2(q as nat) as int;
    if q == 46 {
        assert(one == 0x4000_0000_0000 && scale == 0x8000);
    } else {
        assert(one == 0x8000_0000_0000 && scale == 0x4000);
    }
    let y = b * res;
    assert(scale * y == 0x8000 * y || scale * y == 0x4000 * y);
    assert(scale * b == 0x8000 * b || scale * b == 0x4000 * b);
}

/// A quotient of normalized numbers, before it is scaled.
proof fn lemma_quotient(a: int, n: int) -> (r: int)
    requires
        0x4000_0000 <= a <= 0x7fff_ffff,
        0x4000_0000 <= n <= 0x7fff_ffff,
    ensures
        ({
            let v = reciprocal(n);
            let first = smulwb(a, v);
            let left = wrap(a - lshift(smmul(n, first), 3));
            r == smlawb(first, left, v)
        }),
        0 <= r <= 0x7fff_ffff,
        -0x4_0000_0000 <= n * r - 0x2000_0000 * a <= 0x4_0000_0000,
{
    lemma2_to64();
    lemma_reciprocal(n);
    let v = reciprocal(n);
    lemma_wrap_is_word(v);
    let x = n * v;
    let e = 0x2000_0000_0000 - x;
    let first = smulwb(a, v);
    assert(first == a * v / 0x1_0000);
    let r1 = a * v - 0x1_0000 * first;
    assert(0 <= r1 < 0x1_0000);
    let nf = n * first;
    let m = nf / 0x1_0000_0000;
    assert(smmul(n, first) == m);
    let r2 = nf - 0x1_0000_0000 * m;
    assert(0 <= r2 < 0x1_0000_0000);
    let l = a - 8 * m;
    // 2^16 * n * first == a * x - r1 * n.
    assert(0x1_0000 * nf == a * x - r1 * n) by (nonlinear_arith)
        requires
            nf == n * first,
            r1 == a * v - 0x1_0000 * first,
            x == n * v,
    ;
    assert(a * x == 0x2000_0000_0000 * a - a * e) by (nonlinear_arith)
        requires
            e == 0x2000_0000_0000 - x,
    ;
    assert(-0x8001_0000 * 0x7fff_ffff <= a * e <= 0x8001_0000 * 0x7fff_ffff) by (nonlinear_arith)
        requires
            0 <= a <= 0x7fff_ffff,
            -0x8001_0000 <= e <= 0x8001_0000,
    ;
    assert(0 <= r1 * n <= 0x1_0000 * 0x7fff_ffff) by (nonlinear_arith)
        requires
            0 <= r1 < 0x1_0000,
            0 <= n <= 0x7fff_ffff,
    ;
    assert(0x2000_0000 * l == 0x2000_0000 * a - nf + r2);
    // 2^45 * l == a * e + r1 * n + 2^16 * r2.
    assert(0x2000_0000_0000 * l == a * e + r1 * n + 0x1_0000 * r2);
    assert(-0x2_0010 <= l <= 0x2_0020);
    lemma_wraps_away(a, 8 * m);
    lemma_wrap_is_word(l);
    assert(wrap(a - lshift(m, 3)) == l);
    let lv = l * v;
    let step = lv / 0x1_0000;
    assert(smulwb(l, v) == step);
    let r3 = lv - 0x1_0000 * step;
    assert(0 <= r3 < 0x1_0000);
    let r = first + step;
    assert(a * v >= 0x4000_0000 * 16384 && a * v <= 0x7fff_ffff * 32767) by (nonlinear_arith)
        requires
            0x4000_0000 <= a <= 0x7fff_ffff,
            16384 <= v <= 32767,
    ;
    assert(-0x2_0010 * 32767 <= lv <= 0x2_0020 * 32767) by (nonlinear_arith)
        requires
            lv == l * v,
            -0x2_0010 <= l <= 0x2_0020,
            0 <= v <= 32767,
    ;
    lemma_wrap_is_word(r);
    // 2^16 * n * r == 2^16 * nf + l * x - r3 * n.
    assert(0x1_0000 * (n * r) == 0x1_0000 * nf + l * x - r3 * n) by (nonlinear_arith)
        requires
            r == first + step,
            nf == n * first,
            r3 == l * v - 0x1_0000 * step,
            x == n * v,
    ;
    assert(l * x == 0x2000_0000_0000 * l - l * e) by (nonlinear_arith)
        requires
            e == 0x2000_0000_0000 - x,
    ;
    assert(-0x8001_0000 * 0x2_0020 <= l * e <= 0x8001_0000 * 0x2_0020) by (nonlinear_arith)
        requires
            -0x2_0020 <= l <= 0x2_0020,
            -0x8001_0000 <= e <= 0x8001_0000,
    ;
    assert(0 <= r3 * n <= 0x1_0000 * 0x7fff_ffff) by (nonlinear_arith)
        requires
            0 <= r3 < 0x1_0000,
            0 <= n <= 0x7fff_ffff,
    ;
    assert(0x1_0000 * (n * r) == 0x2000_0000_0000 * a + 0x1_0000 * r2 - l * e - r3 * n);
    r
}

proof fn lemma_wraps_away(a: int, b: int)
    ensures
        wrap(a - wrap(b)) == wrap(a - b),
{
    let m = 0x1_0000_0000int;
    let q = (b - wrap(b)) / m;
    assert(b == wrap(b) + m * q);
    assert((a - wrap(b)) % m == (a - b) % m) by {
        vstd::arithmetic::div_mod::lemma_mod_multiples_vanish(q, a - b, m);
        assert(m * q + (a - b) == a - wrap(b));
    }
}

/// Where the result fits, a quotient is close: `b` times it is `a`, in Q16, to
/// within `b` and a 512th of `a`.
pub proof fn law_the_quotient_is_close(a: int, b: int)
    requires
        0 < a <= 0x7fff_ffff,
        0 < b <= 0x7fff_ffff,
        a <= b * 4096,
        b <= a * 131072,
    ensures
        ({
            let r = div32_varq(a, b, 16);
            &&& -(b + a / 512 + 1) <= b * r - 0x1_0000 * a <= a / 512 + 1
            &&& 0 <= r <= 0x7fff_ffff
        }),
{
    lemma2_to64();
    let ha = lemma_headroom(a);
    let hb = lemma_headroom(b);
    let pa: int = pow2(ha as nat) as int;
    let pb: int = pow2(hb as nat) as int;
    let an = a * pa;
    let bn = b * pb;
    let r = lemma_quotient(an, bn);
    let s = 13 + ha - hb;
    if s < 0 {
        lemma_pow2_adds((13 + ha) as nat, (hb - 13 - ha) as nat);
        lemma_pow2_adds(13, ha as nat);
        lemma_pow2_pos((hb - 14 - ha) as nat);
        lemma_pow2_adds(1, (hb - 14 - ha) as nat);
        let up: int = pow2((hb - 13 - ha) as nat) as int;
        assert(up >= 2);
        assert(pb == 8192 * pa * up) by (nonlinear_arith)
            requires
                pb == pow2((13 + ha) as nat) * up,
                pow2((13 + ha) as nat) == 8192 * pa,
        ;
        assert(b * pb >= 2 * (8192 * (b * pa))) by (nonlinear_arith)
            requires
                pb == 8192 * pa * up,
                up >= 2,
                b > 0,
                pa > 0,
        ;
        assert(a * pa <= 4096 * (b * pa)) by (nonlinear_arith)
            requires
                a <= b * 4096,
                pa > 0,
        ;
        assert(false);
    }
    if s >= 32 {
        lemma_pow2_adds((ha - hb - 19) as nat, (hb + 19) as nat);
        lemma_pow2_adds(19, hb as nat);
        lemma_pow2_pos((ha - hb - 19) as nat);
        let up: int = pow2((ha - hb - 19) as nat) as int;
        assert(pa == up * (524288 * pb));
        assert(a * pa >= 524288 * (a * pb)) by (nonlinear_arith)
            requires
                pa == up * (524288 * pb),
                up >= 1,
                a > 0,
                pb > 0,
        ;
        assert(b * pb <= 131072 * (a * pb)) by (nonlinear_arith)
            requires
                b <= a * 131072,
                pb > 0,
        ;
        assert(false);
    }
    let t: int = pow2(s as nat) as int;
    lemma_pow2_pos(s as nat);
    let res = r / t;
    assert(div32_varq(a, b, 16) == res);
    lemma_pow2_adds(s as nat, hb as nat);
    lemma_pow2_adds(13, ha as nat);
    assert(t * pb == 8192 * pa);
    let rest = r % t;
    vstd::arithmetic::div_mod::lemma_fundamental_div_mod(r, t);
    assert(0 <= rest < t) by (nonlinear_arith)
        requires
            rest == r % t,
            t > 0,
    ;
    let y = b * res;
    // bn * r == 2^13 * pa * (b * res) + bn * rest.
    assert(bn * r == 8192 * (pa * y) + bn * rest) by (nonlinear_arith)
        requires
            r == t * res + rest,
            bn == b * pb,
            t * pb == 8192 * pa,
            y == b * res,
    ;
    assert(0 <= bn * rest <= 8192 * (pa * b)) by (nonlinear_arith)
        requires
            0 <= rest < t,
            bn == b * pb,
            t * pb == 8192 * pa,
            b > 0,
            pb > 0,
    ;
    assert(0x2000_0000 * an == 8192 * (pa * (0x1_0000 * a))) by (nonlinear_arith)
        requires
            an == a * pa,
    ;
    let off = y - 0x1_0000 * a;
    assert(pa * off == pa * y - pa * (0x1_0000 * a)) by (nonlinear_arith)
        requires
            off == y - 0x1_0000 * a,
    ;
    assert(-0x20_0000 - pa * b <= pa * off <= 0x20_0000);
    // a * pa >= 2^30, so 2^21 is at most a 512th of it.
    assert(off <= a / 512 + 1 && off >= -(b + a / 512 + 1)) by (nonlinear_arith)
        requires
            -0x20_0000 - pa * b <= pa * off <= 0x20_0000,
            a * pa >= 0x4000_0000,
            pa >= 1,
            a > 0,
    ;
    assert(0 <= res <= r) by (nonlinear_arith)
        requires
            r == t * res + rest,
            0 <= rest < t,
            t >= 1,
            r >= 0,
    ;
}

// ---------------------------------------------------------------------------
// Square root
// ---------------------------------------------------------------------------
proof fn lemma_root_shape(base: int, t: int, f: int, x: int, y: int)
    requires
        256 <= base,
        126 * t <= base * base <= 128 * t,
        0 <= f <= 127,
        t > 0,
        t * (128 + f) <= x < t * (129 + f),
        y == base + base * (213 * f) / 0x1_0000,
    ensures
        9 * x <= 10 * (y * y),
        20 * (y * y) <= 21 * x,
{
    let g = 0x1_0000 + 213 * f;
    let z = base * g;
    let bb = base * base;
    assert(z == 0x1_0000 * base + base * (213 * f)) by (nonlinear_arith)
        requires
            z == base * g,
            g == 0x1_0000 + 213 * f,
    ;
    assert(z - 0x1_0000 < 0x1_0000 * y <= z);
    assert(z >= 256 * 0x1_0000) by (nonlinear_arith)
        requires
            z == base * g,
            base >= 256,
            g >= 0x1_0000,
    ;
    assert(0x100_0000 * y >= 255 * z);
    let yy = y * y;
    let zz = z * z;
    assert(0x1_0000_0000 * yy <= zz) by (nonlinear_arith)
        requires
            0 <= 0x1_0000 * y <= z,
            yy == y * y,
            zz == z * z,
    ;
    assert(0x1_0000_0000_0000 * yy >= 65025 * zz) by (nonlinear_arith)
        requires
            0x100_0000 * y >= 255 * z,
            z >= 0,
            yy == y * y,
            zz == z * z,
    ;
    let gg = g * g;
    assert(zz == bb * gg) by (nonlinear_arith)
        requires
            z == base * g,
            zz == z * z,
            bb == base * base,
            gg == g * g,
    ;
    assert(126 * (t * gg) <= bb * gg <= 128 * (t * gg)) by (nonlinear_arith)
        requires
            126 * t <= bb <= 128 * t,
            gg == g * g,
    ;
    // A line under and over the square of a line.
    assert(10 * (65025 * 126) * gg >= 9 * 0x1_0000_0000_0000 * (129 + f)) by (nonlinear_arith)
        requires
            gg == g * g,
            g == 0x1_0000 + 213 * f,
            0 <= f <= 127,
    ;
    assert(20 * 128 * gg <= 21 * 0x1_0000_0000 * (128 + f)) by (nonlinear_arith)
        requires
            gg == g * g,
            g == 0x1_0000 + 213 * f,
            0 <= f <= 127,
    ;
    let tg = t * gg;
    let over = t * (129 + f);
    let under = t * (128 + f);
    assert(10 * (65025 * 126) * tg >= 9 * 0x1_0000_0000_0000 * over) by (nonlinear_arith)
        requires
            10 * (65025 * 126) * gg >= 9 * 0x1_0000_0000_0000 * (129 + f),
            tg == t * gg,
            over == t * (129 + f),
            t > 0,
    ;
    assert(20 * 128 * tg <= 21 * 0x1_0000_0000 * under) by (nonlinear_arith)
        requires
            20 * 128 * gg <= 21 * 0x1_0000_0000 * (128 + f),
            tg == t * gg,
            under == t * (128 + f),
            t > 0,
    ;
    assert(126 * tg <= zz <= 128 * tg);
    lemma_root_ends(yy, zz, tg, over, under);
}

proof fn lemma_root_ends(yy: int, zz: int, tg: int, over: int, under: int)
    requires
        0x1_0000_0000 * yy <= zz,
        0x1_0000_0000_0000 * yy >= 65025 * zz,
        126 * tg <= zz <= 128 * tg,
        10 * (65025 * 126) * tg >= 9 * 0x1_0000_0000_0000 * over,
        20 * 128 * tg <= 21 * 0x1_0000_0000 * under,
    ensures
        10 * yy >= 9 * over,
        20 * yy <= 21 * under,
{
    let a = 0x1_0000_0000_0000 * yy;
    assert(10 * a >= 650250 * zz);
    assert(650250 * zz >= 81931500 * tg);
    assert(81931500 * tg >= 0x9_0000_0000_0000 * over);
    assert(10 * a >= 0x9_0000_0000_0000 * over);
    let b = 0x1_0000_0000 * yy;
    assert(20 * b <= 20 * zz);
    assert(20 * zz <= 2560 * tg);
    assert(20 * b <= 0x15_0000_0000 * under);
}

/// An approximate square root is close: its square is within a tenth below and a
/// twentieth above.
#[verifier::spinoff_prover]
#[verifier::rlimit(60)]
pub proof fn law_the_root_is_close(x: int)
    requires
        0x1_0000 <= x <= 0x7fff_ffff,
    ensures
        ({
            let y = sqrt_approx(x);
            9 * x <= 10 * (y * y) && 20 * (y * y) <= 21 * x
        }),
{
    lemma2_to64();
    let h = lemma_headroom(x);
    let c = h + 1;
    assert(c == clz(x));
    if c > 15 {
        assert(pow2((32 - c) as nat) <= pow2(16)) by {
            if 32 - c < 16 {
                vstd::arithmetic::power2::lemma_pow2_strictly_increases((32 - c) as nat, 16);
            }
        }
        assert(false);
    }
    let p: int = pow2((c / 2) as nat) as int;
    let t: int = pow2((24 - c) as nat) as int;
    let top: int = if c % 2 == 1 {
        32768
    } else {
        46214
    };
    let base = top / p;
    lemma_pow2_pos((24 - c) as nat);
    lemma_pow2_adds(7, (24 - c) as nat);
    lemma_pow2_adds(8, (24 - c) as nat);
    let m = x / t;
    let f = m % 128;
    vstd::arithmetic::div_mod::lemma_fundamental_div_mod(x, t);
    let rest = x % t;
    assert(128 * t <= x < 256 * t);
    assert(128 <= m < 256 && t * m <= x < t * m + t) by (nonlinear_arith)
        requires
            x == t * m + rest,
            rest == x % t,
            128 * t <= x < 256 * t,
            t > 0,
    ;
    assert(f == m - 128 && f == fraction_q7(x));
    assert(t * (129 + f) == t * m + t && t * (128 + f) == t * m) by (nonlinear_arith)
        requires
            f == m - 128,
    ;
    lemma_wrap_is_word(213);
    lemma_wrap_is_word(f);
    lemma_wrap_is_word(213 * f);
    if c == 1 {
        assert((c / 2) as nat == 0 && pow2(0) == 1 && (24 - c) as nat == 23 && pow2(23) == 8388608);
        assert(base == 32768int / 1 && t == 8388608);
    } else if c == 2 {
        assert((c / 2) as nat == 1 && pow2(1) == 2 && (24 - c) as nat == 22 && pow2(22) == 4194304);
        assert(base == 46214int / 2 && t == 4194304);
    } else if c == 3 {
        assert((c / 2) as nat == 1 && pow2(1) == 2 && (24 - c) as nat == 21 && pow2(21) == 2097152);
        assert(base == 32768int / 2 && t == 2097152);
    } else if c == 4 {
        assert((c / 2) as nat == 2 && pow2(2) == 4 && (24 - c) as nat == 20 && pow2(20) == 1048576);
        assert(base == 46214int / 4 && t == 1048576);
    } else if c == 5 {
        assert((c / 2) as nat == 2 && pow2(2) == 4 && (24 - c) as nat == 19 && pow2(19) == 524288);
        assert(base == 32768int / 4 && t == 524288);
    } else if c == 6 {
        assert((c / 2) as nat == 3 && pow2(3) == 8 && (24 - c) as nat == 18 && pow2(18) == 262144);
        assert(base == 46214int / 8 && t == 262144);
    } else if c == 7 {
        assert((c / 2) as nat == 3 && pow2(3) == 8 && (24 - c) as nat == 17 && pow2(17) == 131072);
        assert(base == 32768int / 8 && t == 131072);
    } else if c == 8 {
        assert((c / 2) as nat == 4 && pow2(4) == 16 && (24 - c) as nat == 16 && pow2(16) == 65536);
        assert(base == 46214int / 16 && t == 65536);
    } else if c == 9 {
        assert((c / 2) as nat == 4 && pow2(4) == 16 && (24 - c) as nat == 15 && pow2(15) == 32768);
        assert(base == 32768int / 16 && t == 32768);
    } else if c == 10 {
        assert((c / 2) as nat == 5 && pow2(5) == 32 && (24 - c) as nat == 14 && pow2(14) == 16384);
        assert(base == 46214int / 32 && t == 16384);
    } else if c == 11 {
        assert((c / 2) as nat == 5 && pow2(5) == 32 && (24 - c) as nat == 13 && pow2(13) == 8192);
        assert(base == 32768int / 32 && t == 8192);
    } else if c == 12 {
        assert((c / 2) as nat == 6 && pow2(6) == 64 && (24 - c) as nat == 12 && pow2(12) == 4096);
        assert(base == 46214int / 64 && t == 4096);
    } else if c == 13 {
        assert((c / 2) as nat == 6 && pow2(6) == 64 && (24 - c) as nat == 11 && pow2(11) == 2048);
        assert(base == 32768int / 64 && t == 2048);
    } else if c == 14 {
        assert((c / 2) as nat == 7 && pow2(7) == 128 && (24 - c) as nat == 10 && pow2(10) == 1024);
        assert(base == 46214int / 128 && t == 1024);
    } else if c == 15 {
        assert((c / 2) as nat == 7 && pow2(7) == 128 && (24 - c) as nat == 9 && pow2(9) == 512);
        assert(base == 32768int / 128 && t == 512);
    }
    assert(256 <= base <= 46214 && 126 * t <= base * base <= 128 * t);
    let w = base * (213 * f);
    assert(0 <= w <= 46214 * 27051) by (nonlinear_arith)
        requires
            w == base * (213 * f),
            0 <= base <= 46214,
            0 <= f <= 127,
    ;
    lemma_wrap_is_word(base + w / 0x1_0000);
    lemma_root_shape(base, t, f, x, base + w / 0x1_0000);
}

// ---------------------------------------------------------------------------
// Prediction filters
// ---------------------------------------------------------------------------
/// The sum of the last `n` samples in front of `i`, each by its weight.
pub open spec fn weighted_output(x: Seq<i16>, i: int, b: Seq<i16>, n: int) -> int
    decreases n,
{
    if n <= 0 {
        0
    } else {
        weighted_output(x, i, b, n - 1) + b[n - 1] * x[i - n]
    }
}

/// Whether `r` is sample `i` less its prediction, weights in Q12, rounded to the
/// nearest, as far as 16 bits reach.
pub open spec fn is_residual(x: Seq<i16>, i: int, b: Seq<i16>, order: int, r: int) -> bool {
    let w = 4096 * x[i] - weighted_output(x, i, b, order);
    -4096 * 32767 <= w <= 4096 * 32767 ==> -2048 <= 4096 * r - w <= 2048
}

proof fn lemma_prediction_is_the_sum(x: Seq<i16>, b: Seq<i16>, i: int, n: int)
    ensures
        prediction(x, b, i, n) == weighted_output(x, i, b, n),
    decreases n,
{
    if n > 0 {
        lemma_prediction_is_the_sum(x, b, i, n - 1);
        let p: int = x[i - n] as int;
        let q: int = b[n - 1] as int;
        assert(p * q == q * p) by (nonlinear_arith);
    }
}

pub(crate) proof fn lemma_weights_alike(x: Seq<i16>, i: int, z: Seq<i16>, k: int, b: Seq<i16>, n: int)
    requires
        0 <= n <= i < x.len(),
        x[i] == z[k],
        forall|j: int| 1 <= j <= n ==> #[trigger] x[i - j] == z[k - j],
    ensures
        weighted_output(x, i, b, n) == weighted_output(z, k, b, n),
    decreases n,
{
    if n > 0 {
        lemma_weights_alike(x, i, z, k, b, n - 1);
        assert(x[i - n] == z[k - n]);
    }
}

/// The analysis filter leaves what prediction does not explain.
pub proof fn law_the_residual_is_what_prediction_leaves(
    x: Seq<i16>,
    b: Seq<i16>,
    i: int,
    order: int,
)
    requires
        0 <= order <= i,
    ensures
        is_residual(x, i, b, order, residual(x, b, i, order)),
        -32768 <= residual(x, b, i, order) <= 32767,
{
    lemma2_to64();
    lemma_prediction_is_the_sum(x, b, i, order);
    lemma_wrap_is_word(x[i] * 4096 - prediction(x, b, i, order));
}

/// A weight with its bandwidth expanded by 0.99 keeps its sign and loses at most
/// a sixth.
pub proof fn law_expansion_draws_weights_in(a: Seq<i16>, i: int)
    requires
        0 <= i < 16,
    ensures
        ({
            let w: int = a[i] as int;
            let e = expanded(a, 64881, i);
            &&& w >= 0 ==> 5 * w - 6 <= 6 * e && e <= w
            &&& w <= 0 ==> w <= e && 6 * e <= 5 * w + 6
        }),
{
    lemma2_to64();
    lemma_chirps(i);
    let c = chirp_power(64881, i);
    let w: int = a[i] as int;
    assert((w >= 0 ==> 54613 * w <= c * w <= 65536 * w) && (w <= 0 ==> 65536 * w <= c * w <= 54613
        * w)) by (nonlinear_arith)
        requires
            54613 <= c <= 65536,
    ;
}

proof fn lemma_chirps(i: int)
    requires
        0 <= i < 16,
    ensures
        54613 <= chirp_power(64881, i) <= 64881,
        64881 - 655 * i <= chirp_power(64881, i),
    decreases i,
{
    lemma2_to64();
    if i > 0 {
        lemma_chirps(i - 1);
        let c = chirp_power(64881, i - 1);
        assert(c * (64881 - 0x1_0000) == -655 * c);
    }
}

} // verus!
