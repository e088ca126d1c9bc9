//! Short-term synthesis: putting back what linear prediction took out.

use vstd::prelude::*;

use crate::silk::macros::{
    lshift_sat32, rand_next, rshift_round, sat16, sat32, silk_add_sat32, silk_lshift_sat32,
    silk_rshift_round, silk_sat16, silk_smlawb, silk_smulww, smlawb, smulww,
};

verus! {

/// The prediction of sample `o` from the `n` before it, coefficients in Q12 and
/// the sum in Q10. It starts at half the order, which evens out the rounding.
pub open spec fn short_term(buf: Seq<i32>, o: int, a: Seq<i16>, order: int, n: int) -> int
    decreases n,
{
    if n <= 0 {
        order / 2
    } else {
        smlawb(short_term(buf, o, a, order, n - 1), buf[o - n] as int, a[n - 1] as int)
    }
}

/// Sample `o` with its prediction put back, Q14.
pub open spec fn synthesized(buf: Seq<i32>, o: int, a: Seq<i16>, order: int) -> int {
    sat32(buf[o] + lshift_sat32(short_term(buf, o, a, order, order), 4))
}

/// `buf` with the prediction put back in the `n` samples from `base` on.
pub open spec fn synthesis(buf: Seq<i32>, base: int, a: Seq<i16>, order: int, n: int) -> Seq<i32>
    decreases n,
{
    if n <= 0 {
        buf
    } else {
        let b = synthesis(buf, base, a, order, n - 1);
        b.update(base + n - 1, synthesized(b, base + n - 1, a, order) as i32)
    }
}

/// A synthesized sample scaled to 16 bits.
pub open spec fn scaled_sample(x: int, gain_q10: int) -> int {
    sat16(rshift_round(smulww(x, gain_q10), 8))
}

/// See [`scaled_sample`].
pub fn scale_sample(x: i32, gain_q10: i32) -> (r: i16)
    ensures
        r == scaled_sample(x as int, gain_q10 as int),
{
    silk_sat16(silk_rshift_round(silk_smulww(x, gain_q10), 8))
}

fn predict(buf: &Vec<i32>, o: usize, a: &[i16], order: usize) -> (r: i32)
    requires
        order <= o < buf@.len(),
        order <= a@.len(),
        order <= 16,
    ensures
        r == short_term(buf@, o as int, a@, order as int, order as int),
{
    let mut r: i32 = (order / 2) as i32;
    let mut j: usize = 0;
    while j < order
        invariant
            j <= order <= 16,
            order <= o < buf@.len(),
            order <= a@.len(),
            r == short_term(buf@, o as int, a@, order as int, j as int),
        decreases order - j,
    {
        r = silk_smlawb(r, buf[o - 1 - j], a[j] as i32);
        j += 1;
    }
    r
}

/// See [`synthesis`].
pub fn lpc_synthesis(buf: &mut Vec<i32>, base: usize, a: &[i16], order: usize, n: usize)
    requires
        order <= base,
        base + n <= old(buf)@.len(),
        order <= a@.len(),
        order <= 16,
    ensures
        final(buf)@ == synthesis(old(buf)@, base as int, a@, order as int, n as int),
        final(buf)@.len() == old(buf)@.len(),
{
    let ghost before = buf@;
    let len: usize = buf.len();
    let mut i: usize = 0;
    while i < n
        invariant
            i <= n,
            order <= base,
            base + n <= len == buf@.len(),
            len == before.len(),
            order <= a@.len(),
            order <= 16,
            buf@ == synthesis(before, base as int, a@, order as int, i as int),
        decreases n - i,
    {
        let o: usize = base + i;
        let p: i32 = predict(buf, o, a, order);
        let v: i32 = silk_add_sat32(buf[o], silk_lshift_sat32(p, 4));
        buf.set(o, v);
        i += 1;
    }
}

/// What synthesis leaves alone.
pub proof fn lemma_synthesis_elsewhere(
    buf: Seq<i32>,
    base: int,
    a: Seq<i16>,
    order: int,
    n: int,
    i: int,
)
    requires
        0 <= i < buf.len(),
        i < base || i >= base + n,
        0 <= base,
        base + n <= buf.len(),
    ensures
        synthesis(buf, base, a, order, n).len() == buf.len(),
        synthesis(buf, base, a, order, n)[i] == buf[i],
    decreases n,
{
    if n > 0 {
        lemma_synthesis_elsewhere(buf, base, a, order, n - 1, i);
    }
}

/// The state of the random generator after `n` steps.
pub open spec fn random_state(seed: int, n: int) -> int
    decreases n,
{
    if n <= 0 {
        seed
    } else {
        rand_next(random_state(seed, n - 1))
    }
}

} // verus!
