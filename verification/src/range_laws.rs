//! What a range decoder reads is what the encoder wrote.
//!
//! Seen as one long number, the code a finished encoder leaves lies in every
//! interval that the symbols narrowed it to. A decoder keeps the distance of the
//! code from the end of the interval, so it sees each symbol's part of it.

use vstd::arithmetic::div_mod::{
    lemma_div_denominator, lemma_mod_breakdown, lemma_mod_mod, lemma_mod_multiples_vanish,
    lemma_small_mod,
};
use vstd::arithmetic::power2::{
    lemma2_to64, lemma_pow2_adds, lemma_pow2_pos, lemma_pow2_strictly_increases,
    lemma_pow2_unfold, pow2,
};
use vstd::prelude::*;

use crate::range_coder::{
    add_bits, after_icdf, after_raw, after_uint, after_uniform, back_byte, bit_length, carry_out,
    decoder_start, encoder_start, ends_at, falls_at, finished, flush_raw, free_bits, front_byte,
    icdf_symbol, lemma_bit_length, lemma_round_up, narrowed, narrowed_out, put_back, put_code,
    put_front, put_waiting, raw_value, refill, refill_raw, round_up, settle, settle_out, settle_raw,
    shift_out, spare_bits, symbol_from, symbols_written, uint_raw_bits, uint_top, uint_value,
    uniform_symbol, with_icdf, with_raw, with_raw_bits, with_uint, writable, CoderView,
};

verus! {

// ---------------------------------------------------------------------------
// Numbers made of bytes
// ---------------------------------------------------------------------------
/// The powers of 256.
pub open spec fn p256(n: nat) -> int
    decreases n,
{
    if n == 0 {
        1
    } else {
        256 * p256((n - 1) as nat)
    }
}

/// A byte of a buffer of which `storage` are in use; zeros follow.
pub open spec fn byte_at(buf: Seq<u8>, storage: int, i: int) -> int {
    if 0 <= i < storage {
        buf[i] as int
    } else {
        0
    }
}

/// The first `n` bytes as one number.
pub open spec fn lead_value(buf: Seq<u8>, storage: int, n: nat) -> int
    decreases n,
{
    if n == 0 {
        0
    } else {
        256 * lead_value(buf, storage, (n - 1) as nat) + byte_at(buf, storage, n - 1)
    }
}

proof fn lemma_p256_is_positive(n: nat)
    ensures
        p256(n) >= 1,
    decreases n,
{
    if n > 0 {
        lemma_p256_is_positive((n - 1) as nat);
    }
}

proof fn lemma_lead_agrees(a: Seq<u8>, b: Seq<u8>, storage: int, n: nat)
    requires
        forall|i: int| 0 <= i < n && i < storage ==> #[trigger] a[i] == b[i],
    ensures
        lead_value(a, storage, n) == lead_value(b, storage, n),
    decreases n,
{
    if n > 0 {
        lemma_lead_agrees(a, b, storage, (n - 1) as nat);
        if n - 1 < storage {
            assert(a[n - 1] == b[n - 1]);
        }
    }
}

// ---------------------------------------------------------------------------
// What an encoder has written
// ---------------------------------------------------------------------------
/// The bytes in the buffer, as one number.
pub open spec fn stored(c: CoderView) -> int {
    lead_value(c.buf, c.storage, c.offs as nat)
}

/// The bytes in the buffer and the one that waits.
pub open spec fn stored_and_waiting(c: CoderView) -> int {
    if c.rem >= 0 {
        256 * stored(c) + c.rem
    } else {
        stored(c)
    }
}

/// All the bytes that have left the interval, those of 255 that wait with them.
pub open spec fn emitted(c: CoderView) -> int {
    (stored_and_waiting(c) + 1) * p256(c.ext as nat) - 1
}

/// How many they are.
pub open spec fn emitted_count(c: CoderView) -> int {
    c.offs + (if c.rem >= 0 {
        1int
    } else {
        0
    }) + c.ext
}

/// Where the interval begins, as one long number.
pub open spec fn low(c: CoderView) -> int {
    emitted(c) * 0x8000_0000 + c.val
}

/// What holds of an encoder that has run out of no room, in the middle of a
/// symbol too.
pub open spec fn sound(c: CoderView) -> bool {
    &&& writable(c)
    &&& !c.error
    &&& 0 < c.rng <= 0x8000_0000
    &&& 0 <= c.val
    &&& c.val + c.rng <= u32::MAX
    &&& c.rem == -1 ==> c.offs == 0
    &&& c.val + c.rng > 0x8000_0000 ==> c.rem != 255
    &&& low(c) + c.rng <= p256(emitted_count(c) as nat) * 0x8000_0000
}

proof fn lemma_put_front_value(c: CoderView, b: int)
    requires
        writable(c),
        0 <= b <= 255,
        !put_front(c, b).error,
    ensures
        stored(put_front(c, b)) == 256 * stored(c) + b,
        put_front(c, b).offs == c.offs + 1,
        !c.error,
{
    let d = put_front(c, b);
    lemma_lead_agrees(d.buf, c.buf, c.storage, c.offs as nat);
    assert(d.buf[c.offs] == b as u8);
}

proof fn lemma_put_waiting_error(c: CoderView, carry: int)
    requires
        c.error,
    ensures
        put_waiting(c, carry).error,
    decreases c.ext,
{
    if c.ext > 0 {
        let d = put_front(c, (255 + carry) % 256);
        lemma_put_waiting_error(CoderView { ext: c.ext - 1, ..d }, carry);
    }
}

/// The waiting bytes go out as 255, or as 0 where a carry reaches them.
proof fn lemma_put_waiting_value(c: CoderView, carry: int)
    requires
        writable(c),
        carry == 0 || carry == 1,
        !put_waiting(c, carry).error,
    ensures
        ({
            let d = put_waiting(c, carry);
            &&& stored(d) + 1 - carry == (stored(c) + 1 - carry) * p256(c.ext as nat)
            &&& d.offs == c.offs + c.ext
            &&& writable(d)
            &&& !c.error
        }),
    decreases c.ext,
{
    if c.ext > 0 {
        let b = (255 + carry) % 256;
        let f = put_front(c, b);
        let e = CoderView { ext: c.ext - 1, ..f };
        if f.error {
            lemma_put_waiting_error(e, carry);
        }
        lemma_put_front_value(c, b);
        assert(stored(e) == stored(f));
        lemma_put_waiting_value(e, carry);
        let x = stored(c) + 1 - carry;
        let p = p256((c.ext - 1) as nat);
        assert(stored(e) + 1 - carry == 256 * x);
        assert((256 * x) * p == x * (256 * p)) by (nonlinear_arith);
    } else {
        assert((stored(c) + 1 - carry) * 1 == stored(c) + 1 - carry) by (nonlinear_arith);
    }
}

/// One more byte of the code, carry included, joins what was written.
proof fn lemma_carry_out_value(c: CoderView, sym: int)
    requires
        writable(c),
        0 <= sym <= 511,
        c.ext < u32::MAX,
        c.rem == -1 ==> c.offs == 0 && sym <= 255,
        sym >= 256 ==> c.rem != 255,
        !carry_out(c, sym).error,
    ensures
        ({
            let d = carry_out(c, sym);
            &&& writable(d)
            &&& !c.error
            &&& emitted(d) == 256 * emitted(c) + sym
            &&& emitted_count(d) == emitted_count(c) + 1
            &&& d.rem == -1 ==> d.offs == 0
            &&& d.rem == 255 ==> c.rem == 255 || sym == 511
            &&& d.val == c.val && d.rng == c.rng
            &&& d.ext <= c.ext + 1
            &&& d.storage == c.storage && d.end_offs == c.end_offs
            &&& d.end_window == c.end_window && d.nend_bits == c.nend_bits
            &&& d.buf.len() == c.buf.len()
            &&& sym <= 254 ==> stored(d) == emitted(c) && d.offs == emitted_count(c)
        }),
{
    let d = carry_out(c, sym);
    let x = stored_and_waiting(c);
    let p = p256(c.ext as nat);
    if sym == 255 {
        assert(d.ext == c.ext + 1);
        assert(stored_and_waiting(d) == x);
        assert((x + 1) * (256 * p) - 1 == 256 * ((x + 1) * p - 1) + 255) by (nonlinear_arith);
    } else {
        let carry = sym / 256;
        let f = if c.rem >= 0 {
            put_front(c, (c.rem + carry) % 256)
        } else {
            c
        };
        let w = put_waiting(f, carry);
        assert(!w.error);
        if f.error {
            lemma_put_waiting_error(f, carry);
        }
        if c.rem >= 0 {
            lemma_put_front_value(c, (c.rem + carry) % 256);
            assert(stored(f) == x + carry);
        }
        lemma_put_waiting_value(f, carry);
        assert(stored(d) == stored(w));
        assert(f.ext == c.ext);
        if carry == 0 {
            assert(stored(d) + 1 == (x + 1) * p);
        } else {
            assert(stored(d) == (x + 1) * p);
        }
        assert(p256(0) == 1);
        lemma_waiting_is_empty(f, carry);
        assert(emitted(d) == (256 * stored(d) + d.rem + 1) * 1 - 1);
    }
}

proof fn lemma_waiting_is_empty(c: CoderView, carry: int)
    requires
        writable(c),
    ensures
        put_waiting(c, carry).ext == 0,
        put_waiting(c, carry).val == c.val,
        put_waiting(c, carry).rng == c.rng,
        put_waiting(c, carry).storage == c.storage,
        put_waiting(c, carry).end_offs == c.end_offs,
        put_waiting(c, carry).end_window == c.end_window,
        put_waiting(c, carry).nend_bits == c.nend_bits,
        put_waiting(c, carry).buf.len() == c.buf.len(),
    decreases c.ext,
{
    if c.ext > 0 {
        let d = put_front(c, (255 + carry) % 256);
        lemma_waiting_is_empty(CoderView { ext: c.ext - 1, ..d }, carry);
    }
}

proof fn lemma_carry_out_error(c: CoderView, sym: int)
    requires
        c.error,
    ensures
        carry_out(c, sym).error,
{
    if sym != 255 {
        let carry = sym / 256;
        let d = if c.rem >= 0 {
            put_front(c, (c.rem + carry) % 256)
        } else {
            c
        };
        lemma_put_waiting_error(d, carry);
    }
}

/// Moving a byte out of the interval changes nothing but the scale.
proof fn lemma_shift_out(c: CoderView)
    requires
        sound(c),
        c.rng <= 0x80_0000,
        c.ext < u32::MAX,
        !shift_out(c).error,
    ensures
        ({
            let d = shift_out(c);
            &&& sound(d)
            &&& low(d) == 256 * low(c)
            &&& d.rng == 256 * c.rng
            &&& emitted_count(d) == emitted_count(c) + 1
            &&& d.ext <= c.ext + 1
            &&& d.storage == c.storage && d.end_offs == c.end_offs
            &&& d.buf.len() == c.buf.len()
        }),
{
    let sym = c.val / 0x80_0000;
    let n = emitted_count(c) as nat;
    let e = emitted(c);
    lemma_p256_is_positive(n);
    lemma_p256_is_positive(c.ext as nat);
    if c.rem == -1 {
        assert(stored(c) == 0);
        let p = p256(c.ext as nat);
        assert((0 + 1) * p == p) by (nonlinear_arith);
        assert(e + 1 == p);
        assert(n == c.ext);
    }
    lemma_carry_out_value(c, sym);
    let d = shift_out(c);
    let k = carry_out(c, sym);
    assert(d.rem == k.rem && d.offs == k.offs && d.ext == k.ext && d.buf == k.buf);
    assert(stored(d) == stored(k));
    assert(emitted(d) == emitted(k));
    assert(p256(n + 1) == 256 * p256(n));
    assert((256 * e + sym) * 0x8000_0000 + (c.val * 256) % 0x8000_0000 == 256 * (e * 0x8000_0000
        + c.val));
}

/// How many bytes leave an interval until it is large enough for a symbol.
pub open spec fn shifts(rng: int) -> nat
    decreases 0x8000_0001 - rng,
{
    if rng <= 0 || rng > 0x80_0000 {
        0
    } else {
        1 + shifts(rng * 256)
    }
}

proof fn lemma_few_shifts(rng: int)
    ensures
        shifts(rng) <= 3,
{
    reveal_with_fuel(shifts, 4);
}

proof fn lemma_settle_out_error(c: CoderView)
    requires
        c.error,
    ensures
        settle_out(c).error,
    decreases 0x8000_0001 - c.rng,
{
    if 0 < c.rng <= 0x80_0000 {
        lemma_carry_out_error(c, c.val / 0x80_0000);
        lemma_settle_out_error(shift_out(c));
    }
}

/// Settling changes nothing but the scale.
proof fn lemma_settle_out_value(c: CoderView)
    requires
        sound(c),
        c.ext + shifts(c.rng) <= u32::MAX,
        !settle_out(c).error,
    ensures
        ({
            let d = settle_out(c);
            let k = shifts(c.rng);
            &&& sound(d)
            &&& d.rng > 0x80_0000
            &&& low(d) == p256(k) * low(c)
            &&& d.rng == p256(k) * c.rng
            &&& emitted_count(d) == emitted_count(c) + k
            &&& d.ext <= c.ext + k
            &&& d.storage == c.storage && d.end_offs == c.end_offs
            &&& d.buf.len() == c.buf.len()
        }),
    decreases 0x8000_0001 - c.rng,
{
    if c.rng <= 0x80_0000 {
        let e = shift_out(c);
        if e.error {
            lemma_settle_out_error(e);
        }
        lemma_shift_out(c);
        lemma_settle_out_value(e);
        let p = p256(shifts(e.rng));
        let l = low(c);
        let r = c.rng;
        assert(p * (256 * l) == (256 * p) * l && p * (256 * r) == (256 * p) * r) by (
        nonlinear_arith);
    } else {
        let l = low(c);
        let r = c.rng;
        assert(1 * l == l && 1 * r == r) by (nonlinear_arith);
    }
}

/// The encoder in the middle of a symbol: the interval narrowed, and not settled.
pub open spec fn cut(c: CoderView, lo: int, hi: int) -> CoderView {
    CoderView { val: c.val + c.rng - hi, rng: hi - lo, ..c }
}

proof fn lemma_cut(c: CoderView, lo: int, hi: int)
    requires
        sound(c),
        0 <= lo < hi <= c.rng,
    ensures
        sound(cut(c, lo, hi)),
        low(cut(c, lo, hi)) == low(c) + c.rng - hi,
        emitted_count(cut(c, lo, hi)) == emitted_count(c),
{
    let d = cut(c, lo, hi);
    assert(stored(d) == stored(c));
    assert(emitted(d) == emitted(c));
}

// ---------------------------------------------------------------------------
// The code, and where it lies
// ---------------------------------------------------------------------------
/// What a decoder has seen of a buffer once `n` bytes have left the interval: the
/// first `8 * n + 31` bits, as one number.
pub open spec fn code(buf: Seq<u8>, storage: int, n: nat) -> int {
    lead_value(buf, storage, n + 4) / 2
}

/// What one more byte adds to that.
pub open spec fn code_step(buf: Seq<u8>, storage: int, n: nat) -> int {
    (byte_at(buf, storage, n as int + 3) * 256 + byte_at(buf, storage, n as int + 4)) / 2 % 256
}

proof fn lemma_code_step(buf: Seq<u8>, storage: int, n: nat)
    requires
        storage <= buf.len(),
    ensures
        code(buf, storage, n + 1) == 256 * code(buf, storage, n) + code_step(buf, storage, n),
        0 <= code_step(buf, storage, n) <= 255,
{
    let x = lead_value(buf, storage, n + 4);
    let y = lead_value(buf, storage, n + 3);
    let a = byte_at(buf, storage, n as int + 3);
    let b = byte_at(buf, storage, n as int + 4);
    assert(x == 256 * y + a);
    assert(lead_value(buf, storage, n + 5) == 256 * x + b);
    assert(0 <= a <= 255 && 0 <= b <= 255);
    assert((256 * x + b) / 2 == 128 * x + b / 2);
    assert(256 * (x / 2) == 128 * x - 128 * (x % 2));
    assert(x % 2 == a % 2);
    assert((a * 256 + b) / 2 == 128 * a + b / 2);
    assert((128 * a + b / 2) % 256 == 128 * (a % 2) + b / 2);
}

/// Whether the code of a buffer lies in the interval of an encoder.
pub open spec fn holds(c: CoderView, buf: Seq<u8>, storage: int) -> bool {
    low(c) <= code(buf, storage, emitted_count(c) as nat) < low(c) + c.rng
}

/// A code that lies in an interval lay in it before a byte left it.
proof fn lemma_holds_before_shift(c: CoderView, buf: Seq<u8>, storage: int)
    requires
        sound(c),
        c.rng <= 0x80_0000,
        c.ext < u32::MAX,
        !shift_out(c).error,
        storage <= buf.len(),
        holds(shift_out(c), buf, storage),
    ensures
        holds(c, buf, storage),
{
    lemma_shift_out(c);
    lemma_code_step(buf, storage, emitted_count(c) as nat);
}

proof fn lemma_holds_before_settling(c: CoderView, buf: Seq<u8>, storage: int)
    requires
        sound(c),
        c.ext + shifts(c.rng) <= u32::MAX,
        !settle_out(c).error,
        storage <= buf.len(),
        holds(settle_out(c), buf, storage),
    ensures
        holds(c, buf, storage),
    decreases 0x8000_0001 - c.rng,
{
    if c.rng <= 0x80_0000 {
        let e = shift_out(c);
        if e.error {
            lemma_settle_out_error(e);
        }
        lemma_shift_out(c);
        lemma_holds_before_settling(e, buf, storage);
        lemma_holds_before_shift(c, buf, storage);
    }
}

// ---------------------------------------------------------------------------
// The decoder beside the encoder
// ---------------------------------------------------------------------------
/// Whether a decoder of a buffer stands where an encoder stood: the same
/// interval, and the distance of the code from its end.
pub open spec fn beside(d: CoderView, c: CoderView, buf: Seq<u8>, storage: int) -> bool {
    let n = emitted_count(c) as nat;
    &&& d.buf == buf
    &&& d.storage == storage
    &&& d.rng == c.rng
    &&& d.offs == if n + 4 < storage {
        n as int + 4
    } else {
        storage
    }
    &&& d.rem == byte_at(buf, storage, n as int + 3)
    &&& d.nbits_total == c.nbits_total
    &&& d.val == low(c) + c.rng - 1 - code(buf, storage, n)
}

proof fn lemma_refill(d: CoderView, c: CoderView, buf: Seq<u8>, storage: int)
    requires
        sound(c),
        c.rng <= 0x80_0000,
        c.ext < u32::MAX,
        !shift_out(c).error,
        0 <= storage <= buf.len(),
        beside(d, c, buf, storage),
        holds(c, buf, storage),
    ensures
        beside(refill(d), shift_out(c), buf, storage),
{
    let n = emitted_count(c) as nat;
    lemma_shift_out(c);
    lemma_code_step(buf, storage, n);
    let b = front_byte(d);
    assert(b == byte_at(buf, storage, n as int + 4));
    assert(0 <= d.val < d.rng);
    let e = code_step(buf, storage, n);
    assert((d.rem * 256 + b) / 2 % 256 == e);
    assert(0 <= d.val * 256 + (255 - e) < 0x8000_0000);
    assert((d.val * 256 + (255 - e)) % 0x8000_0000 == d.val * 256 + (255 - e));
}

proof fn lemma_settle_beside(d: CoderView, c: CoderView, buf: Seq<u8>, storage: int)
    requires
        sound(c),
        c.ext + shifts(c.rng) <= u32::MAX,
        !settle_out(c).error,
        0 <= storage <= buf.len(),
        beside(d, c, buf, storage),
        holds(settle_out(c), buf, storage),
    ensures
        beside(settle(d), settle_out(c), buf, storage),
    decreases 0x8000_0001 - c.rng,
{
    if c.rng <= 0x80_0000 {
        let e = shift_out(c);
        if e.error {
            lemma_settle_out_error(e);
        }
        lemma_shift_out(c);
        lemma_holds_before_settling(c, buf, storage);
        lemma_holds_before_settling(e, buf, storage);
        lemma_refill(d, c, buf, storage);
        lemma_settle_beside(refill(d), e, buf, storage);
    }
}

/// The decoder narrows its interval as the encoder did.
proof fn lemma_narrowed_beside(
    d: CoderView,
    c: CoderView,
    lo: int,
    hi: int,
    buf: Seq<u8>,
    storage: int,
)
    requires
        sound(c),
        0 <= lo < hi <= c.rng,
        c.ext + 3 <= u32::MAX,
        !narrowed_out(c, lo, hi).error,
        0 <= storage <= buf.len(),
        beside(d, c, buf, storage),
        holds(narrowed_out(c, lo, hi), buf, storage),
    ensures
        lo <= d.val < hi,
        holds(c, buf, storage),
        sound(narrowed_out(c, lo, hi)),
        beside(narrowed(d, lo, hi), narrowed_out(c, lo, hi), buf, storage),
{
    let e = cut(c, lo, hi);
    lemma_cut(c, lo, hi);
    lemma_few_shifts(e.rng);
    lemma_settle_out_value(e);
    lemma_holds_before_settling(e, buf, storage);
    let f = CoderView { val: d.val - lo, rng: hi - lo, ..d };
    assert(beside(f, e, buf, storage));
    lemma_settle_beside(f, e, buf, storage);
}

/// The code one byte further on.
proof fn lemma_half_step(x: int, a: int, b: int)
    requires
        0 <= x,
        x % 256 == a,
        0 <= b <= 255,
    ensures
        (256 * x + b) / 2 == 256 * (x / 2) + (a * 256 + b) / 2 % 256,
        0 <= (a * 256 + b) / 2 % 256 <= 255,
{
    assert((256 * x + b) / 2 == 128 * x + b / 2);
    assert(256 * (x / 2) == 128 * x - 128 * (x % 2));
    assert(x % 2 == a % 2);
    assert((a * 256 + b) / 2 == 128 * a + b / 2);
    assert((128 * a + b / 2) % 256 == 128 * (a % 2) + b / 2);
}

/// The first bytes of a fresh decoder.
proof fn lemma_first_refill(d: CoderView, buf: Seq<u8>, size: int, n: nat, x: int)
    requires
        0 <= size == buf.len(),
        1 <= n <= 3,
        d.buf == buf,
        d.storage == size,
        x == lead_value(buf, size, n),
        0 <= x,
        d.offs == if n < size {
            n as int
        } else {
            size
        },
        d.rem == byte_at(buf, size, n - 1),
        0 < d.rng <= 0x80_0000,
        d.val == d.rng - 1 - x / 2,
        0 <= d.val,
    ensures
        ({
            let e = refill(d);
            let y = lead_value(buf, size, n + 1);
            &&& e.buf == buf && e.storage == size
            &&& y == 256 * x + byte_at(buf, size, n as int)
            &&& 0 <= y
            &&& e.offs == if n + 1 < size {
                n as int + 1
            } else {
                size
            }
            &&& e.rem == byte_at(buf, size, n as int)
            &&& e.rng == 256 * d.rng
            &&& e.val == e.rng - 1 - y / 2
            &&& 0 <= e.val
        }),
{
    let b = byte_at(buf, size, n as int);
    assert(front_byte(d) == b);
    assert(x == 256 * lead_value(buf, size, (n - 1) as nat) + d.rem);
    lemma_half_step(x, d.rem, b);
    let s = (d.rem * 256 + b) / 2 % 256;
    assert(0 <= d.val * 256 + (255 - s) < 0x8000_0000);
    assert((d.val * 256 + (255 - s)) % 0x8000_0000 == d.val * 256 + (255 - s));
}

/// A fresh decoder stands beside a fresh encoder.
proof fn lemma_fresh_beside(buf: Seq<u8>, size: int)
    requires
        0 <= size == buf.len() <= u32::MAX,
    ensures
        sound(encoder_start(size)),
        beside(decoder_start(buf), encoder_start(size), buf, size),
{
    let c = encoder_start(size);
    assert(stored(c) == 0);
    assert(p256(0) == 1);
    assert(emitted(c) == 0);
    let b0 = byte_at(buf, size, 0);
    let d0 = CoderView {
        buf,
        storage: size,
        offs: if size > 0 {
            1
        } else {
            0
        },
        end_offs: 0,
        end_window: 0,
        nend_bits: 0,
        nbits_total: 9,
        rng: 128,
        val: 127 - b0 / 2,
        ext: 0,
        rem: b0,
        error: false,
    };
    assert(decoder_start(buf) == settle(d0));
    assert(lead_value(buf, size, 1) == b0) by {
        reveal_with_fuel(lead_value, 2);
    }
    lemma_first_refill(d0, buf, size, 1, b0);
    let d1 = refill(d0);
    lemma_first_refill(d1, buf, size, 2, lead_value(buf, size, 2));
    let d2 = refill(d1);
    lemma_first_refill(d2, buf, size, 3, lead_value(buf, size, 3));
    let d3 = refill(d2);
    assert(settle(d0) == settle(d1));
    assert(settle(d1) == settle(d2));
    assert(settle(d2) == settle(d3));
    assert(settle(d3) == d3);
}

// ---------------------------------------------------------------------------
// The end of the code
// ---------------------------------------------------------------------------
/// The bytes that the top `n` bits of a code take.
pub open spec fn code_bytes(n: int) -> nat
    decreases n + 8,
{
    if n <= 0 {
        0
    } else {
        1 + code_bytes(n - 8)
    }
}

/// The code that ends an encoder: the least multiple of as large a power of two
/// as leaves everything behind it in the interval.
pub open spec fn final_code(c: CoderView) -> int {
    round_up(c.val, free_bits(c) as nat)
}

proof fn lemma_final_code(c: CoderView)
    requires
        sound(c),
        c.rng > 0x80_0000,
    ensures
        22 <= free_bits(c) <= 31,
        c.val <= final_code(c),
        final_code(c) + pow2(free_bits(c) as nat) <= c.val + c.rng,
        final_code(c) % (pow2(free_bits(c) as nat) as int) == 0,
        free_bits(c) == 31 ==> final_code(c) == 0,
{
    lemma2_to64();
    lemma_bit_length(c.rng);
    let k = bit_length(c.rng) - 1;
    if k < 23 {
        lemma_pow2_strictly_increases((k + 1) as nat, 24);
    }
    if k > 31 {
        lemma_pow2_strictly_increases(31, k as nat);
    }
    lemma_pow2_unfold(k as nat);
    lemma_round_up(c.val, k as nat);
    lemma_round_up(c.val, (k - 1) as nat);
    let f = free_bits(c);
    lemma_pow2_pos(f as nat);
    let q: int = pow2(f as nat) as int;
    let y: int = (c.val + q - 1) / q;
    assert(y * q % q == 0) by (nonlinear_arith)
        requires
            q >= 1,
    ;
    if f == 31 {
        let x = final_code(c);
        assert(q == 0x8000_0000);
        assert(x <= c.val < 0x8000_0000);
        assert(x % 0x8000_0000 == 0);
        lemma_small_mod(x as nat, 0x8000_0000);
        assert(x == 0);
    }
}

proof fn lemma_put_code_error(c: CoderView, x: int, n: int)
    requires
        c.error,
    ensures
        put_code(c, x, n).error,
    decreases n + 8,
{
    if n > 0 {
        lemma_carry_out_error(c, x / 0x80_0000);
        lemma_put_code_error(carry_out(c, x / 0x80_0000), (x * 256) % 0x8000_0000, n - 8);
    }
}

/// Writing a code of which only the top `n` bits are set joins it to what was
/// written.
proof fn lemma_put_code_value(c: CoderView, x: int, n: int)
    requires
        writable(c),
        n <= 9,
        0 <= x <= u32::MAX,
        n <= 8 ==> x % 0x80_0000 == 0,
        x % 0x40_0000 == 0,
        n <= 0 ==> x == 0,
        c.ext + code_bytes(n) <= u32::MAX,
        c.rem == -1 ==> c.offs == 0 && x < 0x8000_0000,
        x >= 0x8000_0000 ==> c.rem != 255,
        !put_code(c, x, n).error,
    ensures
        ({
            let d = put_code(c, x, n);
            let m = code_bytes(n);
            &&& writable(d)
            &&& !c.error
            &&& emitted(d) * 0x8000_0000 == p256(m) * (emitted(c) * 0x8000_0000 + x)
            &&& emitted_count(d) == emitted_count(c) + m
            &&& d.rem == -1 ==> d.offs == 0
            &&& d.ext <= c.ext + m
            &&& d.storage == c.storage && d.end_offs == c.end_offs
            &&& d.end_window == c.end_window && d.nend_bits == c.nend_bits
            &&& d.buf.len() == c.buf.len()
        }),
    decreases n + 8,
{
    if n > 0 {
        let sym = x / 0x80_0000;
        let e = carry_out(c, sym);
        let y = (x * 256) % 0x8000_0000;
        if e.error {
            lemma_put_code_error(e, y, n - 8);
        }
        lemma_carry_out_value(c, sym);
        assert(y == 256 * (x % 0x80_0000));
        lemma_put_code_value(e, y, n - 8);
        let p = p256(code_bytes(n - 8));
        let a = emitted(c) * 0x8000_0000 + x;
        assert(emitted(e) * 0x8000_0000 + y == 256 * a);
        assert(p * (256 * a) == (256 * p) * a) by (nonlinear_arith);
    } else {
        let a = emitted(c) * 0x8000_0000;
        assert(1 * a == a) by (nonlinear_arith);
    }
}

/// With every symbol written, the buffer begins with the whole code.
proof fn lemma_symbols_written(c: CoderView)
    requires
        sound(c),
        c.rng > 0x80_0000,
        c.ext + 3 <= u32::MAX,
        !symbols_written(c).error,
    ensures
        ({
            let d = symbols_written(c);
            let m = code_bytes(31 - free_bits(c));
            &&& writable(d)
            &&& d.offs == emitted_count(c) + m
            &&& stored(d) * 0x8000_0000 == p256(m) * (emitted(c) * 0x8000_0000 + final_code(c))
            &&& d.storage == c.storage && d.end_offs == c.end_offs
            &&& d.end_window == c.end_window && d.nend_bits == c.nend_bits
            &&& d.buf.len() == c.buf.len()
        }),
{
    lemma2_to64();
    lemma_final_code(c);
    let k = free_bits(c);
    let x = final_code(c);
    let n = 31 - k;
    reveal_with_fuel(code_bytes, 3);
    let d = put_code(c, x, n);
    let w = symbols_written(c);
    if d.error {
        lemma_carry_out_error(d, 0);
    }
    lemma_p256_is_positive(c.ext as nat);
    if c.rem == -1 {
        let p = p256(c.ext as nat);
        assert(stored(c) == 0);
        assert((0 + 1) * p == p) by (nonlinear_arith);
        assert(emitted_count(c) == c.ext);
    }
    assert(x % 0x40_0000 == 0 && (n <= 8 ==> x % 0x80_0000 == 0) && (n <= 0 ==> x == 0)) by {
        lemma_multiple_of_power(x, k);
    }
    lemma_put_code_value(c, x, n);
    if d.rem >= 0 || d.ext > 0 {
        lemma_carry_out_value(d, 0);
    } else {
        assert(stored(d) == 0);
        assert(p256(0) == 1);
    }
}

proof fn lemma_multiple_of_power(x: int, k: int)
    requires
        22 <= k <= 31,
        0 <= x <= u32::MAX,
        x % (pow2(k as nat) as int) == 0,
    ensures
        x % 0x40_0000 == 0,
        k >= 23 ==> x % 0x80_0000 == 0,
{
    lemma2_to64();
    lemma_pow2_adds(22, (k - 22) as nat);
    let p: int = pow2((k - 22) as nat) as int;
    let q: int = pow2(k as nat) as int;
    let y = x / q;
    assert(x == (y * p) * 0x40_0000 && (y * p) * 0x40_0000 % 0x40_0000 == 0) by (nonlinear_arith)
        requires
            q == 0x40_0000 * p,
            y == x / q,
            x % q == 0,
            q > 0,
    ;
    if k >= 23 {
        lemma_pow2_adds(23, (k - 23) as nat);
        let r: int = pow2((k - 23) as nat) as int;
        assert(x == (y * r) * 0x80_0000 && (y * r) * 0x80_0000 % 0x80_0000 == 0) by (
        nonlinear_arith)
            requires
                q == 0x80_0000 * r,
                y == x / q,
                x % q == 0,
                q > 0,
        ;
    }
}

proof fn lemma_flush_raw_error(c: CoderView)
    requires
        c.error,
    ensures
        flush_raw(c).error,
    decreases c.nend_bits,
{
    if c.nend_bits >= 8 {
        let d = put_back(c, c.end_window % 256);
        lemma_flush_raw_error(
            CoderView { end_window: c.end_window / 256, nend_bits: c.nend_bits - 8, ..d },
        );
    }
}

/// Raw bits go to the back and leave the front alone.
proof fn lemma_flush_raw_front(c: CoderView)
    requires
        writable(c),
        0 <= c.nend_bits <= 32,
        0 <= c.end_window < pow2(c.nend_bits as nat),
        !flush_raw(c).error,
    ensures
        ({
            let d = flush_raw(c);
            &&& writable(d)
            &&& !c.error
            &&& d.offs == c.offs && d.storage == c.storage && d.rem == c.rem && d.ext == c.ext
            &&& d.val == c.val && d.rng == c.rng && d.nbits_total == c.nbits_total
            &&& d.buf.len() == c.buf.len()
            &&& forall|i: int| 0 <= i < c.offs ==> #[trigger] d.buf[i] == c.buf[i]
            &&& 0 <= d.nend_bits < 8
            &&& 0 <= d.end_window < pow2(d.nend_bits as nat)
        }),
    decreases c.nend_bits,
{
    if c.nend_bits >= 8 {
        let e = put_back(c, c.end_window % 256);
        let f = CoderView { end_window: c.end_window / 256, nend_bits: c.nend_bits - 8, ..e };
        if e.error {
            lemma_flush_raw_error(f);
        }
        lemma2_to64();
        lemma_pow2_adds(8, (c.nend_bits - 8) as nat);
        let w: int = c.end_window;
        let p: int = pow2((c.nend_bits - 8) as nat) as int;
        assert(0 <= w / 256 < p) by (nonlinear_arith)
            requires
                0 <= w < 256 * p,
        ;
        lemma_flush_raw_front(f);
    }
}

/// Low bits that are free take what is put into them.
proof fn lemma_or_into_free_bits(b: u8, w: u8, s: int)
    requires
        0 <= s < 8,
        b as int % (pow2(s as nat) as int) == 0,
        w < pow2(s as nat),
    ensures
        (b | w) as int == b + w,
{
    lemma2_to64();
    let p: u8 = pow2(s as nat) as u8;
    assert((b | w) == b + w) by (bit_vector)
        requires
            p == 1 || p == 2 || p == 4 || p == 8 || p == 16 || p == 32 || p == 64 || p == 128,
            b % p == 0,
            w < p,
    ;
}

/// The spare bits of the last byte of the code, the bytes of the code, and its
/// free bits make up the interval's 31.
proof fn lemma_spare_bits(c: CoderView)
    requires
        22 <= free_bits(c) <= 31,
    ensures
        0 <= spare_bits(c) < 8,
        ({
            let m = code_bytes(31 - free_bits(c)) as int;
            &&& 8 * m == 31 - free_bits(c) + spare_bits(c)
            &&& 0 <= m <= 2
        }),
{
    reveal_with_fuel(code_bytes, 3);
}

/// The whole code is a multiple of what its spare bits can hold.
proof fn lemma_code_leaves_spare_bits(s: int, a: int, x: int, k: int, m: int, spare: int)
    requires
        22 <= k <= 31,
        0 <= m <= 2,
        8 * m == 31 - k + spare,
        0 <= spare < 8,
        0 <= x <= u32::MAX,
        x % (pow2(k as nat) as int) == 0,
        s * 0x8000_0000 == p256(m as nat) * (a * 0x8000_0000 + x),
    ensures
        s % (pow2(spare as nat) as int) == 0,
{
    lemma2_to64();
    reveal_with_fuel(p256, 3);
    let q: int = pow2(k as nat) as int;
    let y = x / q;
    assert(x == y * q) by (nonlinear_arith)
        requires
            x % q == 0,
            q > 0,
            y == x / q,
    ;
    if m == 0 {
        assert(spare == 0);
    } else {
        let t: int = pow2(spare as nat) as int;
        lemma_pow2_adds((k - spare) as nat, spare as nat);
        let f: int = if m == 1 {
            256
        } else {
            65536
        };
        // f * 2^k = 2^(31 + spare)
        lemma_pow2_adds((8 * m) as nat, k as nat);
        lemma_pow2_adds(31, spare as nat);
        assert(f * q == 0x8000_0000 * t);
        lemma_pow2_adds((8 * m - spare) as nat, spare as nat);
        let g: int = pow2((8 * m - spare) as nat) as int;
        assert(f == g * t);
        assert(s == (a * g + y) * t) by (nonlinear_arith)
            requires
                s * 0x8000_0000 == f * (a * 0x8000_0000 + x),
                x == y * q,
                f * q == 0x8000_0000 * t,
                f == g * t,
        ;
        let u = a * g + y;
        assert(u * t % t == 0) by (nonlinear_arith)
            requires
                t > 0,
        ;
    }
}

/// More bytes behind a number scale it, and add less than one of it.
proof fn lemma_lead_tail(buf: Seq<u8>, storage: int, n: nat, j: nat)
    requires
        storage <= buf.len(),
    ensures
        lead_value(buf, storage, n) * p256(j) <= lead_value(buf, storage, n + j) < (lead_value(
            buf,
            storage,
            n,
        ) + 1) * p256(j),
    decreases j,
{
    let x = lead_value(buf, storage, n);
    if j > 0 {
        lemma_lead_tail(buf, storage, n, (j - 1) as nat);
        let p = p256((j - 1) as nat);
        let y = lead_value(buf, storage, (n + j - 1) as nat);
        assert(lead_value(buf, storage, n + j) == 256 * y + byte_at(buf, storage, n + j - 1));
        assert(x * (256 * p) <= 256 * y && 256 * y + 255 < (x + 1) * (256 * p)) by (
        nonlinear_arith)
            requires
                x * p <= y < (x + 1) * p,
        ;
    } else {
        assert(x * 1 == x && (x + 1) * 1 == x + 1) by (nonlinear_arith);
    }
}

/// A finished buffer begins with the whole code, raw bits in its spare bits at
/// most.
proof fn lemma_finished_front(c: CoderView)
    requires
        sound(c),
        c.rng > 0x80_0000,
        c.ext + 3 <= u32::MAX,
        0 <= c.nend_bits <= 32,
        0 <= c.end_window < pow2(c.nend_bits as nat),
        !finished(c).error,
    ensures
        ({
            let f = finished(c);
            let n = (emitted_count(c) + code_bytes(31 - free_bits(c))) as nat;
            let s = stored(symbols_written(c));
            &&& s <= lead_value(f.buf, c.storage, n) < s + pow2(spare_bits(c) as nat)
            &&& f.buf.len() == c.buf.len()
            &&& f.storage == c.storage
            &&& !symbols_written(c).error
        }),
        ({
            let f = finished(c);
            let d = flush_raw(symbols_written(c));
            let at = d.storage - d.end_offs - 1;
            &&& !d.error
            &&& d.nend_bits > 0 ==> 0 <= at && f.buf[at] as int % (pow2(d.nend_bits as nat) as int)
                == d.end_window
            &&& forall|i: int| at < i < d.storage ==> #[trigger] f.buf[i] == d.buf[i]
        }),
{
    let w = symbols_written(c);
    let d = flush_raw(w);
    let f = finished(c);
    assert(!d.error);
    if w.error {
        lemma_flush_raw_error(w);
    }
    lemma_symbols_written(c);
    lemma_flush_raw_front(w);
    lemma_final_code(c);
    lemma_spare_bits(c);
    lemma_pow2_pos(spare_bits(c) as nat);
    let n = (emitted_count(c) + code_bytes(31 - free_bits(c))) as nat;
    let s = stored(w);
    let cleared = Seq::new(
        d.buf.len(),
        |i: int|
            if d.offs <= i < d.storage - d.end_offs {
                0u8
            } else {
                d.buf[i]
            },
    );
    lemma_lead_agrees(cleared, w.buf, c.storage, n);
    assert(lead_value(cleared, c.storage, n) == s);
    if d.nend_bits > 0 {
        let at = d.storage - d.end_offs - 1;
        lemma2_to64();
        lemma_pow2_strictly_increases(d.nend_bits as nat, 8);
        let e: int = pow2(d.nend_bits as nat) as int;
        if d.offs + d.end_offs < d.storage {
            lemma_lead_agrees(f.buf, cleared, c.storage, n);
            assert(cleared[at] == 0);
            lemma_or_into_free_bits(0, d.end_window as u8, d.nend_bits);
            lemma_small_mod(d.end_window as nat, e as nat);
        } else {
            assert(at == n - 1);
            let spare = spare_bits(c);
            let k = free_bits(c);
            let m = code_bytes(31 - k) as int;
            lemma_final_code_bound(c);
            lemma_code_leaves_spare_bits(s, emitted(c), final_code(c), k, m, spare);
            lemma2_to64();
            let t: int = pow2(spare as nat) as int;
            let b = cleared[at];
            let z = lead_value(cleared, c.storage, (n - 1) as nat);
            assert(s == 256 * z + b);
            lemma_pow2_adds(spare as nat, (8 - spare) as nat);
            let g: int = pow2((8 - spare) as nat) as int;
            assert(b as int % t == 0) by (nonlinear_arith)
                requires
                    s == 256 * z + b,
                    s % t == 0,
                    256 == t * g,
                    t > 0,
            {
                let u = s / t;
                assert(b == (u - g * z) * t);
            }
            if d.nend_bits < spare {
                lemma_pow2_strictly_increases(d.nend_bits as nat, spare as nat);
            }
            lemma_pow2_adds(d.nend_bits as nat, (spare - d.nend_bits) as nat);
            let h: int = pow2((spare - d.nend_bits) as nat) as int;
            let u: int = b as int / t;
            assert(b == e * (u * h)) by (nonlinear_arith)
                requires
                    u == b as int / t,
                    b as int % t == 0,
                    t == e * h,
                    t > 0,
            ;
            lemma_mod_multiples_vanish(u * h, d.end_window, e);
            lemma_small_mod(d.end_window as nat, e as nat);
            lemma_or_into_free_bits(b, d.end_window as u8, spare);
            lemma_lead_agrees(f.buf, cleared, c.storage, (n - 1) as nat);
            assert(f.buf[at] == b | (d.end_window as u8));
        }
    }
}

proof fn lemma_final_code_bound(c: CoderView)
    requires
        sound(c),
        c.rng > 0x80_0000,
    ensures
        0 <= final_code(c) <= u32::MAX,
{
    lemma_final_code(c);
    lemma_pow2_pos(free_bits(c) as nat);
}

/// The code that a finished encoder leaves lies in its interval.
proof fn lemma_finished_holds(c: CoderView)
    requires
        sound(c),
        c.rng > 0x80_0000,
        c.ext + 3 <= u32::MAX,
        0 <= c.nend_bits <= 32,
        0 <= c.end_window < pow2(c.nend_bits as nat),
        !finished(c).error,
    ensures
        holds(c, finished(c).buf, c.storage),
{
    let f = finished(c);
    let k = free_bits(c);
    let m = code_bytes(31 - k);
    let n = emitted_count(c) as nat;
    let s = stored(symbols_written(c));
    let spare = spare_bits(c);
    lemma_finished_front(c);
    lemma_symbols_written(c);
    lemma_final_code(c);
    lemma_spare_bits(c);
    lemma2_to64();
    let t: int = pow2(spare as nat) as int;
    let x = final_code(c);
    let v = emitted(c) * 0x8000_0000 + x;
    let y = lead_value(f.buf, c.storage, n + m);
    let j = (4 - m) as nat;
    lemma_lead_tail(f.buf, c.storage, n + m, j);
    let l = lead_value(f.buf, c.storage, n + 4);
    assert(n + m + j == n + 4);
    let q = p256(j);
    let a = p256(m);
    let e: int = pow2(k as nat) as int;
    assert(a * q == 0x1_0000_0000) by {
        reveal_with_fuel(p256, 5);
        assert(p256(0) == 1 && p256(1) == 256 && p256(2) == 0x1_0000);
        assert(p256(3) == 0x100_0000 && p256(4) == 0x1_0000_0000);
        assert(m == 0 || m == 1 || m == 2);
    }
    assert(a == pow2((8 * m) as nat)) by {
        reveal_with_fuel(p256, 3);
    }
    lemma_pow2_adds((8 * m) as nat, k as nat);
    lemma_pow2_adds(31, spare as nat);
    assert(a * e == 0x8000_0000 * t);
    assert(q > 0) by {
        lemma_p256_is_positive(j);
    }
    assert(2 * v <= l < 2 * v + 2 * e) by (nonlinear_arith)
        requires
            s * 0x8000_0000 == a * v,
            a * q == 0x1_0000_0000,
            a * e == 0x8000_0000 * t,
            s <= y < s + t,
            y * q <= l < (y + 1) * q,
            q > 0,
    {
        assert(s * q * 0x8000_0000 == v * 0x1_0000_0000);
        assert(s * q == 2 * v);
        assert(t * q * 0x8000_0000 == e * 0x1_0000_0000);
        assert(t * q == 2 * e);
        assert(s * q <= y * q);
        assert((y + 1) * q <= (s + t) * q);
    }
}

// ---------------------------------------------------------------------------
// Messages
// ---------------------------------------------------------------------------
/// One thing that is coded.
pub enum Item {
    /// A symbol under a table of inverse cumulative frequencies.
    Symbol(Seq<u8>, int),
    /// A number below a bound, all of them equally likely.
    Number(int, int),
}

/// Whether an item can be coded: a symbol its table has, or a number below its
/// bound.
pub open spec fn can_be_coded(i: Item) -> bool {
    match i {
        Item::Symbol(t, s) => exists|z: int| #[trigger] ends_at(t, z) && 0 <= s <= z,
        Item::Number(v, ft) => 2 <= ft <= u32::MAX && 0 <= v < ft,
    }
}

/// The encoder behind an item.
pub open spec fn item_written(c: CoderView, i: Item) -> CoderView {
    match i {
        Item::Symbol(t, s) => with_icdf(c, t, s),
        Item::Number(v, ft) => with_uint(c, v, ft),
    }
}

/// What a decoder reads in the place of an item.
pub open spec fn item_read(d: CoderView, i: Item) -> int {
    match i {
        Item::Symbol(t, _) => icdf_symbol(d, t),
        Item::Number(_, ft) => uint_value(d, ft),
    }
}

/// The decoder behind an item.
pub open spec fn after_item(d: CoderView, i: Item) -> CoderView {
    match i {
        Item::Symbol(t, _) => after_icdf(d, t),
        Item::Number(_, ft) => after_uint(d, ft),
    }
}

/// What an item says.
pub open spec fn item_value(i: Item) -> int {
    match i {
        Item::Symbol(_, s) => s,
        Item::Number(v, _) => v,
    }
}

/// The encoder behind a message.
pub open spec fn written(c: CoderView, items: Seq<Item>) -> CoderView
    decreases items.len(),
{
    if items.len() == 0 {
        c
    } else {
        written(item_written(c, items[0]), items.drop_first())
    }
}

/// Whether a decoder reads a message, item by item.
pub open spec fn reads_back(d: CoderView, items: Seq<Item>) -> bool
    decreases items.len(),
{
    items.len() == 0 || {
        &&& item_read(d, items[0]) == item_value(items[0])
        &&& reads_back(after_item(d, items[0]), items.drop_first())
    }
}

/// The part of the interval that an item narrows it to, counted from its end.
pub open spec fn item_part(rng: int, i: Item) -> (int, int) {
    match i {
        Item::Symbol(t, s) => {
            let r = rng / 256;
            (
                r * t[s],
                if s == 0 {
                    rng
                } else {
                    r * t[s - 1]
                },
            )
        },
        Item::Number(v, ft) => {
            let p = pow2(uint_raw_bits(ft) as nat) as int;
            let r = rng / uint_top(ft);
            let lo = r * (uint_top(ft) - v / p - 1);
            (
                lo,
                if v / p > 0 {
                    lo + r
                } else {
                    rng
                },
            )
        },
    }
}

/// The encoder once the interval is narrowed for an item, its raw bits not
/// written.
pub open spec fn item_narrowed(c: CoderView, i: Item) -> CoderView {
    narrowed_out(c, item_part(c.rng, i).0, item_part(c.rng, i).1)
}

/// The raw bits of an item, and how many they are.
pub open spec fn item_raw(i: Item) -> (int, int) {
    match i {
        Item::Symbol(_, _) => (0, 0),
        Item::Number(v, ft) => (
            v % (pow2(uint_raw_bits(ft) as nat) as int),
            uint_raw_bits(ft),
        ),
    }
}

proof fn lemma_item_written(c: CoderView, i: Item)
    ensures
        item_written(c, i) == if item_raw(i).1 > 0 {
            with_raw_bits(item_narrowed(c, i), item_raw(i).0, item_raw(i).1)
        } else {
            item_narrowed(c, i)
        },
{
}

/// What is known of the bound of a number, split for coding.
proof fn lemma_number_split(v: int, ft: int)
    requires
        2 <= ft <= u32::MAX,
        0 <= v < ft,
    ensures
        0 <= uint_raw_bits(ft) <= 24,
        2 <= uint_top(ft) <= 256,
        ({
            let p = pow2(uint_raw_bits(ft) as nat) as int;
            &&& p >= 1
            &&& 0 <= v / p < uint_top(ft)
            &&& 0 <= v % p < p
            &&& v / p * p + v % p == v
        }),
{
    lemma2_to64();
    lemma_bit_length(ft - 1);
    let b = bit_length(ft - 1);
    if b > 32 {
        if b - 1 > 32 {
            lemma_pow2_strictly_increases(32, (b - 1) as nat);
        }
    }
    let n = uint_raw_bits(ft);
    lemma_pow2_pos(n as nat);
    let p: int = pow2(n as nat) as int;
    let f: int = ft - 1;
    if n > 0 {
        lemma_pow2_adds(8, n as nat);
        lemma_pow2_adds(7, n as nat);
        assert(128 <= f / p < 256) by (nonlinear_arith)
            requires
                128 * p <= f < 256 * p,
                p >= 1,
        ;
    } else {
        assert(p == 1);
        if b < 8 {
            lemma_pow2_strictly_increases(b as nat, 8);
        }
        assert(1 <= f < 256);
        assert(f / p == f);
    }
    assert(uint_top(ft) == f / p + 1);
    assert(2 <= uint_top(ft) <= 256);
    assert(0 <= v / p <= f / p && 0 <= v % p < p && v / p * p + v % p == v) by (nonlinear_arith)
        requires
            0 <= v <= f,
            p >= 1,
    ;
}

proof fn lemma_table_falls(t: Seq<u8>, z: int, i: int, j: int)
    requires
        ends_at(t, z),
        0 <= i < j <= z,
    ensures
        t[i] > t[j],
    decreases j - i,
{
    assert(falls_at(t, j - 1));
    if i < j - 1 {
        lemma_table_falls(t, z, i, j - 1);
    }
}

proof fn lemma_item_part(rng: int, i: Item)
    requires
        rng > 0x80_0000,
        can_be_coded(i),
    ensures
        0 <= item_part(rng, i).0 < item_part(rng, i).1 <= rng,
{
    match i {
        Item::Symbol(t, s) => {
            let z = choose|z: int| #[trigger] ends_at(t, z) && 0 <= s <= z;
            let r = rng / 256;
            let a: int = t[s] as int;
            if s > 0 {
                lemma_table_falls(t, z, s - 1, s);
                let b: int = t[s - 1] as int;
                assert(0 <= r * a && r * a < r * b && r * b <= rng) by (nonlinear_arith)
                    requires
                        r > 0,
                        0 <= a < b <= 255,
                        256 * r <= rng,
                ;
            } else {
                assert(0 <= r * a && r * a < rng) by (nonlinear_arith)
                    requires
                        r > 0,
                        0 <= a <= 255,
                        256 * r <= rng,
                ;
            }
        },
        Item::Number(v, ft) => {
            lemma_number_split(v, ft);
            let p = pow2(uint_raw_bits(ft) as nat) as int;
            let top = uint_top(ft);
            let q = v / p;
            let r = rng / top;
            let lo = r * (top - q - 1);
            assert(r > 0 && r * top <= rng) by (nonlinear_arith)
                requires
                    r == rng / top,
                    2 <= top <= 256,
                    rng > 0x80_0000,
            ;
            assert(0 <= lo && lo + r <= r * top) by (nonlinear_arith)
                requires
                    lo == r * (top - q - 1),
                    0 <= q < top,
                    r > 0,
            ;
        },
    }
}

proof fn lemma_with_raw_error(c: CoderView, v: int, n: int)
    requires
        c.error,
    ensures
        with_raw_bits(c, v, n).error,
{
    lemma_flush_raw_error(c);
}

proof fn lemma_item_error(c: CoderView, i: Item)
    requires
        c.error,
    ensures
        item_written(c, i).error,
{
    lemma_item_written(c, i);
    let (lo, hi) = item_part(c.rng, i);
    lemma_settle_out_error(cut(c, lo, hi));
    if item_raw(i).1 > 0 {
        lemma_with_raw_error(item_narrowed(c, i), item_raw(i).0, item_raw(i).1);
    }
}

proof fn lemma_written_error(c: CoderView, items: Seq<Item>)
    requires
        c.error,
    ensures
        written(c, items).error,
    decreases items.len(),
{
    if items.len() > 0 {
        lemma_item_error(c, items[0]);
        lemma_written_error(item_written(c, items[0]), items.drop_first());
    }
}

proof fn lemma_finished_error(c: CoderView)
    requires
        c.error,
    ensures
        finished(c).error,
{
    let k = free_bits(c);
    let d = put_code(c, round_up(c.val, k as nat), 31 - k);
    lemma_put_code_error(c, round_up(c.val, k as nat), 31 - k);
    lemma_carry_out_error(d, 0);
    lemma_flush_raw_error(symbols_written(c));
}

/// Whether the raw bits that are held back are as many as are counted.
pub open spec fn raw_held(c: CoderView) -> bool {
    &&& 0 <= c.nend_bits <= 32
    &&& 0 <= c.end_window < pow2(c.nend_bits as nat)
}

/// An encoder between items.
pub open spec fn between(c: CoderView) -> bool {
    &&& sound(c)
    &&& c.rng > 0x80_0000
    &&& raw_held(c)
}

proof fn lemma_with_raw(c: CoderView, v: int, n: int)
    requires
        between(c),
        0 < n <= 24,
        0 <= v < pow2(n as nat),
        !with_raw_bits(c, v, n).error,
    ensures
        ({
            let d = with_raw_bits(c, v, n);
            &&& between(d)
            &&& low(d) == low(c) && d.rng == c.rng
            &&& emitted_count(d) == emitted_count(c)
            &&& d.ext == c.ext && d.storage == c.storage && d.buf.len() == c.buf.len()
            &&& d.nbits_total == add_bits(c.nbits_total, n)
        }),
{
    let e = if c.nend_bits + n > 32 {
        flush_raw(c)
    } else {
        c
    };
    if c.nend_bits + n > 32 {
        lemma_flush_raw_front(c);
        lemma_lead_agrees(e.buf, c.buf, c.storage, c.offs as nat);
    }
    assert(stored(e) == stored(c));
    let d = with_raw_bits(c, v, n);
    assert(stored(d) == stored(e));
    assert(emitted(d) == emitted(c));
    lemma_pow2_adds(e.nend_bits as nat, n as nat);
    lemma_pow2_pos(e.nend_bits as nat);
    let p: int = pow2(e.nend_bits as nat) as int;
    let q: int = pow2(n as nat) as int;
    let w: int = e.end_window;
    assert(0 <= w + v * p < p * q) by (nonlinear_arith)
        requires
            0 <= w < p,
            0 <= v < q,
    ;
}

proof fn lemma_narrowed_keeps_raw(c: CoderView, i: Item)
    requires
        between(c),
        can_be_coded(i),
        c.ext + 3 <= u32::MAX,
        !item_narrowed(c, i).error,
    ensures
        between(item_narrowed(c, i)),
        item_narrowed(c, i).ext <= c.ext + 3,
        item_narrowed(c, i).storage == c.storage,
        item_narrowed(c, i).buf.len() == c.buf.len(),
{
    let (lo, hi) = item_part(c.rng, i);
    lemma_item_part(c.rng, i);
    let e = cut(c, lo, hi);
    lemma_cut(c, lo, hi);
    lemma_few_shifts(e.rng);
    lemma_settle_out_value(e);
    lemma_settle_out_raw(e);
}

proof fn lemma_settle_out_raw(c: CoderView)
    requires
        sound(c),
        c.ext + shifts(c.rng) <= u32::MAX,
        !settle_out(c).error,
    ensures
        settle_out(c).end_window == c.end_window,
        settle_out(c).nend_bits == c.nend_bits,
    decreases 0x8000_0001 - c.rng,
{
    if c.rng <= 0x80_0000 {
        let e = shift_out(c);
        if e.error {
            lemma_settle_out_error(e);
        }
        lemma_shift_out(c);
        let sym = c.val / 0x80_0000;
        if c.rem == -1 {
            let p = p256(c.ext as nat);
            assert(stored(c) == 0);
            assert((0 + 1) * p == p) by (nonlinear_arith);
            assert(emitted_count(c) == c.ext);
        }
        lemma_carry_out_value(c, sym);
        lemma_settle_out_raw(e);
    }
}

proof fn lemma_item_keeps(c: CoderView, i: Item)
    requires
        between(c),
        can_be_coded(i),
        c.ext + 3 <= u32::MAX,
        !item_written(c, i).error,
    ensures
        ({
            let d = item_written(c, i);
            let e = item_narrowed(c, i);
            &&& between(d)
            &&& !e.error
            &&& d.ext <= c.ext + 3
            &&& d.storage == c.storage && d.buf.len() == c.buf.len()
            &&& low(d) == low(e) && d.rng == e.rng && emitted_count(d) == emitted_count(e)
        }),
{
    lemma_item_written(c, i);
    let e = item_narrowed(c, i);
    let (v, n) = item_raw(i);
    if n > 0 {
        if e.error {
            lemma_with_raw_error(e, v, n);
        }
        lemma_narrowed_keeps_raw(c, i);
        match i {
            Item::Number(x, ft) => {
                lemma_number_split(x, ft);
            },
            _ => {},
        }
        lemma_with_raw(e, v, n);
    } else {
        lemma_narrowed_keeps_raw(c, i);
    }
}

/// The code of a whole message lies in the interval at every point of it.
proof fn lemma_written_holds(c: CoderView, items: Seq<Item>)
    requires
        between(c),
        forall|j: int| 0 <= j < items.len() ==> can_be_coded(#[trigger] items[j]),
        c.ext + 3 * items.len() + 3 <= u32::MAX,
        !finished(written(c, items)).error,
    ensures
        holds(c, finished(written(c, items)).buf, c.storage),
        finished(written(c, items)).buf.len() == c.buf.len(),
        written(c, items).storage == c.storage,
    decreases items.len(),
{
    let buf = finished(written(c, items)).buf;
    if items.len() == 0 {
        lemma_finished_holds(c);
        lemma_finished_front(c);
    } else {
        let i = items[0];
        let rest = items.drop_first();
        let d = item_written(c, i);
        if d.error {
            lemma_written_error(d, rest);
            lemma_finished_error(written(d, rest));
        }
        lemma_item_keeps(c, i);
        assert forall|j: int| 0 <= j < rest.len() implies can_be_coded(#[trigger] rest[j]) by {
            assert(rest[j] == items[j + 1]);
        }
        lemma_written_holds(d, rest);
        let e = item_narrowed(c, i);
        assert(holds(e, buf, c.storage));
        let (lo, hi) = item_part(c.rng, i);
        lemma_item_part(c.rng, i);
        let f = cut(c, lo, hi);
        lemma_cut(c, lo, hi);
        lemma_few_shifts(f.rng);
        lemma_holds_before_settling(f, buf, c.storage);
    }
}

// ---------------------------------------------------------------------------
// Raw bits
// ---------------------------------------------------------------------------
/// The last `n` bytes in use as one number, the last of them lowest.
pub open spec fn back_value(buf: Seq<u8>, storage: int, n: nat) -> int
    decreases n,
{
    if n == 0 {
        0
    } else {
        back_value(buf, storage, (n - 1) as nat) + byte_at(buf, storage, storage - n) * p256(
            (n - 1) as nat,
        )
    }
}

/// All the raw bits an encoder was given, as one number, the first lowest.
pub open spec fn raw_sum(c: CoderView) -> int {
    back_value(c.buf, c.storage, c.end_offs as nat) + c.end_window * p256(c.end_offs as nat)
}

/// How many they are.
pub open spec fn raw_count(c: CoderView) -> int {
    8 * c.end_offs + c.nend_bits
}

proof fn lemma_p256_is_a_power_of_two(n: nat)
    ensures
        p256(n) == pow2(8 * n),
    decreases n,
{
    lemma2_to64();
    if n > 0 {
        lemma_p256_is_a_power_of_two((n - 1) as nat);
        lemma_pow2_adds(8, (8 * (n - 1)) as nat);
    }
}

proof fn lemma_back_bound(buf: Seq<u8>, storage: int, n: nat)
    requires
        storage <= buf.len(),
    ensures
        0 <= back_value(buf, storage, n) < p256(n),
    decreases n,
{
    if n > 0 {
        lemma_back_bound(buf, storage, (n - 1) as nat);
        let p = p256((n - 1) as nat);
        let b = byte_at(buf, storage, storage - n);
        let x = back_value(buf, storage, (n - 1) as nat);
        assert(0 <= x + b * p < 256 * p) by (nonlinear_arith)
            requires
                0 <= x < p,
                0 <= b <= 255,
        ;
    }
}

proof fn lemma_back_agrees(a: Seq<u8>, b: Seq<u8>, storage: int, n: nat)
    requires
        forall|i: int| storage - n <= i < storage && 0 <= i ==> #[trigger] a[i] == b[i],
    ensures
        back_value(a, storage, n) == back_value(b, storage, n),
    decreases n,
{
    if n > 0 {
        lemma_back_agrees(a, b, storage, (n - 1) as nat);
        if 0 <= storage - n {
            assert(a[storage - n] == b[storage - n]);
        }
    }
}

/// The bytes further back are the number's higher digits.
proof fn lemma_back_prefix(buf: Seq<u8>, storage: int, m: nat, n: nat)
    requires
        storage <= buf.len(),
        m <= n,
    ensures
        back_value(buf, storage, n) % p256(m) == back_value(buf, storage, m),
    decreases n,
{
    lemma_back_bound(buf, storage, m);
    lemma_p256_is_positive(m);
    if m == n {
        lemma_small_mod(back_value(buf, storage, m) as nat, p256(m) as nat);
    } else {
        lemma_back_prefix(buf, storage, m, (n - 1) as nat);
        lemma_p256_splits(m, (n - 1 - m) as nat);
        let q = p256(m);
        let r = p256((n - 1 - m) as nat);
        let x = back_value(buf, storage, (n - 1) as nat);
        let b = byte_at(buf, storage, storage - n);
        assert(b * (q * r) == q * (b * r)) by (nonlinear_arith);
        lemma_mod_multiples_vanish(b * r, x, q);
    }
}

proof fn lemma_p256_splits(a: nat, b: nat)
    ensures
        p256(a + b) == p256(a) * p256(b),
    decreases b,
{
    if b > 0 {
        lemma_p256_splits(a, (b - 1) as nat);
        let x = p256(a);
        let y = p256((b - 1) as nat);
        assert(p256(a + b) == 256 * p256((a + b - 1) as nat));
        assert(256 * (x * y) == x * (256 * y)) by (nonlinear_arith);
    } else {
        let x = p256(a);
        assert(x * 1 == x) by (nonlinear_arith);
    }
}

/// Flushing raw bits moves them without changing them.
proof fn lemma_flush_raw_sum(c: CoderView)
    requires
        writable(c),
        raw_held(c),
        !flush_raw(c).error,
    ensures
        raw_sum(flush_raw(c)) == raw_sum(c),
        raw_count(flush_raw(c)) == raw_count(c),
    decreases c.nend_bits,
{
    if c.nend_bits >= 8 {
        let b = c.end_window % 256;
        let e = put_back(c, b);
        let f = CoderView { end_window: c.end_window / 256, nend_bits: c.nend_bits - 8, ..e };
        if e.error {
            lemma_flush_raw_error(f);
        }
        lemma2_to64();
        lemma_pow2_adds(8, (c.nend_bits - 8) as nat);
        let w: int = c.end_window;
        let p: int = pow2((c.nend_bits - 8) as nat) as int;
        assert(0 <= w / 256 < p) by (nonlinear_arith)
            requires
                0 <= w < 256 * p,
        ;
        lemma_flush_raw_sum(f);
        let n = c.end_offs as nat;
        lemma_back_agrees(e.buf, c.buf, c.storage, n);
        let q = p256(n);
        assert(f.buf[c.storage - (n + 1)] == b as u8);
        assert(back_value(f.buf, c.storage, n + 1) == back_value(c.buf, c.storage, n) + b * q);
        assert(b * q + (w / 256) * (256 * q) == w * q) by (nonlinear_arith)
            requires
                b == w % 256,
        ;
    }
}

/// Raw bits join those before them.
proof fn lemma_with_raw_sum(c: CoderView, v: int, n: int)
    requires
        writable(c),
        raw_held(c),
        0 <= n,
        !with_raw_bits(c, v, n).error,
    ensures
        raw_sum(with_raw_bits(c, v, n)) == raw_sum(c) + v * pow2(raw_count(c) as nat),
        raw_count(with_raw_bits(c, v, n)) == raw_count(c) + n,
{
    let e = if c.nend_bits + n > 32 {
        flush_raw(c)
    } else {
        c
    };
    if c.nend_bits + n > 32 {
        lemma_flush_raw_sum(c);
        lemma_flush_raw_front(c);
    }
    let d = with_raw_bits(c, v, n);
    let k = e.end_offs as nat;
    lemma_p256_is_a_power_of_two(k);
    lemma_pow2_adds(e.nend_bits as nat, 8 * k);
    let p: int = pow2(e.nend_bits as nat) as int;
    let q = p256(k);
    let w: int = e.end_window;
    assert((w + v * p) * q == w * q + v * (p * q)) by (nonlinear_arith);
    assert(raw_count(e) == raw_count(c));
}

/// Whether two states hold the same raw bits.
pub open spec fn same_raw(a: CoderView, b: CoderView) -> bool {
    &&& a.storage == b.storage && a.end_offs == b.end_offs
    &&& a.end_window == b.end_window && a.nend_bits == b.nend_bits
    &&& a.buf.len() == b.buf.len()
    &&& forall|i: int| a.storage - a.end_offs <= i < a.storage ==> #[trigger] a.buf[i] == b.buf[i]
}

proof fn lemma_same_raw_sum(a: CoderView, b: CoderView)
    requires
        same_raw(a, b),
        0 <= a.end_offs,
    ensures
        raw_sum(a) == raw_sum(b),
        raw_count(a) == raw_count(b),
{
    lemma_back_agrees(a.buf, b.buf, a.storage, a.end_offs as nat);
}

proof fn lemma_put_waiting_keeps_raw(c: CoderView, carry: int)
    requires
        writable(c),
    ensures
        same_raw(put_waiting(c, carry), c),
        writable(put_waiting(c, carry)),
    decreases c.ext,
{
    if c.ext > 0 {
        let d = put_front(c, (255 + carry) % 256);
        lemma_put_waiting_keeps_raw(CoderView { ext: c.ext - 1, ..d }, carry);
    }
}

proof fn lemma_carry_out_keeps_raw(c: CoderView, sym: int)
    requires
        writable(c),
        0 <= sym <= 511,
    ensures
        same_raw(carry_out(c, sym), c),
        writable(carry_out(c, sym)),
{
    if sym != 255 {
        let carry = sym / 256;
        let d = if c.rem >= 0 {
            put_front(c, (c.rem + carry) % 256)
        } else {
            c
        };
        lemma_put_waiting_keeps_raw(d, carry);
    }
}

proof fn lemma_settle_out_keeps_raw(c: CoderView)
    requires
        writable(c),
        0 <= c.val,
        c.val + c.rng <= u32::MAX,
        0 < c.rng <= 0x8000_0000,
    ensures
        same_raw(settle_out(c), c),
    decreases 0x8000_0001 - c.rng,
{
    if c.rng <= 0x80_0000 {
        lemma_carry_out_keeps_raw(c, c.val / 0x80_0000);
        lemma_settle_out_keeps_raw(shift_out(c));
    }
}

proof fn lemma_put_code_keeps_raw(c: CoderView, x: int, n: int)
    requires
        writable(c),
        0 <= x <= u32::MAX,
    ensures
        same_raw(put_code(c, x, n), c),
        writable(put_code(c, x, n)),
    decreases n + 8,
{
    if n > 0 {
        lemma_carry_out_keeps_raw(c, x / 0x80_0000);
        lemma_put_code_keeps_raw(
            carry_out(c, x / 0x80_0000),
            (x * 256) % 0x8000_0000,
            n - 8,
        );
    }
}

/// The bytes at the back of a finished buffer that hold raw bits.
pub open spec fn raw_bytes(c: CoderView) -> nat {
    let d = flush_raw(symbols_written(c));
    (d.end_offs + (if d.nend_bits > 0 {
        1int
    } else {
        0
    })) as nat
}

/// The raw bits stand at the back of a finished buffer.
proof fn lemma_finished_raw(c: CoderView)
    requires
        between(c),
        c.ext + 3 <= u32::MAX,
        !finished(c).error,
    ensures
        0 <= raw_sum(c) < pow2(raw_count(c) as nat),
        raw_count(c) <= 8 * raw_bytes(c),
        back_value(finished(c).buf, c.storage, raw_bytes(c)) % (pow2(raw_count(c) as nat) as int)
            == raw_sum(c),
{
    let f = finished(c);
    let w = symbols_written(c);
    let d = flush_raw(w);
    lemma_finished_front(c);
    lemma_symbols_written(c);
    lemma_final_code_bound(c);
    let k = free_bits(c);
    lemma_put_code_keeps_raw(c, final_code(c), 31 - k);
    lemma_carry_out_keeps_raw(put_code(c, final_code(c), 31 - k), 0);
    assert(same_raw(w, c));
    lemma_same_raw_sum(w, c);
    lemma_flush_raw_sum(w);
    lemma_flush_raw_front(w);
    let e = d.end_offs as nat;
    lemma_back_agrees(f.buf, d.buf, c.storage, e);
    lemma_back_bound(d.buf, c.storage, e);
    lemma_p256_is_a_power_of_two(e);
    let x = back_value(d.buf, c.storage, e);
    let p = p256(e);
    let nb = d.nend_bits as nat;
    let q: int = pow2(nb) as int;
    let win: int = d.end_window;
    lemma_pow2_adds(8 * e, nb);
    lemma_pow2_pos(nb);
    lemma_pow2_pos(8 * e);
    let all: int = pow2(raw_count(c) as nat) as int;
    assert(all == p * q);
    assert(raw_sum(c) == x + win * p);
    assert(0 <= x + win * p < p * q) by (nonlinear_arith)
        requires
            0 <= x < p,
            0 <= win < q,
    ;
    lemma_small_mod(raw_sum(c) as nat, all as nat);
    if d.nend_bits > 0 {
        let at = d.storage - d.end_offs - 1;
        let b = f.buf[at] as int;
        let h = b / q;
        assert(b == h * q + win) by (nonlinear_arith)
            requires
                h == b / q,
                b % q == win,
                q > 0,
        ;
        assert(back_value(f.buf, c.storage, e + 1) == x + b * p);
        assert(x + (h * q + win) * p == (p * q) * h + (x + win * p)) by (nonlinear_arith);
        lemma_mod_multiples_vanish(h, raw_sum(c), all);
    } else {
        lemma2_to64();
        assert(win == 0);
        assert(0 * p == 0) by (nonlinear_arith);
    }
}

// ---------------------------------------------------------------------------
// Reading raw bits
// ---------------------------------------------------------------------------
/// The bytes a decoder has fetched from the back once `k` raw bits are read.
pub open spec fn fetched(d: CoderView, k: int) -> int {
    (k + d.nend_bits) / 8
}

/// Whether a decoder holds the raw bits of a buffer from bit `k` on.
pub open spec fn raw_at(d: CoderView, buf: Seq<u8>, storage: int, k: int) -> bool {
    let t = fetched(d, k);
    &&& d.buf == buf
    &&& d.storage == storage
    &&& 0 <= k
    &&& 0 <= d.nend_bits <= 32
    &&& k + d.nend_bits == 8 * t
    &&& d.end_offs == if t < storage {
        t
    } else {
        storage
    }
    &&& d.end_window == back_value(buf, storage, t as nat) / (pow2(k as nat) as int)
}

proof fn lemma_refill_raw_at(d: CoderView, buf: Seq<u8>, storage: int, k: int)
    requires
        raw_at(d, buf, storage, k),
        d.nend_bits <= 24,
        0 <= storage <= buf.len(),
    ensures
        raw_at(refill_raw(d), buf, storage, k),
{
    let t = fetched(d, k);
    let e = refill_raw(d);
    assert(fetched(e, k) == t + 1);
    let b = byte_at(buf, storage, storage - (t + 1));
    assert(back_byte(d) == b);
    let x = back_value(buf, storage, t as nat);
    lemma_back_bound(buf, storage, t as nat);
    lemma_p256_is_a_power_of_two(t as nat);
    lemma_pow2_adds(k as nat, d.nend_bits as nat);
    lemma_pow2_pos(k as nat);
    let p: int = pow2(k as nat) as int;
    let q: int = pow2(d.nend_bits as nat) as int;
    assert(back_value(buf, storage, (t + 1) as nat) == x + b * (p * q));
    assert(b * (p * q) == (b * q) * p) by (nonlinear_arith);
    lemma_div_adds_multiple(x, b * q, p);
}

proof fn lemma_div_adds_multiple(x: int, y: int, p: int)
    requires
        p > 0,
    ensures
        (x + y * p) / p == x / p + y,
{
    assert((x + y * p) / p == x / p + y) by (nonlinear_arith)
        requires
            p > 0,
    ;
}

proof fn lemma_settle_raw_at(d: CoderView, buf: Seq<u8>, storage: int, k: int)
    requires
        raw_at(d, buf, storage, k),
        0 <= storage <= buf.len(),
    ensures
        raw_at(settle_raw(d), buf, storage, k),
        settle_raw(d).nend_bits > 24,
    decreases 33 - d.nend_bits,
{
    if d.nend_bits <= 24 {
        lemma_refill_raw_at(d, buf, storage, k);
        lemma_settle_raw_at(refill_raw(d), buf, storage, k);
    }
}

/// A decoder reads the bits that stand there.
proof fn lemma_after_raw_at(d: CoderView, buf: Seq<u8>, storage: int, k: int, n: int)
    requires
        raw_at(d, buf, storage, k),
        0 <= storage <= buf.len(),
        0 <= n <= 24,
    ensures
        raw_at(after_raw(d, n), buf, storage, k + n),
        ({
            let t = fetched(with_raw(d, n), k);
            &&& 8 * t >= k + n
            &&& raw_value(d, n) == back_value(buf, storage, t as nat) / (pow2(k as nat) as int) % (
            pow2(n as nat) as int)
        }),
{
    if d.nend_bits < n {
        lemma_settle_raw_at(d, buf, storage, k);
    }
    let u = with_raw(d, n);
    assert(raw_at(u, buf, storage, k));
    let t = fetched(u, k);
    let e = after_raw(d, n);
    assert(fetched(e, k + n) == t);
    lemma_pow2_adds(k as nat, n as nat);
    lemma_pow2_pos(k as nat);
    lemma_pow2_pos(n as nat);
    lemma_back_bound(buf, storage, t as nat);
    lemma_div_denominator(
        back_value(buf, storage, t as nat),
        pow2(k as nat) as int,
        pow2(n as nat) as int,
    );
}

/// Bits `k` to `k + n` of a number are those of its low `k + n` bits.
proof fn lemma_middle_bits(x: int, k: nat, n: nat)
    requires
        0 <= x,
    ensures
        x / (pow2(k) as int) % (pow2(n) as int) == x % (pow2(k + n) as int) / (pow2(k) as int),
{
    lemma_pow2_adds(k, n);
    lemma_pow2_pos(k);
    lemma_pow2_pos(n);
    let p: int = pow2(k) as int;
    let q: int = pow2(n) as int;
    lemma_mod_breakdown(x, p, q);
    // x % (p * q) == p * ((x / p) % q) + x % p
    let y = x / p % q;
    assert(0 <= x % p < p) by (nonlinear_arith)
        requires
            p > 0,
    ;
    assert((p * y + x % p) / p == y) by (nonlinear_arith)
        requires
            0 <= x % p < p,
            p > 0,
    ;
}

/// Two stretches of the same bytes agree in the bits that both have.
proof fn lemma_low_bits_agree(buf: Seq<u8>, storage: int, s: nat, t: nat, n: nat)
    requires
        storage <= buf.len(),
        n <= 8 * s,
        n <= 8 * t,
    ensures
        back_value(buf, storage, s) % (pow2(n) as int) == back_value(buf, storage, t) % (pow2(
            n,
        ) as int),
{
    let m = if s < t {
        s
    } else {
        t
    };
    lemma_back_prefix(buf, storage, m, s);
    lemma_back_prefix(buf, storage, m, t);
    lemma_p256_is_a_power_of_two(m);
    lemma_pow2_adds(n, (8 * m - n) as nat);
    lemma_pow2_pos(n);
    lemma_pow2_pos((8 * m - n) as nat);
    let p: int = pow2(n) as int;
    let q: int = pow2((8 * m - n) as nat) as int;
    lemma_mod_mod(back_value(buf, storage, s), p, q);
    lemma_mod_mod(back_value(buf, storage, t), p, q);
}

// ---------------------------------------------------------------------------
// The law
// ---------------------------------------------------------------------------
/// The decoder behind a message.
pub open spec fn after_items(d: CoderView, items: Seq<Item>) -> CoderView
    decreases items.len(),
{
    if items.len() == 0 {
        d
    } else {
        after_items(after_item(d, items[0]), items.drop_first())
    }
}

proof fn lemma_raw_bound(c: CoderView)
    requires
        writable(c),
        raw_held(c),
    ensures
        0 <= raw_sum(c) < pow2(raw_count(c) as nat),
{
    let e = c.end_offs as nat;
    let nb = c.nend_bits as nat;
    lemma_back_bound(c.buf, c.storage, e);
    lemma_p256_is_a_power_of_two(e);
    lemma_pow2_adds(8 * e, nb);
    let x = back_value(c.buf, c.storage, e);
    let p = p256(e);
    let q: int = pow2(nb) as int;
    let w: int = c.end_window;
    assert(0 <= x + w * p < p * q) by (nonlinear_arith)
        requires
            0 <= x < p,
            0 <= w < q,
    ;
}

/// An item's raw bits join those before it.
proof fn lemma_item_raw_sum(c: CoderView, i: Item)
    requires
        between(c),
        can_be_coded(i),
        c.ext + 3 <= u32::MAX,
        !item_written(c, i).error,
    ensures
        raw_sum(item_written(c, i)) == raw_sum(c) + item_raw(i).0 * pow2(raw_count(c) as nat),
        raw_count(item_written(c, i)) == raw_count(c) + item_raw(i).1,
        0 <= item_raw(i).1 <= 24,
        0 <= item_raw(i).0 < pow2(item_raw(i).1 as nat),
{
    lemma_item_keeps(c, i);
    lemma_item_written(c, i);
    lemma_narrowed_keeps_raw(c, i);
    let (lo, hi) = item_part(c.rng, i);
    lemma_item_part(c.rng, i);
    lemma_cut(c, lo, hi);
    lemma_settle_out_keeps_raw(cut(c, lo, hi));
    let e = item_narrowed(c, i);
    assert(same_raw(e, c));
    lemma_same_raw_sum(e, c);
    let (v, n) = item_raw(i);
    match i {
        Item::Number(x, ft) => {
            lemma_number_split(x, ft);
        },
        _ => {
            lemma2_to64();
        },
    }
    if n > 0 {
        lemma_with_raw_sum(e, v, n);
    } else {
        lemma2_to64();
        let p: int = pow2(raw_count(c) as nat) as int;
        assert(v == 0);
        assert(0 * p == 0) by (nonlinear_arith);
    }
}

/// What was put in as raw bits stays at the bottom of what is put in later.
proof fn lemma_raw_prefix(c: CoderView, items: Seq<Item>)
    requires
        between(c),
        forall|j: int| 0 <= j < items.len() ==> can_be_coded(#[trigger] items[j]),
        c.ext + 3 * items.len() + 3 <= u32::MAX,
        !written(c, items).error,
    ensures
        between(written(c, items)),
        written(c, items).ext + 3 <= u32::MAX,
        written(c, items).storage == c.storage,
        raw_count(c) <= raw_count(written(c, items)),
        raw_sum(written(c, items)) % (pow2(raw_count(c) as nat) as int) == raw_sum(c),
    decreases items.len(),
{
    lemma_raw_bound(c);
    if items.len() == 0 {
        lemma_small_mod(raw_sum(c) as nat, pow2(raw_count(c) as nat));
    } else {
        let i = items[0];
        let rest = items.drop_first();
        let d = item_written(c, i);
        if d.error {
            lemma_written_error(d, rest);
        }
        lemma_item_keeps(c, i);
        assert forall|j: int| 0 <= j < rest.len() implies can_be_coded(#[trigger] rest[j]) by {
            assert(rest[j] == items[j + 1]);
        }
        lemma_raw_prefix(d, rest);
        lemma_item_raw_sum(c, i);
        let (v, n) = item_raw(i);
        let k = raw_count(c) as nat;
        lemma_pow2_adds(k, n as nat);
        lemma_pow2_pos(k);
        lemma_pow2_pos(n as nat);
        let p: int = pow2(k) as int;
        let q: int = pow2(n as nat) as int;
        let x = raw_sum(written(c, items));
        lemma_mod_mod(x, p, q);
        assert(raw_sum(d) % p == raw_sum(c)) by {
            assert(v * p == p * v) by (nonlinear_arith);
            lemma_mod_multiples_vanish(v, raw_sum(c), p);
            lemma_small_mod(raw_sum(c) as nat, p as nat);
        }
    }
}

proof fn lemma_symbol_found(t: Seq<u8>, z: int, r: int, val: int, s: int, k: int)
    requires
        ends_at(t, z),
        0 <= k <= s <= z,
        r > 0,
        r * t[s] <= val,
        s > 0 ==> val < r * t[s - 1],
    ensures
        symbol_from(t, r, val, k) == s,
    decreases s - k,
{
    if k < s {
        if k < s - 1 {
            lemma_table_falls(t, z, k, s - 1);
        }
        let a: int = t[k] as int;
        let b: int = t[s - 1] as int;
        assert(r * b <= r * a) by (nonlinear_arith)
            requires
                b <= a,
                r > 0,
        ;
        lemma_symbol_found(t, z, r, val, s, k + 1);
    }
}

proof fn lemma_settle_keeps_raw(d: CoderView)
    ensures
        settle(d).buf == d.buf,
        settle(d).storage == d.storage,
        settle(d).end_offs == d.end_offs,
        settle(d).end_window == d.end_window,
        settle(d).nend_bits == d.nend_bits,
    decreases 0x8000_0001 - d.rng,
{
    if 0 < d.rng <= 0x80_0000 {
        lemma_settle_keeps_raw(refill(d));
    }
}

/// A code in an item's part of the interval reads as the top of that item.
proof fn lemma_top_is_read(d: CoderView, i: Item)
    requires
        d.rng > 0x80_0000,
        can_be_coded(i),
        item_part(d.rng, i).0 <= d.val < item_part(d.rng, i).1,
    ensures
        match i {
            Item::Symbol(t, s) => {
                &&& icdf_symbol(d, t) == s
                &&& after_icdf(d, t) == narrowed(d, item_part(d.rng, i).0, item_part(d.rng, i).1)
            },
            Item::Number(v, ft) => {
                let p = pow2(uint_raw_bits(ft) as nat) as int;
                &&& uniform_symbol(d, uint_top(ft)) == v / p
                &&& after_uniform(d, uint_top(ft)) == narrowed(
                    d,
                    item_part(d.rng, i).0,
                    item_part(d.rng, i).1,
                )
            },
        },
{
    match i {
        Item::Symbol(t, s) => {
            let z = choose|z: int| #[trigger] ends_at(t, z) && 0 <= s <= z;
            lemma_symbol_found(t, z, d.rng / 256, d.val, s, 0);
        },
        Item::Number(v, ft) => {
            lemma_number_split(v, ft);
            let p = pow2(uint_raw_bits(ft) as nat) as int;
            let top = uint_top(ft);
            let q = v / p;
            let r = d.rng / top;
            let val = d.val;
            assert(r > 0) by (nonlinear_arith)
                requires
                    r == d.rng / top,
                    2 <= top <= 256,
                    d.rng > 0x80_0000,
            ;
            if q > 0 {
                assert(val / r == top - q - 1) by (nonlinear_arith)
                    requires
                        r * (top - q - 1) <= val < r * (top - q - 1) + r,
                        r > 0,
                ;
            } else {
                assert(val / r >= top - 1) by (nonlinear_arith)
                    requires
                        r * (top - 1) <= val,
                        r > 0,
                ;
            }
        },
    }
}

/// The raw bits that are read for an item are those that were written.
proof fn lemma_raw_is_read(d: CoderView, c: CoderView, i: Item, rest: Seq<Item>, buf: Seq<u8>)
    requires
        between(c),
        can_be_coded(i),
        forall|j: int| 0 <= j < rest.len() ==> can_be_coded(#[trigger] rest[j]),
        c.ext + 3 * rest.len() + 6 <= u32::MAX,
        !finished(written(item_written(c, i), rest)).error,
        buf == finished(written(item_written(c, i), rest)).buf,
        0 <= c.storage <= buf.len(),
        raw_at(d, buf, c.storage, raw_count(c)),
    ensures
        raw_value(d, item_raw(i).1) == item_raw(i).0,
        raw_at(after_raw(d, item_raw(i).1), buf, c.storage, raw_count(c) + item_raw(i).1),
{
    let (v, n) = item_raw(i);
    let next = item_written(c, i);
    let last = written(next, rest);
    if last.error {
        lemma_finished_error(last);
    }
    if next.error {
        lemma_written_error(next, rest);
    }
    lemma_item_keeps(c, i);
    lemma_item_raw_sum(c, i);
    lemma_raw_prefix(next, rest);
    lemma_finished_raw(last);
    let k = raw_count(c) as nat;
    let kn = (k + n) as nat;
    lemma_after_raw_at(d, buf, c.storage, k as int, n);
    let t = fetched(with_raw(d, n), k as int) as nat;
    let m = raw_bytes(last);
    let x = back_value(buf, c.storage, t);
    let y = back_value(buf, c.storage, m);
    lemma_back_bound(buf, c.storage, t);
    lemma_back_bound(buf, c.storage, m);
    lemma_middle_bits(x, k, n as nat);
    lemma_low_bits_agree(buf, c.storage, t, m, kn);
    let bits = raw_count(last) as nat;
    lemma_pow2_adds(kn, (bits - kn) as nat);
    lemma_pow2_pos(kn);
    lemma_pow2_pos(k);
    lemma_pow2_pos((bits - kn) as nat);
    lemma_mod_mod(y, pow2(kn) as int, pow2((bits - kn) as nat) as int);
    assert(y % (pow2(kn) as int) == raw_sum(next));
    lemma_raw_bound(c);
    let p: int = pow2(k) as int;
    let r = raw_sum(c);
    assert((r + v * p) / p == v) by (nonlinear_arith)
        requires
            0 <= r < p,
    ;
}

/// A decoder beside the encoder reads on as the encoder wrote.
proof fn lemma_reads_on(d: CoderView, c: CoderView, items: Seq<Item>, buf: Seq<u8>)
    requires
        between(c),
        forall|j: int| 0 <= j < items.len() ==> can_be_coded(#[trigger] items[j]),
        c.ext + 3 * items.len() + 3 <= u32::MAX,
        !finished(written(c, items)).error,
        buf == finished(written(c, items)).buf,
        0 <= c.storage <= buf.len(),
        beside(d, c, buf, c.storage),
        raw_at(d, buf, c.storage, raw_count(c)),
    ensures
        reads_back(d, items),
        after_items(d, items).rng == written(c, items).rng,
        after_items(d, items).nbits_total == written(c, items).nbits_total,
    decreases items.len(),
{
    if items.len() > 0 {
        let i = items[0];
        let rest = items.drop_first();
        let next = item_written(c, i);
        if next.error {
            lemma_written_error(next, rest);
            lemma_finished_error(written(next, rest));
        }
        lemma_item_keeps(c, i);
        lemma_item_written(c, i);
        assert forall|j: int| 0 <= j < rest.len() implies can_be_coded(#[trigger] rest[j]) by {
            assert(rest[j] == items[j + 1]);
        }
        lemma_written_holds(next, rest);
        let e = item_narrowed(c, i);
        let (lo, hi) = item_part(c.rng, i);
        lemma_item_part(c.rng, i);
        assert(holds(e, buf, c.storage));
        lemma_narrowed_beside(d, c, lo, hi, buf, c.storage);
        lemma_top_is_read(d, i);
        let u = narrowed(d, lo, hi);
        lemma_settle_keeps_raw(CoderView { val: d.val - lo, rng: hi - lo, ..d });
        lemma_raw_is_read(u, c, i, rest, buf);
        lemma_item_raw_sum(c, i);
        let (v, n) = item_raw(i);
        match i {
            Item::Symbol(t, s) => {
                assert(after_item(d, i) == u);
            },
            Item::Number(x, ft) => {
                lemma_number_split(x, ft);
                if n > 0 {
                    lemma_narrowed_keeps_raw(c, i);
                    lemma_with_raw(e, v, n);
                    lemma_with_raw_keeps_front(u, n);
                } else {
                    lemma2_to64();
                    assert(v == 0);
                    assert(x / 1 == x);
                    assert(x * 1 == x);
                }
            },
        }
        assert(item_read(d, i) == item_value(i));
        let after = after_item(d, i);
        assert(beside(after, next, buf, c.storage));
        assert(raw_at(after, buf, c.storage, raw_count(next)));
        lemma_reads_on(after, next, rest, buf);
    }
}

proof fn lemma_with_raw_keeps_front(d: CoderView, n: int)
    ensures
        ({
            let e = after_raw(d, n);
            &&& e.buf == d.buf && e.storage == d.storage && e.offs == d.offs
            &&& e.rem == d.rem && e.rng == d.rng && e.val == d.val
            &&& e.nbits_total == add_bits(d.nbits_total, n)
            &&& e.error == d.error
        }),
{
    if d.nend_bits < n {
        lemma_settle_raw_keeps_front(d);
    }
}

proof fn lemma_settle_raw_keeps_front(d: CoderView)
    ensures
        ({
            let e = settle_raw(d);
            &&& e.buf == d.buf && e.storage == d.storage && e.offs == d.offs
            &&& e.rem == d.rem && e.rng == d.rng && e.val == d.val
            &&& e.nbits_total == d.nbits_total && e.error == d.error
        }),
    decreases 33 - d.nend_bits,
{
    if d.nend_bits <= 24 {
        lemma_settle_raw_keeps_front(refill_raw(d));
    }
}

/// What is written is read: a message that a fresh encoder of `size` bytes has
/// room for comes back from its buffer item by item, and the decoder ends where
/// the encoder ended, with the same interval and the same bits used.
///
/// The bound on the length of the message keeps the encoder's counter of waiting
/// bytes from running over.
pub proof fn law_what_is_written_is_read(size: int, items: Seq<Item>)
    requires
        0 <= size <= u32::MAX,
        items.len() <= 0x1000_0000,
        forall|j: int| 0 <= j < items.len() ==> can_be_coded(#[trigger] items[j]),
        !finished(written(encoder_start(size), items)).error,
    ensures
        ({
            let last = written(encoder_start(size), items);
            let d = decoder_start(finished(last).buf);
            &&& reads_back(d, items)
            &&& after_items(d, items).rng == last.rng
            &&& after_items(d, items).nbits_total == last.nbits_total
        }),
{
    let c = encoder_start(size);
    let buf = finished(written(c, items)).buf;
    lemma2_to64();
    lemma_fresh_between(size);
    lemma_written_holds(c, items);
    lemma_fresh_beside(buf, size);
    let d = decoder_start(buf);
    lemma_fresh_raw(buf, size);
    lemma_reads_on(d, c, items, buf);
}

proof fn lemma_fresh_between(size: int)
    requires
        0 <= size <= u32::MAX,
    ensures
        between(encoder_start(size)),
        raw_count(encoder_start(size)) == 0,
{
    lemma2_to64();
    let c = encoder_start(size);
    assert(stored(c) == 0);
    assert(p256(0) == 1);
    assert(emitted(c) == 0);
}

proof fn lemma_fresh_raw(buf: Seq<u8>, size: int)
    requires
        0 <= size == buf.len(),
    ensures
        raw_at(decoder_start(buf), buf, size, 0),
{
    lemma2_to64();
    let b = byte_at(buf, size, 0);
    let d0 = CoderView {
        buf,
        storage: size,
        offs: if size > 0 {
            1
        } else {
            0
        },
        end_offs: 0,
        end_window: 0,
        nend_bits: 0,
        nbits_total: 9,
        rng: 128,
        val: 127 - b / 2,
        ext: 0,
        rem: b,
        error: false,
    };
    assert(decoder_start(buf) == settle(d0));
    lemma_settle_keeps_raw(d0);
    assert(back_value(buf, size, 0) == 0);
}

// ---------------------------------------------------------------------------
// Room
// ---------------------------------------------------------------------------
/// The bits that an encoder has claimed at both ends.
pub open spec fn claimed_bits(c: CoderView) -> int {
    8 * emitted_count(c) + 8 * c.end_offs + c.nend_bits
}

proof fn lemma_waiting_has_room(c: CoderView, carry: int)
    requires
        writable(c),
        !c.error,
        c.offs + c.end_offs + c.ext <= c.storage,
    ensures
        ({
            let d = put_waiting(c, carry);
            &&& !d.error
            &&& d.offs == c.offs + c.ext
            &&& d.ext == 0
        }),
    decreases c.ext,
{
    if c.ext > 0 {
        let d = put_front(c, (255 + carry) % 256);
        lemma_waiting_has_room(CoderView { ext: c.ext - 1, ..d }, carry);
    }
}

proof fn lemma_carry_has_room(c: CoderView, sym: int)
    requires
        writable(c),
        !c.error,
        0 <= sym <= 511,
        emitted_count(c) + c.end_offs < c.storage,
    ensures
        !carry_out(c, sym).error,
        emitted_count(carry_out(c, sym)) == emitted_count(c) + 1,
        writable(carry_out(c, sym)),
        same_raw(carry_out(c, sym), c),
{
    lemma_carry_out_keeps_raw(c, sym);
    if sym != 255 {
        let carry = sym / 256;
        let d = if c.rem >= 0 {
            put_front(c, (c.rem + carry) % 256)
        } else {
            c
        };
        lemma_waiting_has_room(d, carry);
    }
}

proof fn lemma_settling_has_room(c: CoderView)
    requires
        writable(c),
        !c.error,
        0 <= c.val,
        c.val + c.rng <= u32::MAX,
        0 < c.rng <= 0x8000_0000,
        emitted_count(c) + c.end_offs + shifts(c.rng) <= c.storage,
    ensures
        !settle_out(c).error,
        emitted_count(settle_out(c)) == emitted_count(c) + shifts(c.rng),
        same_raw(settle_out(c), c),
    decreases 0x8000_0001 - c.rng,
{
    if c.rng <= 0x80_0000 {
        lemma_carry_has_room(c, c.val / 0x80_0000);
        lemma_settling_has_room(shift_out(c));
    }
}

proof fn lemma_flushing_has_room(c: CoderView)
    requires
        writable(c),
        !c.error,
        0 <= c.nend_bits,
        c.offs + c.end_offs + c.nend_bits / 8 <= c.storage,
    ensures
        ({
            let d = flush_raw(c);
            &&& !d.error
            &&& d.offs == c.offs && d.rem == c.rem && d.ext == c.ext && d.storage == c.storage
            &&& d.end_offs == c.end_offs + c.nend_bits / 8
            &&& d.nend_bits == c.nend_bits % 8
        }),
    decreases c.nend_bits,
{
    if c.nend_bits >= 8 {
        let d = put_back(c, c.end_window % 256);
        lemma_flushing_has_room(
            CoderView { end_window: c.end_window / 256, nend_bits: c.nend_bits - 8, ..d },
        );
    }
}

/// An item claims at most six bytes.
proof fn lemma_item_has_room(c: CoderView, i: Item)
    requires
        between(c),
        can_be_coded(i),
        claimed_bits(c) + 48 <= 8 * c.storage,
    ensures
        !item_written(c, i).error,
        claimed_bits(item_written(c, i)) <= claimed_bits(c) + 48,
        between(item_written(c, i)),
        item_written(c, i).storage == c.storage,
{
    lemma_item_written(c, i);
    let (lo, hi) = item_part(c.rng, i);
    lemma_item_part(c.rng, i);
    let e = cut(c, lo, hi);
    lemma_cut(c, lo, hi);
    lemma_few_shifts(e.rng);
    lemma_settling_has_room(e);
    let d = item_narrowed(c, i);
    let (v, n) = item_raw(i);
    lemma_narrowed_keeps_raw(c, i);
    if n > 0 {
        match i {
            Item::Number(x, ft) => {
                lemma_number_split(x, ft);
            },
            _ => {},
        }
        if d.nend_bits + n > 32 {
            lemma_flushing_has_room(d);
        }
    }
    lemma_item_keeps(c, i);
}

proof fn lemma_message_has_room(c: CoderView, items: Seq<Item>)
    requires
        between(c),
        forall|j: int| 0 <= j < items.len() ==> can_be_coded(#[trigger] items[j]),
        claimed_bits(c) + 48 * items.len() <= 8 * c.storage,
    ensures
        between(written(c, items)),
        claimed_bits(written(c, items)) <= claimed_bits(c) + 48 * items.len(),
        written(c, items).storage == c.storage,
    decreases items.len(),
{
    if items.len() > 0 {
        let rest = items.drop_first();
        assert(can_be_coded(items[0]));
        lemma_item_has_room(c, items[0]);
        assert forall|j: int| 0 <= j < rest.len() implies can_be_coded(#[trigger] rest[j]) by {
            assert(rest[j] == items[j + 1]);
        }
        lemma_message_has_room(item_written(c, items[0]), rest);
    }
}

/// The end of the code takes at most four bytes more.
proof fn lemma_end_has_room(c: CoderView)
    requires
        between(c),
        claimed_bits(c) + 40 <= 8 * c.storage,
    ensures
        !finished(c).error,
{
    lemma2_to64();
    lemma_final_code(c);
    lemma_final_code_bound(c);
    let k = free_bits(c);
    let x = final_code(c);
    let n = 31 - k;
    let y = (x * 256) % 0x8000_0000;
    let d = put_code(c, x, n);
    reveal_with_fuel(put_code, 3);
    assert(0 <= x / 0x80_0000 <= 511);
    assert(0 <= y / 0x80_0000 <= 255);
    if n > 0 {
        let c1 = carry_out(c, x / 0x80_0000);
        lemma_carry_has_room(c, x / 0x80_0000);
        if n > 8 {
            lemma_carry_has_room(c1, y / 0x80_0000);
        }
    }
    assert(writable(d) && !d.error && same_raw(d, c) && emitted_count(d) <= emitted_count(c) + 2);
    if d.rem >= 0 || d.ext > 0 {
        lemma_carry_has_room(d, 0);
    }
    let e = symbols_written(c);
    assert(e.offs <= emitted_count(e) <= emitted_count(c) + 3);
    lemma_flushing_has_room(e);
}

/// Six bytes for each item and five for the end of the code are room enough for
/// any message.
pub proof fn law_six_bytes_an_item_are_room_enough(size: int, items: Seq<Item>)
    requires
        0 <= size <= u32::MAX,
        forall|j: int| 0 <= j < items.len() ==> can_be_coded(#[trigger] items[j]),
        6 * items.len() + 5 <= size,
    ensures
        !finished(written(encoder_start(size), items)).error,
{
    lemma_fresh_between(size);
    lemma_message_has_room(encoder_start(size), items);
    lemma_end_has_room(written(encoder_start(size), items));
}

} // verus!
