//! The range coder (RFC 6716 sections 4.1 and 5.1).
//!
//! Symbols narrow an interval of which both sides keep 31 bits. They are
//! written from the front of the buffer; raw bits are packed from its back.

use vstd::arithmetic::power2::{
    lemma2_to64, lemma_pow2_adds, lemma_pow2_pos, lemma_pow2_strictly_increases,
    lemma_pow2_unfold, pow2,
};
use vstd::prelude::*;

verus! {

/// The coder's state, as numbers.
pub struct CoderView {
    /// The buffer.
    pub buf: Seq<u8>,
    /// The bytes of it in use.
    pub storage: int,
    /// Bytes read or written from the front.
    pub offs: int,
    /// Bytes read or written from the back.
    pub end_offs: int,
    /// Raw bits held back.
    pub end_window: int,
    /// How many raw bits are held back.
    pub nend_bits: int,
    /// The bits used so far, whole bytes of symbols counted in advance.
    pub nbits_total: int,
    /// The size of the interval.
    pub rng: int,
    /// Where the code lies in the interval, or where the interval begins.
    pub val: int,
    /// Bytes of 255 that wait for a carry.
    pub ext: int,
    /// The byte read last, or the one that waits to be written; -1 for none.
    pub rem: int,
    /// Whether the buffer was too short.
    pub error: bool,
}

/// A range encoder or decoder.
#[derive(Debug, Clone)]
pub struct RangeCoder {
    /// The buffer.
    pub buf: Vec<u8>,
    /// The bytes of it in use.
    pub storage: u32,
    /// The size of the interval.
    pub rng: u32,
    offs: u32,
    end_offs: u32,
    end_window: u64,
    nend_bits: u32,
    nbits_total: u32,
    val: u32,
    ext: u32,
    rem: i32,
    error: bool,
}

impl View for RangeCoder {
    type V = CoderView;

    closed spec fn view(&self) -> CoderView {
        CoderView {
            buf: self.buf@,
            storage: self.storage as int,
            offs: self.offs as int,
            end_offs: self.end_offs as int,
            end_window: self.end_window as int,
            nend_bits: self.nend_bits as int,
            nbits_total: self.nbits_total as int,
            rng: self.rng as int,
            val: self.val as int,
            ext: self.ext as int,
            rem: self.rem as int,
            error: self.error,
        }
    }
}

/// What holds of a decoder between symbols.
pub open spec fn decoding(c: CoderView) -> bool {
    &&& 0 <= c.storage <= c.buf.len() <= u32::MAX
    &&& 0 <= c.offs <= c.buf.len()
    &&& 0 <= c.end_offs <= c.buf.len()
    &&& 0x80_0000 < c.rng <= 0x8000_0000
    &&& 0 <= c.val < c.rng
    &&& 0 <= c.rem <= 255
    &&& 0 <= c.nend_bits <= 32
    &&& 0 <= c.end_window < pow2(c.nend_bits as nat)
    &&& 0 <= c.nbits_total <= u32::MAX
}

/// A count, which wraps around.
pub open spec fn add_bits(total: int, n: int) -> int {
    (total + n) % 0x1_0000_0000
}

// ---------------------------------------------------------------------------
// Decoding
// ---------------------------------------------------------------------------
/// The next byte from the front; zeros follow the last.
pub open spec fn front_byte(c: CoderView) -> int {
    if c.offs < c.storage {
        c.buf[c.offs] as int
    } else {
        0
    }
}

/// The next byte from the back; zeros follow the first.
pub open spec fn back_byte(c: CoderView) -> int {
    if c.end_offs < c.storage {
        c.buf[c.storage - c.end_offs - 1] as int
    } else {
        0
    }
}

/// One more byte taken into the code.
pub open spec fn refill(c: CoderView) -> CoderView {
    let b = front_byte(c);
    CoderView {
        offs: if c.offs < c.storage {
            c.offs + 1
        } else {
            c.offs
        },
        nbits_total: add_bits(c.nbits_total, 8),
        rng: c.rng * 256,
        val: (c.val * 256 + (255 - (c.rem * 256 + b) / 2 % 256)) % 0x8000_0000,
        rem: b,
        ..c
    }
}

/// Bytes taken in until the interval is large enough for a symbol.
pub open spec fn settle(c: CoderView) -> CoderView
    decreases 0x8000_0001 - c.rng,
{
    if c.rng <= 0 || c.rng > 0x80_0000 {
        c
    } else {
        settle(refill(c))
    }
}

/// The decoder once the interval is narrowed to its part from `lo` to `hi`,
/// counted from where the code lies.
pub open spec fn narrowed(c: CoderView, lo: int, hi: int) -> CoderView {
    settle(CoderView { val: c.val - lo, rng: hi - lo, ..c })
}

/// A decoder at the front of a buffer.
pub open spec fn decoder_start(buf: Seq<u8>) -> CoderView {
    let empty = CoderView {
        buf,
        storage: buf.len() as int,
        offs: 0,
        end_offs: 0,
        end_window: 0,
        nend_bits: 0,
        nbits_total: 9,
        rng: 128,
        val: 0,
        ext: 0,
        rem: 0,
        error: false,
    };
    let b = front_byte(empty);
    settle(
        CoderView {
            offs: if buf.len() > 0 {
                1
            } else {
                0
            },
            val: 127 - b / 2,
            rem: b,
            ..empty
        },
    )
}

/// Whether a table gives the inverse cumulative frequencies of some symbols:
/// strictly falling to a zero, behind which anything may stand.
pub open spec fn is_icdf(t: Seq<u8>) -> bool {
    exists|z: int| #[trigger] ends_at(t, z)
}

/// Whether a table falls strictly to a zero at `z`.
pub open spec fn ends_at(t: Seq<u8>, z: int) -> bool {
    &&& 0 <= z < t.len()
    &&& t[z] == 0
    &&& forall|i: int| 0 <= i < z ==> #[trigger] falls_at(t, i)
}

/// Whether the entry behind `i` is smaller.
pub open spec fn falls_at(t: Seq<u8>, i: int) -> bool {
    t[i] > t[i + 1]
}

/// Whether the table that begins at `from` falls strictly to a zero `z` entries
/// on.
pub(crate) fn table_ends_at(t: &[u8], from: usize, z: usize) -> (b: bool)
    requires
        from <= t@.len(),
    ensures
        b == ends_at(t@.skip(from as int), z as int),
{
    let ghost table = t@.skip(from as int);
    let len: usize = t.len();
    if z >= len - from || t[from + z] != 0 {
        return false;
    }
    let mut i: usize = 0;
    while i < z
        invariant
            len == t@.len(),
            i <= z < len - from,
            from <= len,
            table == t@.skip(from as int),
            forall|j: int| 0 <= j < i ==> #[trigger] falls_at(table, j),
        decreases z - i,
    {
        if t[from + i] <= t[from + i + 1] {
            assert(!falls_at(table, i as int));
            return false;
        }
        i += 1;
    }
    true
}

/// The first symbol from `k` on whose part of the interval begins at or below
/// `val`.
pub open spec fn symbol_from(t: Seq<u8>, r: int, val: int, k: int) -> int
    decreases t.len() - k,
{
    if k < 0 || k >= t.len() || r * t[k] <= val {
        k
    } else {
        symbol_from(t, r, val, k + 1)
    }
}

/// The symbol the code stands for under a table.
pub open spec fn icdf_symbol(c: CoderView, t: Seq<u8>) -> int {
    symbol_from(t, c.rng / 256, c.val, 0)
}

/// The decoder behind that symbol.
pub open spec fn after_icdf(c: CoderView, t: Seq<u8>) -> CoderView {
    let r = c.rng / 256;
    let s = icdf_symbol(c, t);
    narrowed(
        c,
        r * t[s],
        if s == 0 {
            c.rng
        } else {
            r * t[s - 1]
        },
    )
}

/// Whether the code stands for a one whose probability is `1 / 2^logp`.
pub open spec fn bit_value(c: CoderView, logp: nat) -> bool {
    c.val < c.rng / (pow2(logp) as int)
}

/// The decoder behind that bit.
pub open spec fn after_bit(c: CoderView, logp: nat) -> CoderView {
    let s = c.rng / (pow2(logp) as int);
    if bit_value(c, logp) {
        narrowed(c, 0, s)
    } else {
        narrowed(c, s, c.rng)
    }
}

/// One of `ft` equally likely symbols.
pub open spec fn uniform_symbol(c: CoderView, ft: int) -> int {
    let s = c.val / (c.rng / ft) + 1;
    ft - (if s < ft {
        s
    } else {
        ft
    })
}

/// The decoder behind that symbol.
pub open spec fn after_uniform(c: CoderView, ft: int) -> CoderView {
    let r = c.rng / ft;
    let s = uniform_symbol(c, ft);
    let lo = r * (ft - s - 1);
    narrowed(
        c,
        lo,
        if s > 0 {
            lo + r
        } else {
            c.rng
        },
    )
}

/// One more byte taken into the raw bits.
pub open spec fn refill_raw(c: CoderView) -> CoderView {
    CoderView {
        end_window: c.end_window + back_byte(c) * pow2(c.nend_bits as nat),
        nend_bits: c.nend_bits + 8,
        end_offs: if c.end_offs < c.storage {
            c.end_offs + 1
        } else {
            c.end_offs
        },
        ..c
    }
}

/// The raw bits filled up to more than 24.
pub open spec fn settle_raw(c: CoderView) -> CoderView
    decreases 33 - c.nend_bits,
{
    if c.nend_bits > 24 {
        c
    } else {
        settle_raw(refill_raw(c))
    }
}

/// The decoder with `n` raw bits at hand.
pub open spec fn with_raw(c: CoderView, n: int) -> CoderView {
    if c.nend_bits < n {
        settle_raw(c)
    } else {
        c
    }
}

/// The next `n` raw bits.
pub open spec fn raw_value(c: CoderView, n: int) -> int {
    with_raw(c, n).end_window % (pow2(n as nat) as int)
}

/// The decoder behind them.
pub open spec fn after_raw(c: CoderView, n: int) -> CoderView {
    let u = with_raw(c, n);
    CoderView {
        end_window: u.end_window / (pow2(n as nat) as int),
        nend_bits: u.nend_bits - n,
        nbits_total: add_bits(u.nbits_total, n),
        ..u
    }
}

/// The bits a number needs.
pub open spec fn bit_length(x: int) -> int
    decreases x,
{
    if x <= 0 {
        0
    } else {
        1 + bit_length(x / 2)
    }
}

/// The raw bits of a number below `ft`: those beyond its top eight.
pub open spec fn uint_raw_bits(ft: int) -> int {
    if bit_length(ft - 1) > 8 {
        bit_length(ft - 1) - 8
    } else {
        0
    }
}

/// The values the coded top of such a number can take.
pub open spec fn uint_top(ft: int) -> int {
    (ft - 1) / (pow2(uint_raw_bits(ft) as nat) as int) + 1
}

/// A number below `ft`: its top as a symbol, the rest as raw bits. A value past
/// the end, which no encoder writes, is held to the largest.
pub open spec fn uint_value(c: CoderView, ft: int) -> int {
    let n = uint_raw_bits(ft);
    let top = uniform_symbol(c, uint_top(ft));
    let t = top * pow2(n as nat) + (if n > 0 {
        raw_value(after_uniform(c, uint_top(ft)), n)
    } else {
        0
    });
    if t <= ft - 1 {
        t
    } else {
        ft - 1
    }
}

/// The decoder behind that number.
pub open spec fn after_uint(c: CoderView, ft: int) -> CoderView {
    let n = uint_raw_bits(ft);
    let u = after_uniform(c, uint_top(ft));
    if n > 0 {
        let t = uniform_symbol(c, uint_top(ft)) * pow2(n as nat) + raw_value(u, n);
        let w = after_raw(u, n);
        CoderView { error: w.error || t > ft - 1, ..w }
    } else {
        u
    }
}

// ---------------------------------------------------------------------------
// Encoding
// ---------------------------------------------------------------------------
/// What holds of an encoder between symbols.
pub open spec fn encoding(c: CoderView) -> bool {
    &&& 0 <= c.offs && 0 <= c.end_offs
    &&& c.offs + c.end_offs <= c.storage <= c.buf.len()
    &&& c.storage <= u32::MAX
    &&& 0x80_0000 < c.rng <= 0x8000_0000
    &&& 0 <= c.val && c.val + c.rng <= u32::MAX
    &&& -1 <= c.rem <= 255
    &&& 0 <= c.ext <= u32::MAX
    &&& 0 <= c.nend_bits <= 32
    &&& 0 <= c.end_window < pow2(c.nend_bits as nat)
    &&& 0 <= c.nbits_total <= u32::MAX
}

/// An encoder that may fill `size` bytes.
pub open spec fn encoder_start(size: int) -> CoderView {
    CoderView {
        buf: Seq::new(size as nat, |i: int| 0u8),
        storage: size,
        offs: 0,
        end_offs: 0,
        end_window: 0,
        nend_bits: 0,
        nbits_total: 33,
        rng: 0x8000_0000,
        val: 0,
        ext: 0,
        rem: -1,
        error: false,
    }
}

/// One byte written at the front.
pub open spec fn put_front(c: CoderView, b: int) -> CoderView {
    if c.offs + c.end_offs >= c.storage {
        CoderView { error: true, ..c }
    } else {
        CoderView { buf: c.buf.update(c.offs, b as u8), offs: c.offs + 1, ..c }
    }
}

/// One byte written at the back.
pub open spec fn put_back(c: CoderView, b: int) -> CoderView {
    if c.offs + c.end_offs >= c.storage {
        CoderView { error: true, ..c }
    } else {
        CoderView {
            buf: c.buf.update(c.storage - c.end_offs - 1, b as u8),
            end_offs: c.end_offs + 1,
            ..c
        }
    }
}

/// The waiting bytes written once it is known whether a carry reaches them.
pub open spec fn put_waiting(c: CoderView, carry: int) -> CoderView
    decreases c.ext,
{
    if c.ext <= 0 {
        c
    } else {
        let d = put_front(c, (255 + carry) % 256);
        put_waiting(CoderView { ext: c.ext - 1, ..d }, carry)
    }
}

/// One more byte of the code, with the carry that goes into those before it.
pub open spec fn carry_out(c: CoderView, sym: int) -> CoderView {
    if sym == 255 {
        CoderView { ext: add_bits(c.ext, 1), ..c }
    } else {
        let carry = sym / 256;
        let d = if c.rem >= 0 {
            put_front(c, (c.rem + carry) % 256)
        } else {
            c
        };
        CoderView { rem: sym % 256, ..put_waiting(d, carry) }
    }
}

/// One byte moved out of the interval.
pub open spec fn shift_out(c: CoderView) -> CoderView {
    let d = carry_out(c, c.val / 0x80_0000);
    CoderView {
        val: (c.val * 256) % 0x8000_0000,
        rng: c.rng * 256,
        nbits_total: add_bits(c.nbits_total, 8),
        ..d
    }
}

/// Bytes moved out until the interval is large enough for a symbol.
pub open spec fn settle_out(c: CoderView) -> CoderView
    decreases 0x8000_0001 - c.rng,
{
    if c.rng <= 0 || c.rng > 0x80_0000 {
        c
    } else {
        settle_out(shift_out(c))
    }
}

/// The encoder once the interval is narrowed to its part from `lo` to `hi`,
/// counted from its end.
pub open spec fn narrowed_out(c: CoderView, lo: int, hi: int) -> CoderView {
    settle_out(CoderView { val: c.val + c.rng - hi, rng: hi - lo, ..c })
}

/// The encoder behind a symbol under a table.
pub open spec fn with_icdf(c: CoderView, t: Seq<u8>, s: int) -> CoderView {
    let r = c.rng / 256;
    narrowed_out(
        c,
        r * t[s],
        if s == 0 {
            c.rng
        } else {
            r * t[s - 1]
        },
    )
}

/// The encoder behind one of `ft` equally likely symbols.
pub open spec fn with_uniform(c: CoderView, s: int, ft: int) -> CoderView {
    let r = c.rng / ft;
    let lo = r * (ft - s - 1);
    narrowed_out(
        c,
        lo,
        if s > 0 {
            lo + r
        } else {
            c.rng
        },
    )
}

/// Raw bits written until fewer than eight are held back.
pub open spec fn flush_raw(c: CoderView) -> CoderView
    decreases c.nend_bits,
{
    if c.nend_bits < 8 {
        c
    } else {
        let d = put_back(c, c.end_window % 256);
        flush_raw(CoderView { end_window: c.end_window / 256, nend_bits: c.nend_bits - 8, ..d })
    }
}

/// The encoder behind `n` raw bits.
pub open spec fn with_raw_bits(c: CoderView, v: int, n: int) -> CoderView {
    let d = if c.nend_bits + n > 32 {
        flush_raw(c)
    } else {
        c
    };
    CoderView {
        end_window: d.end_window + v * pow2(d.nend_bits as nat),
        nend_bits: d.nend_bits + n,
        nbits_total: add_bits(d.nbits_total, n),
        ..d
    }
}

/// The encoder behind a number below `ft`.
pub open spec fn with_uint(c: CoderView, v: int, ft: int) -> CoderView {
    let n = uint_raw_bits(ft);
    let p = pow2(n as nat) as int;
    let u = with_uniform(c, v / p, uint_top(ft));
    if n > 0 {
        with_raw_bits(u, v % p, n)
    } else {
        u
    }
}

/// The least multiple of `2^k` that is not below `x`.
pub open spec fn round_up(x: int, k: nat) -> int {
    (x + pow2(k) - 1) / (pow2(k) as int) * (pow2(k) as int)
}

/// How many of the low bits of the final code may be anything, so that the
/// whole of what follows still lies in the interval.
pub open spec fn free_bits(c: CoderView) -> int {
    let k = bit_length(c.rng) - 1;
    if round_up(c.val, k as nat) + pow2(k as nat) - 1 >= c.val + c.rng {
        k - 1
    } else {
        k
    }
}

/// The top `n` bits of a code of 31 bits written, byte by byte.
pub open spec fn put_code(c: CoderView, code: int, n: int) -> CoderView
    decreases n + 8,
{
    if n <= 0 {
        c
    } else {
        put_code(carry_out(c, code / 0x80_0000), (code * 256) % 0x8000_0000, n - 8)
    }
}

/// The encoder with every symbol written.
pub open spec fn symbols_written(c: CoderView) -> CoderView {
    let k = free_bits(c);
    let d = put_code(c, round_up(c.val, k as nat), 31 - k);
    if d.rem >= 0 || d.ext > 0 {
        carry_out(d, 0)
    } else {
        d
    }
}

/// The unused bytes cleared, and the last raw bits put into the byte before
/// those written at the back. Where that byte also ends the symbols, only the
/// bits that they left free are used, and a loss is an error.
pub open spec fn finished(c: CoderView) -> CoderView {
    let d = flush_raw(symbols_written(c));
    if d.error {
        d
    } else {
        let cleared = Seq::new(
            d.buf.len(),
            |i: int|
                if d.offs <= i < d.storage - d.end_offs {
                    0u8
                } else {
                    d.buf[i]
                },
        );
        let at = d.storage - d.end_offs - 1;
        let free = spare_bits(c);
        if d.nend_bits <= 0 {
            CoderView { buf: cleared, ..d }
        } else if d.end_offs >= d.storage {
            CoderView { buf: cleared, error: true, ..d }
        } else if d.offs + d.end_offs >= d.storage && free < d.nend_bits {
            let kept = d.end_window % (pow2(free as nat) as int);
            CoderView {
                buf: cleared.update(at, cleared[at] | (kept as u8)),
                end_window: kept,
                error: true,
                ..d
            }
        } else {
            CoderView { buf: cleared.update(at, cleared[at] | (d.end_window as u8)), ..d }
        }
    }
}

/// The bits of the last byte of the symbols that they do not need.
pub open spec fn spare_bits(c: CoderView) -> int {
    (7 - (31 - free_bits(c) + 7) % 8)
}

proof fn lemma_settle(c: CoderView)
    requires
        0 <= c.storage <= c.buf.len(),
        0 <= c.offs <= c.buf.len(),
        0 < c.rng <= 0x8000_0000,
        0 <= c.val < c.rng,
        0 <= c.rem <= 255,
        0 <= c.nbits_total <= u32::MAX,
    ensures
        ({
            let d = settle(c);
            &&& 0 <= d.offs <= d.buf.len()
            &&& 0x80_0000 < d.rng <= 0x8000_0000
            &&& 0 <= d.val < d.rng
            &&& 0 <= d.rem <= 255
            &&& 0 <= d.nbits_total <= u32::MAX
            &&& d.buf == c.buf && d.storage == c.storage && d.end_offs == c.end_offs
            &&& d.end_window == c.end_window && d.nend_bits == c.nend_bits
            &&& d.ext == c.ext && d.error == c.error
        }),
    decreases 0x8000_0001 - c.rng,
{
    if c.rng <= 0x80_0000 {
        let d = refill(c);
        assert(0 <= d.val < d.rng);
        lemma_settle(d);
    }
}

/// A byte has eight bits.
pub proof fn lemma_bits_of_255()
    ensures
        bit_length(255) == 8,
{
    reveal_with_fuel(bit_length, 9);
}

/// Narrowing the interval takes in three bytes at most.
pub proof fn lemma_narrowed_bits(c: CoderView, lo: int, hi: int)
    requires
        lo < hi <= 0x8000_0000 + lo,
        0 <= c.nbits_total,
        c.nbits_total + 24 <= u32::MAX,
    ensures
        c.nbits_total <= narrowed(c, lo, hi).nbits_total <= c.nbits_total + 24,
        narrowed(c, lo, hi).storage == c.storage,
        narrowed(c, lo, hi).buf == c.buf,
{
    let c0 = CoderView { val: c.val - lo, rng: hi - lo, ..c };
    let c1 = refill(c0);
    let c2 = refill(c1);
    let c3 = refill(c2);
    assert(narrowed(c, lo, hi) == settle(c0));
    assert(c0.rng > 0x80_0000 || settle(c0) == settle(c1));
    assert(c1.rng > 0x80_0000 || settle(c1) == settle(c2));
    assert(c2.rng > 0x80_0000 || settle(c2) == settle(c3));
    assert(c3.rng > 0x80_0000);
    assert(settle(c3) == c3);
    assert(c0.rng <= 0x80_0000 || settle(c0) == c0);
    assert(c1.rng <= 0x80_0000 || settle(c1) == c1);
    assert(c2.rng <= 0x80_0000 || settle(c2) == c2);
}

proof fn lemma_raw(c: CoderView)
    requires
        decoding(c),
    ensures
        decoding(settle_raw(c)),
        settle_raw(c).nend_bits > 24,
    decreases 33 - c.nend_bits,
{
    if c.nend_bits <= 24 {
        let d = refill_raw(c);
        lemma_refill_raw(c);
        lemma_raw(d);
    }
}

proof fn lemma_refill_raw(c: CoderView)
    requires
        decoding(c),
        c.nend_bits <= 24,
    ensures
        decoding(refill_raw(c)),
        0 <= back_byte(c) * pow2(c.nend_bits as nat) <= 255 * 0x100_0000,
{
    lemma2_to64();
    lemma_pow2_pos(c.nend_bits as nat);
    lemma_pow2_adds(c.nend_bits as nat, 8);
    if c.nend_bits < 24 {
        lemma_pow2_strictly_increases(c.nend_bits as nat, 24);
    }
    let p: int = pow2(c.nend_bits as nat) as int;
    let b: int = back_byte(c);
    assert(0 <= b * p && b * p <= 255 * p) by (nonlinear_arith)
        requires
            0 <= b <= 255,
            p >= 1,
    ;
}

/// What writing at either end keeps.
pub open spec fn writable(c: CoderView) -> bool {
    &&& 0 <= c.offs && 0 <= c.end_offs
    &&& c.offs + c.end_offs <= c.storage <= c.buf.len()
    &&& c.storage <= u32::MAX
    &&& -1 <= c.rem <= 255
    &&& 0 <= c.ext <= u32::MAX
}

/// Whether two states agree in all that writing symbols leaves alone.
pub open spec fn same_code(a: CoderView, b: CoderView) -> bool {
    &&& a.storage == b.storage && a.buf.len() == b.buf.len()
    &&& a.end_offs == b.end_offs && a.end_window == b.end_window
    &&& a.nend_bits == b.nend_bits && a.nbits_total == b.nbits_total
    &&& a.rng == b.rng && a.val == b.val
}

proof fn lemma_put_waiting(c: CoderView, carry: int)
    requires
        writable(c),
    ensures
        writable(put_waiting(c, carry)),
        same_code(put_waiting(c, carry), c),
        put_waiting(c, carry).rem == c.rem,
        put_waiting(c, carry).ext == 0,
    decreases c.ext,
{
    if c.ext > 0 {
        let d = put_front(c, (255 + carry) % 256);
        lemma_put_waiting(CoderView { ext: c.ext - 1, ..d }, carry);
    }
}

proof fn lemma_carry_out(c: CoderView, sym: int)
    requires
        writable(c),
        0 <= sym <= 511,
    ensures
        writable(carry_out(c, sym)),
        same_code(carry_out(c, sym), c),
{
    if sym != 255 {
        let carry = sym / 256;
        let d = if c.rem >= 0 {
            put_front(c, (c.rem + carry) % 256)
        } else {
            c
        };
        lemma_put_waiting(d, carry);
    }
}

proof fn lemma_settle_out(c: CoderView)
    requires
        writable(c),
        0 < c.rng <= 0x8000_0000,
        0 <= c.val,
        c.val + c.rng <= u32::MAX,
        0 <= c.nend_bits <= 32,
        0 <= c.end_window < pow2(c.nend_bits as nat),
        0 <= c.nbits_total <= u32::MAX,
    ensures
        encoding(settle_out(c)),
    decreases 0x8000_0001 - c.rng,
{
    if c.rng <= 0x80_0000 {
        lemma_carry_out(c, c.val / 0x80_0000);
        lemma_settle_out(shift_out(c));
    }
}

fn small_power(n: u32) -> (p: u64)
    requires
        n <= 32,
    ensures
        p == pow2(n as nat),
        1 <= p <= 0x1_0000_0000,
{
    let mut p: u64 = 1;
    let mut i: u32 = 0;
    proof {
        lemma2_to64();
        if n < 32 {
            lemma_pow2_strictly_increases(n as nat, 32);
        }
    }
    while i < n
        invariant
            i <= n <= 32,
            p == pow2(i as nat),
            1 <= p <= 0x1_0000_0000,
            pow2(32) == 0x1_0000_0000,
        decreases n - i,
    {
        proof {
            lemma_pow2_unfold((i + 1) as nat);
            if i + 1 < 32 {
                lemma_pow2_strictly_increases((i + 1) as nat, 32);
            }
        }
        p = p * 2;
        i += 1;
    }
    p
}

/// See [`bit_length`].
fn ilog(x: u32) -> (n: u32)
    ensures
        n == bit_length(x as int),
        n <= 32,
        x > 0 ==> n >= 1 && pow2((n - 1) as nat) <= x,
        x < pow2(n as nat),
{
    let mut y: u32 = x;
    let mut n: u32 = 0;
    proof {
        lemma_bit_length(x as int);
        lemma_bit_length_bound(x as int);
    }
    while y > 0
        invariant
            bit_length(x as int) == n + bit_length(y as int),
            bit_length(x as int) <= 32,
            bit_length(y as int) >= 0,
        decreases y,
    {
        proof {
            lemma_bit_length(y as int / 2);
            lemma_bit_length(y as int);
        }
        y = y / 2;
        n += 1;
    }
    n
}

/// The bits of a number bound it.
pub proof fn lemma_bit_length(x: int)
    requires
        x >= 0,
    ensures
        bit_length(x) >= 0,
        x > 0 ==> bit_length(x) >= 1 && pow2((bit_length(x) - 1) as nat) <= x,
        x < pow2(bit_length(x) as nat),
    decreases x,
{
    lemma2_to64();
    if x > 0 {
        lemma_bit_length(x / 2);
        let n: int = bit_length(x / 2);
        lemma_pow2_unfold((n + 1) as nat);
        if n > 0 {
            lemma_pow2_unfold(n as nat);
        }
    }
}

proof fn lemma_bit_length_bound(x: int)
    requires
        0 <= x <= u32::MAX,
    ensures
        bit_length(x) <= 32,
{
    lemma2_to64();
    lemma_bit_length(x);
    if bit_length(x) > 32 {
        if bit_length(x) - 1 > 32 {
            lemma_pow2_strictly_increases(32, (bit_length(x) - 1) as nat);
        }
    }
}

fn bits_added(total: u32, n: u32) -> (t: u32)
    ensures
        t == add_bits(total as int, n as int),
{
    ((total as u64 + n as u64) % 0x1_0000_0000) as u32
}

impl RangeCoder {
    /// A decoder of `data`.
    pub fn new_decoder(data: &[u8]) -> (c: Self)
        requires
            data@.len() <= u32::MAX,
        ensures
            decoding(c@),
            c@ == decoder_start(data@),
    {
        let buf: Vec<u8> = vstd::slice::slice_to_vec(data);
        let storage: u32 = data.len() as u32;
        let first: u8 = if storage > 0 {
            data[0]
        } else {
            0
        };
        let mut c = RangeCoder {
            buf,
            storage,
            rng: 128,
            offs: if storage > 0 {
                1
            } else {
                0
            },
            end_offs: 0,
            end_window: 0,
            nend_bits: 0,
            nbits_total: 9,
            val: 127 - (first / 2) as u32,
            ext: 0,
            rem: first as i32,
            error: false,
        };
        proof {
            lemma2_to64();
        }
        c.normalize_decoder();
        c
    }

    fn normalize_decoder(&mut self)
        requires
            0 <= old(self)@.storage <= old(self)@.buf.len() <= u32::MAX,
            0 <= old(self)@.offs <= old(self)@.buf.len(),
            0 <= old(self)@.end_offs <= old(self)@.buf.len(),
            0 < old(self)@.rng <= 0x8000_0000,
            0 <= old(self)@.val < old(self)@.rng,
            0 <= old(self)@.rem <= 255,
            0 <= old(self)@.nend_bits <= 32,
            0 <= old(self)@.end_window < pow2(old(self)@.nend_bits as nat),
        ensures
            decoding(final(self)@),
            final(self)@ == settle(old(self)@),
    {
        proof {
            lemma_settle(self@);
        }
        while self.rng <= 0x80_0000
            invariant
                0 <= self@.storage <= self@.buf.len() <= u32::MAX,
                0 <= self@.offs <= self@.buf.len(),
                0 <= self@.end_offs <= self@.buf.len(),
                0 < self@.rng <= 0x8000_0000,
                0 <= self@.val < self@.rng,
                0 <= self@.rem <= 255,
                0 <= self@.nend_bits <= 32,
                0 <= self@.end_window < pow2(self@.nend_bits as nat),
                settle(self@) == settle(old(self)@),
            decreases 0x8000_0001 - self.rng,
        {
            let ghost before = self@;
            let b: u32 = if self.offs < self.storage {
                let b: u8 = self.buf[self.offs as usize];
                self.offs = self.offs + 1;
                b as u32
            } else {
                0
            };
            assert(b == front_byte(before));
            let sym: u32 = (self.rem as u32 * 256 + b) / 2 % 256;
            self.nbits_total = bits_added(self.nbits_total, 8);
            self.rng = self.rng * 256;
            self.val = self.val * 256 + (255 - sym);
            self.rem = b as i32;
            assert(self@ == refill(before));
        }
    }

    /// Decode a symbol under a table of inverse cumulative frequencies that add
    /// up to 256.
    pub fn decode_icdf(&mut self, icdf: &[u8], ftb: u32) -> (s: i32)
        requires
            decoding(old(self)@),
            is_icdf(icdf@),
            icdf@.len() <= 0x7fff_ffff,
            ftb == 8,
        ensures
            decoding(final(self)@),
            s == icdf_symbol(old(self)@, icdf@),
            final(self)@ == after_icdf(old(self)@, icdf@),
            0 <= s < icdf@.len(),
            forall|z: int| #[trigger] ends_at(icdf@, z) ==> s <= z,
    {
        let r: u32 = self.rng / 256;
        let mut k: usize = 0;
        let mut hi: u32 = self.rng;
        let ghost c = self@;
        let ghost z = choose|z: int| ends_at(icdf@, z);
        proof {
            assert(ends_at(icdf@, z));
            let r_int: int = r as int;
            let b: int = icdf@[0] as int;
            assert(0 <= r_int * b <= r_int * 255) by (nonlinear_arith)
                requires
                    0 <= b <= 255,
                    r_int >= 0,
            ;
        }
        let mut lo: u32 = r * icdf[0] as u32;
        while self.val < lo
            invariant
                self@ == c,
                decoding(c),
                ends_at(icdf@, z),
                0 <= k <= z,
                r == c.rng / 256,
                lo == r * icdf@[k as int],
                hi == if k == 0 {
                    c.rng
                } else {
                    r * icdf@[k - 1]
                },
                c.val < hi <= c.rng,
                lo < hi,
                icdf@.len() <= 0x7fff_ffff,
                icdf_symbol(c, icdf@) == symbol_from(icdf@, r as int, c.val, k as int),
                forall|y: int| #[trigger] ends_at(icdf@, y) ==> k <= y,
            decreases z - k,
        {
            proof {
                if k == z {
                    assert(r * 0 == 0) by (nonlinear_arith);
                }
                assert(k < z);
                assert(falls_at(icdf@, k as int));
                let r_int: int = r as int;
                let a: int = icdf@[k as int] as int;
                let b: int = icdf@[k + 1] as int;
                assert(r_int * b < r_int * a && 0 <= r_int * b <= r_int * 255) by (nonlinear_arith)
                    requires
                        0 <= b < a,
                        b <= 255,
                        r_int >= 1,
                ;
                assert forall|y: int| #[trigger] ends_at(icdf@, y) implies k + 1 <= y by {
                    if y == k {
                        assert(r_int * 0 == 0) by (nonlinear_arith);
                    }
                }
            }
            hi = lo;
            k += 1;
            lo = r * icdf[k] as u32;
        }
        self.val = self.val - lo;
        self.rng = hi - lo;
        self.normalize_decoder();
        k as i32
    }

    /// Decode a bit that is set with probability `1 / 2^logp`.
    pub fn decode_bit_logp(&mut self, logp: u32) -> (b: bool)
        requires
            decoding(old(self)@),
            1 <= logp <= 16,
        ensures
            decoding(final(self)@),
            b == bit_value(old(self)@, logp as nat),
            final(self)@ == after_bit(old(self)@, logp as nat),
    {
        let p: u64 = small_power(logp);
        proof {
            lemma2_to64();
            if logp < 16 {
                lemma_pow2_strictly_increases(logp as nat, 16);
            }
            lemma_pow2_strictly_increases(0, logp as nat);
            let r: int = self@.rng;
            let pi: int = p as int;
            assert(1 <= r / pi < r) by (nonlinear_arith)
                requires
                    2 <= pi <= 0x1_0000,
                    r > 0x80_0000,
            ;
        }
        let s: u32 = (self.rng as u64 / p) as u32;
        let set = self.val < s;
        if set {
            self.rng = s;
        } else {
            self.val = self.val - s;
            self.rng = self.rng - s;
        }
        self.normalize_decoder();
        set
    }

    fn decode_uniform(&mut self, ft: u32) -> (s: u32)
        requires
            decoding(old(self)@),
            1 <= ft <= 256,
        ensures
            decoding(final(self)@),
            s == uniform_symbol(old(self)@, ft as int),
            s < ft,
            final(self)@ == after_uniform(old(self)@, ft as int),
    {
        let ext: u32 = self.rng / ft;
        proof {
            let r: int = self@.rng;
            let f: int = ft as int;
            let e: int = ext as int;
            let v: int = self@.val;
            assert(1 <= e && e * f <= r) by (nonlinear_arith)
                requires
                    e == r / f,
                    1 <= f <= 256,
                    r > 0x80_0000,
            ;
            assert(0 <= v / e <= v && (v / e) * e <= v < (v / e + 1) * e) by (nonlinear_arith)
                requires
                    e >= 1,
                    v >= 0,
            ;
        }
        let q: u32 = self.val / ext + 1;
        let top: u32 = if q < ft {
            q
        } else {
            ft
        };
        let s: u32 = ft - top;
        proof {
            let e: int = ext as int;
            let t: int = top as int;
            let f: int = ft as int;
            let v: int = self@.val;
            assert(0 <= e * (t - 1) && e * (t - 1) + e == e * t && e * t <= e * f && e * (t - 1)
                <= v) by (nonlinear_arith)
                requires
                    e >= 1,
                    1 <= t <= f,
                    t <= v / e + 1,
                    v >= 0,
            ;
            assert(e * f == f * e) by (nonlinear_arith);
            if t < f {
                assert(v < e * t) by (nonlinear_arith)
                    requires
                        t == v / e + 1,
                        e >= 1,
                ;
            }
        }
        let lo: u32 = ext * (top - 1);
        self.val = self.val - lo;
        self.rng = if s > 0 {
            ext
        } else {
            self.rng - lo
        };
        self.normalize_decoder();
        s
    }

    fn decode_raw(&mut self, n: u32) -> (v: u32)
        requires
            decoding(old(self)@),
            1 <= n <= 25,
        ensures
            decoding(final(self)@),
            v == raw_value(old(self)@, n as int),
            v < pow2(n as nat),
            final(self)@ == after_raw(old(self)@, n as int),
    {
        if self.nend_bits < n {
            proof {
                lemma_raw(self@);
            }
            while self.nend_bits <= 24
                invariant
                    decoding(self@),
                    settle_raw(self@) == settle_raw(old(self)@),
                    settle_raw(old(self)@).nend_bits > 24,
                decreases 33 - self.nend_bits,
            {
                let ghost before = self@;
                proof {
                    lemma_refill_raw(self@);
                }
                let b: u64 = if self.end_offs < self.storage {
                    let at: usize = (self.storage - self.end_offs - 1) as usize;
                    let b: u8 = self.buf[at];
                    self.end_offs = self.end_offs + 1;
                    b as u64
                } else {
                    0
                };
                assert(b == back_byte(before));
                let p: u64 = small_power(self.nend_bits);
                self.end_window = self.end_window + b * p;
                self.nend_bits = self.nend_bits + 8;
                assert(self@ == refill_raw(before));
            }
        }
        assert(self@ == with_raw(old(self)@, n as int));
        let p: u64 = small_power(n);
        let v: u64 = self.end_window % p;
        proof {
            lemma2_to64();
            if n < 25 {
                lemma_pow2_strictly_increases(n as nat, 25);
            }
            let m: nat = (self@.nend_bits - n) as nat;
            lemma_pow2_adds(m, n as nat);
            let w: int = self@.end_window;
            let pi: int = p as int;
            let q: int = pow2(m) as int;
            assert(0 <= w / pi < q && 0 <= w % pi < pi) by (nonlinear_arith)
                requires
                    0 <= w < q * pi,
                    pi >= 1,
            ;
        }
        self.end_window = self.end_window / p;
        self.nend_bits = self.nend_bits - n;
        self.nbits_total = bits_added(self.nbits_total, n);
        v as u32
    }

    /// Decode a number below `ft`, all of them equally likely.
    pub fn dec_uint(&mut self, ft: u32) -> (v: u32)
        requires
            decoding(old(self)@),
            ft >= 2,
        ensures
            decoding(final(self)@),
            v == uint_value(old(self)@, ft as int),
            v < ft,
            final(self)@ == after_uint(old(self)@, ft as int),
    {
        let bits: u32 = ilog(ft - 1);
        if bits > 8 {
            let n: u32 = bits - 8;
            let p: u64 = small_power(n);
            proof {
                lemma2_to64();
                lemma_pow2_adds(8, n as nat);
                let f: int = ft - 1;
                let pi: int = p as int;
                assert(0 <= f / pi <= 255) by (nonlinear_arith)
                    requires
                        0 <= f < 256 * pi,
                        pi >= 1,
                ;
            }
            let tops: u32 = ((ft - 1) as u64 / p) as u32 + 1;
            assert(uint_top(ft as int) == tops);
            let top: u32 = self.decode_uniform(tops);
            let ghost u = self@;
            let rest: u32 = self.decode_raw(n);
            assert(self@ == after_raw(u, n as int));
            proof {
                let t: int = top as int;
                let pi: int = p as int;
                assert(0 <= t * pi <= 256 * pi) by (nonlinear_arith)
                    requires
                        0 <= t <= 256,
                        pi >= 1,
                ;
            }
            let t: u64 = top as u64 * p + rest as u64;
            assert(t == top * pow2(n as nat) + raw_value(u, n as int));
            if t <= (ft - 1) as u64 {
                t as u32
            } else {
                self.error = true;
                ft - 1
            }
        } else {
            proof {
                lemma2_to64();
                if bits < 8 {
                    lemma_pow2_strictly_increases(bits as nat, 8);
                }
                assert(uint_raw_bits(ft as int) == 0);
                assert(pow2(0) == 1);
                assert((ft - 1) / 1 == ft - 1);
                assert(uint_top(ft as int) == ft);
                let s: int = uniform_symbol(self@, ft as int);
                assert(s * 1 == s) by (nonlinear_arith);
            }
            self.decode_uniform(ft)
        }
    }

    /// Give up `bytes` bytes at the back of the buffer.
    pub fn shrink(&mut self, bytes: u32)
        requires
            decoding(old(self)@),
            bytes <= old(self)@.storage,
        ensures
            decoding(final(self)@),
            final(self)@ == (CoderView { storage: old(self)@.storage - bytes, ..old(self)@ }),
    {
        self.storage = self.storage - bytes;
    }

    /// The size of the interval, which tells two coders apart that disagree.
    pub fn final_range(&self) -> (r: u32)
        ensures
            r == self@.rng,
    {
        self.rng
    }

    /// The bits used so far, rounded up.
    pub fn tell(&self) -> (t: i32)
        requires
            0 <= self@.nbits_total <= i32::MAX,
        ensures
            t == self@.nbits_total - bit_length(self@.rng),
            self@.nbits_total - 32 <= t <= self@.nbits_total,
    {
        self.nbits_total as i32 - ilog(self.rng) as i32
    }
}

impl RangeCoder {
    /// An encoder with room for `size` bytes.
    pub fn new_encoder(size: usize) -> (c: Self)
        requires
            size <= u32::MAX,
        ensures
            encoding(c@),
            c@ == encoder_start(size as int),
    {
        let buf: Vec<u8> = vec![0u8; size];
        proof {
            lemma2_to64();
        }
        let c = RangeCoder {
            buf,
            storage: size as u32,
            rng: 0x8000_0000,
            offs: 0,
            end_offs: 0,
            end_window: 0,
            nend_bits: 0,
            nbits_total: 33,
            val: 0,
            ext: 0,
            rem: -1,
            error: false,
        };
        assert(c@.buf =~= encoder_start(size as int).buf);
        c
    }

    fn put_front(&mut self, b: u8)
        requires
            writable(old(self)@),
        ensures
            writable(final(self)@),
            final(self)@ == put_front(old(self)@, b as int),
    {
        if self.offs + self.end_offs >= self.storage {
            self.error = true;
        } else {
            self.buf.set(self.offs as usize, b);
            self.offs = self.offs + 1;
        }
    }

    fn put_back(&mut self, b: u8)
        requires
            writable(old(self)@),
        ensures
            writable(final(self)@),
            final(self)@ == put_back(old(self)@, b as int),
    {
        if self.offs + self.end_offs >= self.storage {
            self.error = true;
        } else {
            let at: usize = (self.storage - self.end_offs - 1) as usize;
            self.buf.set(at, b);
            self.end_offs = self.end_offs + 1;
        }
    }

    fn carry_out(&mut self, sym: u32)
        requires
            writable(old(self)@),
            sym <= 511,
        ensures
            writable(final(self)@),
            final(self)@ == carry_out(old(self)@, sym as int),
    {
        if sym == 255 {
            self.ext = bits_added(self.ext, 1);
        } else {
            let carry: u32 = sym / 256;
            if self.rem >= 0 {
                self.put_front(((self.rem as u32 + carry) % 256) as u8);
            }
            let ghost d = self@;
            let b: u8 = ((255 + carry) % 256) as u8;
            while self.ext > 0
                invariant
                    writable(self@),
                    b == (255 + carry) % 256,
                    put_waiting(self@, carry as int) == put_waiting(d, carry as int),
                decreases self.ext,
            {
                let ghost before = self@;
                self.put_front(b);
                let ghost wrote = self@;
                self.ext = self.ext - 1;
                assert(self@ == (CoderView { ext: before.ext - 1, ..wrote }));
            }
            self.rem = (sym % 256) as i32;
        }
    }

    fn normalize_encoder(&mut self)
        requires
            writable(old(self)@),
            0 < old(self)@.rng <= 0x8000_0000,
            0 <= old(self)@.val,
            old(self)@.val + old(self)@.rng <= u32::MAX,
            0 <= old(self)@.nend_bits <= 32,
            0 <= old(self)@.end_window < pow2(old(self)@.nend_bits as nat),
        ensures
            encoding(final(self)@),
            final(self)@ == settle_out(old(self)@),
    {
        while self.rng <= 0x80_0000
            invariant
                writable(self@),
                0 < self@.rng <= 0x8000_0000,
                0 <= self@.val,
                self@.val + self@.rng <= u32::MAX,
                0 <= self@.nend_bits <= 32,
                0 <= self@.end_window < pow2(self@.nend_bits as nat),
                settle_out(self@) == settle_out(old(self)@),
            decreases 0x8000_0001 - self.rng,
        {
            let ghost before = self@;
            proof {
                lemma_carry_out(self@, self@.val / 0x80_0000);
            }
            self.carry_out(self.val / 0x80_0000);
            self.val = (self.val % 0x80_0000) * 256;
            self.rng = self.rng * 256;
            self.nbits_total = bits_added(self.nbits_total, 8);
            assert((before.val * 256) % 0x8000_0000 == (before.val % 0x80_0000) * 256);
            assert(self@ == shift_out(before));
        }
    }

    /// Encode symbol `s` under a table of inverse cumulative frequencies that
    /// add up to 256.
    pub fn encode_icdf(&mut self, s: i32, icdf: &[u8], ftb: u32)
        requires
            encoding(old(self)@),
            exists|z: int| #[trigger] ends_at(icdf@, z) && 0 <= s <= z,
            icdf@.len() <= 0x7fff_ffff,
            ftb == 8,
        ensures
            encoding(final(self)@),
            final(self)@ == with_icdf(old(self)@, icdf@, s as int),
    {
        let ghost c = self@;
        let ghost z = choose|z: int| #[trigger] ends_at(icdf@, z) && 0 <= s <= z;
        let r: u32 = self.rng / 256;
        let at: usize = s as usize;
        proof {
            assert(ends_at(icdf@, z));
            if s > 0 {
                assert(falls_at(icdf@, s - 1));
            }
            let r_int: int = r as int;
            let b: int = icdf@[s as int] as int;
            let a: int = if s > 0 {
                icdf@[s - 1] as int
            } else {
                256
            };
            assert(0 <= r_int * b < r_int * a && r_int * a <= r_int * 256 && r_int * (a - b) == r_int
                * a - r_int * b) by (nonlinear_arith)
                requires
                    0 <= b < a <= 256,
                    r_int >= 1,
            ;
        }
        let lo: u32 = r * icdf[at] as u32;
        if s > 0 {
            let hi: u32 = r * icdf[at - 1] as u32;
            self.val = self.val + (self.rng - hi);
            self.rng = hi - lo;
        } else {
            self.rng = self.rng - lo;
        }
        self.normalize_encoder();
    }

    fn encode_uniform(&mut self, s: u32, ft: u32)
        requires
            encoding(old(self)@),
            s < ft <= 256,
        ensures
            encoding(final(self)@),
            final(self)@ == with_uniform(old(self)@, s as int, ft as int),
    {
        let r: u32 = self.rng / ft;
        proof {
            let g: int = self@.rng;
            let f: int = ft as int;
            let e: int = r as int;
            let t: int = ft - s - 1;
            assert(1 <= e && e * f <= g) by (nonlinear_arith)
                requires
                    e == g / f,
                    1 <= f <= 256,
                    g > 0x80_0000,
            ;
            assert(0 <= e * t && e * t + e <= e * f) by (nonlinear_arith)
                requires
                    e >= 1,
                    0 <= t <= f - 1,
            ;
        }
        let lo: u32 = r * (ft - s - 1);
        if s > 0 {
            self.val = self.val + (self.rng - (lo + r));
            self.rng = r;
        } else {
            self.rng = self.rng - lo;
        }
        self.normalize_encoder();
    }

    fn flush_raw(&mut self)
        requires
            writable(old(self)@),
            0 <= old(self)@.nend_bits <= 32,
            0 <= old(self)@.end_window < pow2(old(self)@.nend_bits as nat),
        ensures
            writable(final(self)@),
            0 <= final(self)@.nend_bits < 8,
            0 <= final(self)@.end_window < pow2(final(self)@.nend_bits as nat),
            final(self)@ == flush_raw(old(self)@),
            final(self)@.rng == old(self)@.rng,
            final(self)@.val == old(self)@.val,
            final(self)@.buf.len() == old(self)@.buf.len(),
            final(self)@.storage == old(self)@.storage,
    {
        while self.nend_bits >= 8
            invariant
                writable(self@),
                0 <= self@.nend_bits <= 32,
                0 <= self@.end_window < pow2(self@.nend_bits as nat),
                flush_raw(self@) == flush_raw(old(self)@),
                self@.rng == old(self)@.rng,
                self@.val == old(self)@.val,
                self@.buf.len() == old(self)@.buf.len(),
                self@.storage == old(self)@.storage,
            decreases self.nend_bits,
        {
            let ghost before = self@;
            proof {
                lemma2_to64();
                lemma_pow2_adds(8, (self@.nend_bits - 8) as nat);
                let w: int = self@.end_window;
                let q: int = pow2((self@.nend_bits - 8) as nat) as int;
                assert(0 <= w / 256 < q) by (nonlinear_arith)
                    requires
                        0 <= w < 256 * q,
                ;
            }
            self.put_back((self.end_window % 256) as u8);
            let ghost wrote = self@;
            self.end_window = self.end_window / 256;
            self.nend_bits = self.nend_bits - 8;
            assert(self@ == (CoderView {
                end_window: before.end_window / 256,
                nend_bits: before.nend_bits - 8,
                ..wrote
            }));
        }
    }

    fn encode_raw(&mut self, v: u32, n: u32)
        requires
            encoding(old(self)@),
            1 <= n <= 24,
            v < pow2(n as nat),
        ensures
            encoding(final(self)@),
            final(self)@ == with_raw_bits(old(self)@, v as int, n as int),
    {
        if self.nend_bits + n > 32 {
            self.flush_raw();
        }
        let p: u64 = small_power(self.nend_bits);
        proof {
            let m: nat = self@.nend_bits as nat;
            lemma_pow2_adds(m, n as nat);
            lemma2_to64();
            if m + n < 32 {
                lemma_pow2_strictly_increases(m + n as nat, 32);
            }
            let w: int = self@.end_window;
            let vi: int = v as int;
            let pi: int = p as int;
            let q: int = pow2(n as nat) as int;
            assert(0 <= vi * pi && w + vi * pi < pi * q) by (nonlinear_arith)
                requires
                    0 <= w < pi,
                    0 <= vi < q,
            ;
        }
        self.end_window = self.end_window + v as u64 * p;
        self.nend_bits = self.nend_bits + n;
        self.nbits_total = bits_added(self.nbits_total, n);
    }

    /// Encode the number `fl` below `ft`.
    pub fn enc_uint(&mut self, fl: u32, ft: u32)
        requires
            encoding(old(self)@),
            ft >= 2,
            fl < ft,
        ensures
            encoding(final(self)@),
            final(self)@ == with_uint(old(self)@, fl as int, ft as int),
    {
        let bits: u32 = ilog(ft - 1);
        proof {
            lemma2_to64();
        }
        if bits > 8 {
            let n: u32 = bits - 8;
            let p: u64 = small_power(n);
            proof {
                lemma_pow2_adds(8, n as nat);
                let f: int = ft - 1;
                let v: int = fl as int;
                let pi: int = p as int;
                assert(0 <= v / pi <= f / pi <= 255 && 0 <= v % pi < pi) by (nonlinear_arith)
                    requires
                        0 <= v <= f < 256 * pi,
                        pi >= 1,
                ;
            }
            let tops: u32 = ((ft - 1) as u64 / p) as u32 + 1;
            self.encode_uniform((fl as u64 / p) as u32, tops);
            self.encode_raw((fl as u64 % p) as u32, n);
        } else {
            proof {
                if bits < 8 {
                    lemma_pow2_strictly_increases(bits as nat, 8);
                }
                assert(uint_raw_bits(ft as int) == 0);
                assert(pow2(0) == 1);
                assert((ft - 1) / 1 == ft - 1);
                assert(fl as int / 1 == fl);
            }
            self.encode_uniform(fl, ft);
        }
    }

    fn put_code(&mut self, code: u32, n: i32)
        requires
            writable(old(self)@),
            n <= 31,
        ensures
            writable(final(self)@),
            same_code(final(self)@, old(self)@),
            final(self)@ == put_code(old(self)@, code as int, n as int),
    {
        let mut rest: u32 = code;
        let mut left: i32 = n;
        while left > 0
            invariant
                left <= 31,
                writable(self@),
                same_code(self@, old(self)@),
                put_code(self@, rest as int, left as int) == put_code(
                    old(self)@,
                    code as int,
                    n as int,
                ),
            decreases left + 8,
        {
            proof {
                lemma_carry_out(self@, rest as int / 0x80_0000);
            }
            self.carry_out(rest / 0x80_0000);
            assert((rest * 256) % 0x8000_0000 == (rest % 0x80_0000) * 256);
            rest = (rest % 0x80_0000) * 256;
            left = left - 8;
        }
    }

    fn finish_symbols(&mut self) -> (spare: u32)
        requires
            encoding(old(self)@),
        ensures
            writable(final(self)@),
            same_code(final(self)@, old(self)@),
            final(self)@ == symbols_written(old(self)@),
            spare == spare_bits(old(self)@),
            spare < 8,
    {
        let ghost c = self@;
        let bits: u32 = ilog(self.rng);
        let mut k: u32 = bits - 1;
        let p: u64 = small_power(k);
        proof {
            lemma2_to64();
            if bits < 24 {
                lemma_pow2_strictly_increases(bits as nat, 24);
            }
            lemma_pow2_unfold(k as nat);
            lemma_pow2_unfold(bits as nat);
            lemma_round_up(c.val, k as nat);
            lemma_round_up(c.val, (k - 1) as nat);
        }
        let mut code: u64 = (self.val as u64 + p - 1) / p * p;
        if code + p - 1 >= self.val as u64 + self.rng as u64 {
            k = k - 1;
            let q: u64 = small_power(k);
            code = (self.val as u64 + q - 1) / q * q;
        }
        assert(k == free_bits(c));
        let l: i32 = 31 - k as i32;
        self.put_code(code as u32, l);
        if self.rem >= 0 || self.ext > 0 {
            proof {
                lemma_carry_out(self@, 0);
            }
            self.carry_out(0);
        }
        (7 - (l + 7) % 8) as u32
    }

    /// Write out all that the encoder holds back.
    pub fn done(&mut self)
        requires
            encoding(old(self)@),
        ensures
            final(self)@ == finished(old(self)@),
            final(self)@.buf.len() == old(self)@.buf.len(),
            final(self)@.storage == old(self)@.storage,
    {
        let spare: u32 = self.finish_symbols();
        self.flush_raw();
        let ghost d = self@;
        if self.error {
            return;
        }
        let end: usize = (self.storage - self.end_offs) as usize;
        let mut i: usize = self.offs as usize;
        while i < end
            invariant
                d.offs <= i <= end == d.storage - d.end_offs,
                end <= d.buf.len(),
                self@ == (CoderView { buf: self@.buf, ..d }),
                self@.buf.len() == d.buf.len(),
                forall|j: int|
                    0 <= j < d.buf.len() ==> #[trigger] self@.buf[j] == if d.offs <= j < i {
                        0u8
                    } else {
                        d.buf[j]
                    },
            decreases end - i,
        {
            self.buf.set(i, 0);
            i += 1;
        }
        let ghost cleared = Seq::new(
            d.buf.len(),
            |i: int|
                if d.offs <= i < d.storage - d.end_offs {
                    0u8
                } else {
                    d.buf[i]
                },
        );
        assert(self@.buf =~= cleared);
        if self.nend_bits > 0 {
            if self.end_offs >= self.storage {
                self.error = true;
            } else {
                proof {
                    lemma2_to64();
                    lemma_pow2_strictly_increases(self@.nend_bits as nat, 8);
                }
                if self.offs + self.end_offs >= self.storage && spare < self.nend_bits {
                    self.end_window = self.end_window % small_power(spare);
                    self.error = true;
                }
                let at: usize = end - 1;
                let b: u8 = self.buf[at];
                self.buf.set(at, b | (self.end_window as u8));
            }
        }
    }
}

/// Rounding up moves a number by less than a step.
pub proof fn lemma_round_up(x: int, k: nat)
    ensures
        x <= round_up(x, k) <= x + pow2(k) - 1,
{
    lemma_pow2_pos(k);
    let p: int = pow2(k) as int;
    let y: int = x + p - 1;
    assert(x <= y / p * p <= y) by (nonlinear_arith)
        requires
            p >= 1,
            y == x + p - 1,
    ;
}

} // verus!
