//! Ogg's CRC-32 (RFC 3533 section 6).
//!
//! Not the common CRC-32: Ogg uses the same polynomial as Ethernet but runs it
//! non-reflected, with a zero initial value and no final inversion. Feeding Ogg
//! data to a stock CRC-32 gives a different answer.

use vstd::prelude::*;

verus! {

/// One bit shifted out of the register, which the polynomial is taken off where
/// the bit was set.
pub open spec fn crc_bit(r: u32) -> u32 {
    if r & 0x8000_0000 != 0 {
        (r << 1) ^ 0x04c1_1db7
    } else {
        r << 1
    }
}

/// Four bits shifted out.
pub open spec fn crc_four_bits(r: u32) -> u32 {
    crc_bit(crc_bit(crc_bit(crc_bit(r))))
}

/// One byte fed to the register.
pub open spec fn crc_byte(r: u32, b: u8) -> u32 {
    crc_four_bits(crc_four_bits(r ^ ((b as u32) << 24)))
}

/// A byte string fed to the register.
pub open spec fn crc_feed(r: u32, data: Seq<u8>) -> u32
    decreases data.len(),
{
    if data.len() == 0 {
        r
    } else {
        crc_byte(crc_feed(r, data.drop_last()), data.last())
    }
}

/// The checksum of a byte string.
pub open spec fn crc_of(data: Seq<u8>) -> u32 {
    crc_feed(0, data)
}

/// What four leading bits leave behind, for each value of them.
const TABLE: [u32; 16] = [
    0x00000000, 0x04c11db7, 0x09823b6e, 0x0d4326d9,
    0x130476dc, 0x17c56b6b, 0x1a864db2, 0x1e475005,
    0x2608edb8, 0x22c9f00f, 0x2f8ad6d6, 0x2b4bcb61,
    0x350c9b64, 0x31cd86d3, 0x3c8ea00a, 0x384fbdbd,
];

proof fn lemma_table(n: u32)
    requires
        n < 16,
    ensures
        TABLE@[n as int] == crc_four_bits(n << 28),
{
    assert({
        &&& crc_four_bits(0x0000_0000) == 0x00000000
        &&& crc_four_bits(0x1000_0000) == 0x04c11db7
        &&& crc_four_bits(0x2000_0000) == 0x09823b6e
        &&& crc_four_bits(0x3000_0000) == 0x0d4326d9
        &&& crc_four_bits(0x4000_0000) == 0x130476dc
        &&& crc_four_bits(0x5000_0000) == 0x17c56b6b
        &&& crc_four_bits(0x6000_0000) == 0x1a864db2
        &&& crc_four_bits(0x7000_0000) == 0x1e475005
        &&& crc_four_bits(0x8000_0000) == 0x2608edb8
        &&& crc_four_bits(0x9000_0000) == 0x22c9f00f
        &&& crc_four_bits(0xa000_0000) == 0x2f8ad6d6
        &&& crc_four_bits(0xb000_0000) == 0x2b4bcb61
        &&& crc_four_bits(0xc000_0000) == 0x350c9b64
        &&& crc_four_bits(0xd000_0000) == 0x31cd86d3
        &&& crc_four_bits(0xe000_0000) == 0x3c8ea00a
        &&& crc_four_bits(0xf000_0000) == 0x384fbdbd
    }) by (bit_vector);
    assert(n == 0 || n == 1 || n == 2 || n == 3 || n == 4 || n == 5 || n == 6 || n == 7 || n == 8
        || n == 9 || n == 10 || n == 11 || n == 12 || n == 13 || n == 14 || n == 15);
    assert(n << 28 == n * 0x1000_0000) by (bit_vector)
        requires
            n < 16,
    ;
}

/// Shift four bits out of the register.
fn shift_nibble(r: u32) -> (s: u32)
    ensures
        s == crc_four_bits(r),
{
    let top: u32 = r >> 28;
    assert(top < 16 && crc_four_bits(r) == (r << 4) ^ crc_four_bits(top << 28)) by (bit_vector)
        requires
            top == r >> 28,
    ;
    proof {
        lemma_table(top);
    }
    (r << 4) ^ TABLE[top as usize]
}

/// Running CRC-32 over a page, which is checksummed with its own checksum field
/// zeroed.
#[derive(Debug, Clone, Copy)]
pub struct Crc32(u32);

impl View for Crc32 {
    type V = u32;

    closed spec fn view(&self) -> u32 {
        self.0
    }
}

impl Default for Crc32 {
    fn default() -> (c: Self)
        ensures
            c@ == 0,
    {
        Crc32(0)
    }
}

impl Crc32 {
    /// A register that has seen nothing.
    pub fn new() -> (c: Self)
        ensures
            c@ == 0,
    {
        Crc32(0)
    }

    fn feed(&mut self, b: u8)
        ensures
            final(self)@ == crc_byte(old(self)@, b),
    {
        self.0 = shift_nibble(shift_nibble(self.0 ^ ((b as u32) << 24)));
    }

    /// Feed a byte string.
    pub fn update(&mut self, data: &[u8])
        ensures
            final(self)@ == crc_feed(old(self)@, data@),
    {
        let ghost start = self@;
        let mut i: usize = 0;
        assert(data@.take(0) =~= Seq::<u8>::empty());
        while i < data.len()
            invariant
                i <= data@.len(),
                self@ == crc_feed(start, data@.take(i as int)),
            decreases data@.len() - i,
        {
            self.feed(data[i]);
            proof {
                assert(data@.take(i + 1).drop_last() =~= data@.take(i as int));
            }
            i += 1;
        }
        assert(data@.take(i as int) =~= data@);
    }

    /// Feed `n` zero bytes, which is how the checksum field itself is covered.
    pub fn update_zeros(&mut self, n: usize)
        ensures
            final(self)@ == crc_feed(old(self)@, Seq::new(n as nat, |i: int| 0u8)),
    {
        let ghost start = self@;
        let mut i: usize = 0;
        while i < n
            invariant
                i <= n,
                self@ == crc_feed(start, Seq::new(i as nat, |j: int| 0u8)),
            decreases n - i,
        {
            self.feed(0);
            proof {
                let s = Seq::new((i + 1) as nat, |j: int| 0u8);
                assert(s.drop_last() =~= Seq::new(i as nat, |j: int| 0u8));
            }
            i += 1;
        }
    }

    /// The checksum of everything fed.
    pub fn finish(self) -> (crc: u32)
        ensures
            crc == self@,
    {
        self.0
    }
}

/// One-shot checksum of a contiguous buffer.
pub fn crc32(data: &[u8]) -> (crc: u32)
    ensures
        crc == crc_of(data@),
{
    let mut c = Crc32::new();
    c.update(data);
    c.finish()
}

/// Feeding a byte string in two pieces is feeding it whole.
pub proof fn law_feeding_is_incremental(r: u32, a: Seq<u8>, b: Seq<u8>)
    ensures
        crc_feed(crc_feed(r, a), b) == crc_feed(r, a + b),
    decreases b.len(),
{
    if b.len() == 0 {
        assert(a + b =~= a);
    } else {
        law_feeding_is_incremental(r, a, b.drop_last());
        assert((a + b).drop_last() =~= a + b.drop_last());
    }
}

/// Two byte strings of one length, xored byte by byte.
pub open spec fn xored(a: Seq<u8>, b: Seq<u8>) -> Seq<u8> {
    Seq::new(a.len(), |i: int| a[i] ^ b[i])
}

proof fn lemma_four_bits_are_linear(x: u32, y: u32)
    ensures
        crc_four_bits(x ^ y) == crc_four_bits(x) ^ crc_four_bits(y),
{
    assert(crc_four_bits(x ^ y) == crc_four_bits(x) ^ crc_four_bits(y)) by (bit_vector);
}

proof fn lemma_byte_is_linear(x: u32, y: u32, a: u8, b: u8)
    ensures
        crc_byte(x ^ y, a ^ b) == crc_byte(x, a) ^ crc_byte(y, b),
{
    let p: u32 = x ^ ((a as u32) << 24);
    let q: u32 = y ^ ((b as u32) << 24);
    assert((x ^ y) ^ (((a ^ b) as u32) << 24) == (x ^ ((a as u32) << 24)) ^ (y ^ ((b as u32)
        << 24))) by (bit_vector);
    lemma_four_bits_are_linear(p, q);
    lemma_four_bits_are_linear(crc_four_bits(p), crc_four_bits(q));
}

/// The checksum is linear: feeding two byte strings of one length xored together
/// gives the checksums of both xored together.
pub proof fn law_the_checksum_is_linear(x: u32, y: u32, a: Seq<u8>, b: Seq<u8>)
    requires
        a.len() == b.len(),
    ensures
        crc_feed(x ^ y, xored(a, b)) == crc_feed(x, a) ^ crc_feed(y, b),
        crc_of(xored(a, b)) == crc_of(a) ^ crc_of(b),
        crc_of(Seq::empty()) == 0,
    decreases a.len(),
{
    assert(0u32 ^ 0u32 == 0u32) by (bit_vector);
    if a.len() > 0 {
        let front = a.drop_last();
        let back = b.drop_last();
        law_the_checksum_is_linear(x, y, front, back);
        law_the_checksum_is_linear(0, 0, front, back);
        assert(xored(a, b).drop_last() =~= xored(front, back));
        assert(xored(a, b).last() == a.last() ^ b.last());
        lemma_byte_is_linear(crc_feed(x, front), crc_feed(y, back), a.last(), b.last());
        lemma_byte_is_linear(crc_feed(0, front), crc_feed(0, back), a.last(), b.last());
    }
}

proof fn lemma_bit_keeps_registers_apart(x: u32, y: u32)
    requires
        x != y,
    ensures
        crc_bit(x) != crc_bit(y),
{
    assert(crc_bit(x) != crc_bit(y)) by (bit_vector)
        requires
            x != y,
    ;
}

proof fn lemma_byte_keeps_registers_apart(x: u32, y: u32, b: u8)
    requires
        x != y,
    ensures
        crc_byte(x, b) != crc_byte(y, b),
{
    let t: u32 = (b as u32) << 24;
    assert(x ^ t != y ^ t) by (bit_vector)
        requires
            x != y,
    ;
    lemma_eight_bits_keep_registers_apart(x ^ t, y ^ t);
}

proof fn lemma_eight_bits_keep_registers_apart(x: u32, y: u32)
    requires
        x != y,
    ensures
        crc_four_bits(crc_four_bits(x)) != crc_four_bits(crc_four_bits(y)),
{
    lemma_four_bits_keep_registers_apart(x, y);
    lemma_four_bits_keep_registers_apart(crc_four_bits(x), crc_four_bits(y));
}

proof fn lemma_four_bits_keep_registers_apart(x: u32, y: u32)
    requires
        x != y,
    ensures
        crc_four_bits(x) != crc_four_bits(y),
{
    lemma_bit_keeps_registers_apart(x, y);
    lemma_bit_keeps_registers_apart(crc_bit(x), crc_bit(y));
    lemma_bit_keeps_registers_apart(crc_bit(crc_bit(x)), crc_bit(crc_bit(y)));
    lemma_bit_keeps_registers_apart(crc_bit(crc_bit(crc_bit(x))), crc_bit(crc_bit(crc_bit(y))));
}

proof fn lemma_feed_keeps_registers_apart(x: u32, y: u32, data: Seq<u8>)
    requires
        x != y,
    ensures
        crc_feed(x, data) != crc_feed(y, data),
    decreases data.len(),
{
    if data.len() > 0 {
        lemma_feed_keeps_registers_apart(x, y, data.drop_last());
        lemma_byte_keeps_registers_apart(
            crc_feed(x, data.drop_last()),
            crc_feed(y, data.drop_last()),
            data.last(),
        );
    }
}

/// A byte string with one byte changed has another checksum.
pub proof fn law_one_changed_byte_is_detected(data: Seq<u8>, i: int, b: u8)
    requires
        0 <= i < data.len(),
        b != data[i],
    ensures
        crc_of(data.update(i, b)) != crc_of(data),
{
    let front = data.take(i);
    let back = data.skip(i + 1);
    let r: u32 = crc_feed(0, front);
    let c: u8 = data[i];
    let changed = data.update(i, b);
    assert(data =~= (front + seq![c]) + back);
    assert(changed =~= (front + seq![b]) + back);
    assert(r ^ ((b as u32) << 24) != r ^ ((c as u32) << 24)) by (bit_vector)
        requires
            b != c,
    ;
    lemma_eight_bits_keep_registers_apart(r ^ ((b as u32) << 24), r ^ ((c as u32) << 24));
    assert((front + seq![c]).drop_last() =~= front);
    assert((front + seq![b]).drop_last() =~= front);
    law_feeding_is_incremental(0, front + seq![c], back);
    law_feeding_is_incremental(0, front + seq![b], back);
    lemma_feed_keeps_registers_apart(crc_byte(r, b), crc_byte(r, c), back);
}

} // verus!
