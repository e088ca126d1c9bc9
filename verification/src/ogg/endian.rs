//! Little-endian integers, as Ogg and its header packets store them.

use vstd::prelude::*;

verus! {

/// The `n` low bytes of `x`, least significant first.
pub open spec fn le_bytes(x: int, n: nat) -> Seq<u8>
    decreases n,
{
    if n == 0 {
        Seq::empty()
    } else {
        seq![(x % 256) as u8] + le_bytes(x / 256, (n - 1) as nat)
    }
}

/// The number whose bytes are `s`, least significant first.
pub open spec fn le_value(s: Seq<u8>) -> int
    decreases s.len(),
{
    if s.len() == 0 {
        0
    } else {
        s[0] + 256 * le_value(s.skip(1))
    }
}

/// How many numbers `n` bytes can hold.
pub open spec fn le_range(n: nat) -> int
    decreases n,
{
    if n == 0 {
        1
    } else {
        256 * le_range((n - 1) as nat)
    }
}

/// A number reads back from the bytes it was stored as.
pub proof fn law_le_bytes_read_back(x: int, n: nat)
    requires
        0 <= x < le_range(n),
    ensures
        le_bytes(x, n).len() == n,
        le_value(le_bytes(x, n)) == x,
    decreases n,
{
    if n > 0 {
        law_le_bytes_read_back(x / 256, (n - 1) as nat);
        let s = le_bytes(x, n);
        assert(s.skip(1) =~= le_bytes(x / 256, (n - 1) as nat));
        assert(s[0] == x % 256);
    }
}

/// Bytes come back from the number they stand for.
pub proof fn lemma_le_writes_back(s: Seq<u8>)
    ensures
        0 <= le_value(s) < le_range(s.len()),
        le_bytes(le_value(s), s.len()) == s,
    decreases s.len(),
{
    if s.len() == 0 {
        assert(le_bytes(0, 0) =~= s);
    } else {
        lemma_le_writes_back(s.skip(1));
        let rest = le_value(s.skip(1));
        assert((s[0] + 256 * rest) / 256 == rest);
        assert((s[0] + 256 * rest) % 256 == s[0] as int);
        assert(le_bytes(le_value(s), s.len()) =~= s);
    }
}

/// The ranges of the widths in use.
pub proof fn lemma_le_ranges()
    ensures
        le_range(2) == 0x1_0000,
        le_range(4) == 0x1_0000_0000,
        le_range(8) == 0x1_0000_0000_0000_0000,
{
    reveal_with_fuel(le_range, 9);
}

/// Stored numbers have the width asked for.
pub proof fn lemma_le_bytes_len(x: int, n: nat)
    ensures
        le_bytes(x, n).len() == n,
    decreases n,
{
    if n > 0 {
        lemma_le_bytes_len(x / 256, (n - 1) as nat);
    }
}

proof fn lemma_le_value_2(s: Seq<u8>)
    requires
        s.len() == 2,
    ensures
        le_value(s) == s[0] + 0x100 * s[1],
{
    reveal_with_fuel(le_value, 3);
}

proof fn lemma_le_value_4(s: Seq<u8>)
    requires
        s.len() == 4,
    ensures
        le_value(s) == s[0] + 0x100 * s[1] + 0x1_0000 * s[2] + 0x100_0000 * s[3],
{
    reveal_with_fuel(le_value, 3);
    lemma_le_value_2(s.skip(1).skip(1));
}

proof fn lemma_le_value_8(s: Seq<u8>)
    requires
        s.len() == 8,
    ensures
        le_value(s) == le_value(s.subrange(0, 4)) + 0x1_0000_0000 * le_value(s.subrange(4, 8)),
{
    let t = s.skip(1).skip(1).skip(1).skip(1);
    assert(t =~= s.subrange(4, 8));
    assert(le_value(s) == s[0] + 0x100 * s[1] + 0x1_0000 * s[2] + 0x100_0000 * s[3] + 0x1_0000_0000
        * le_value(t)) by {
        reveal_with_fuel(le_value, 5);
    }
    lemma_le_value_4(s.subrange(0, 4));
}

/// Append two bytes.
pub fn push_le16(x: u16, out: &mut Vec<u8>)
    ensures
        final(out)@ == old(out)@ + le_bytes(x as int, 2),
{
    out.push((x % 256) as u8);
    out.push((x / 256) as u8);
    proof {
        reveal_with_fuel(le_bytes, 3);
        assert(out@ =~= old(out)@ + le_bytes(x as int, 2));
    }
}

/// Append four bytes.
pub fn push_le32(x: u32, out: &mut Vec<u8>)
    ensures
        final(out)@ == old(out)@ + le_bytes(x as int, 4),
{
    out.push((x % 256) as u8);
    out.push((x / 0x100 % 256) as u8);
    out.push((x / 0x1_0000 % 256) as u8);
    out.push((x / 0x100_0000) as u8);
    proof {
        reveal_with_fuel(le_bytes, 5);
        assert(x as int / 256 / 256 == x as int / 0x1_0000);
        assert(x as int / 256 / 256 / 256 == x as int / 0x100_0000);
        assert(out@ =~= old(out)@ + le_bytes(x as int, 4));
    }
}

proof fn lemma_le_bytes_split(x: int)
    requires
        0 <= x,
    ensures
        le_bytes(x, 8) == le_bytes(x % 0x1_0000_0000, 4) + le_bytes(x / 0x1_0000_0000, 4),
{
    let lo: int = x % 0x1_0000_0000;
    let hi: int = x / 0x1_0000_0000;
    reveal_with_fuel(le_bytes, 5);
    assert(lo % 256 == x % 256);
    assert(lo / 256 % 256 == x / 256 % 256);
    assert(lo / 256 / 256 % 256 == x / 256 / 256 % 256);
    assert(lo / 256 / 256 / 256 % 256 == x / 256 / 256 / 256 % 256);
    assert(hi == x / 256 / 256 / 256 / 256);
    assert(le_bytes(x, 8) =~= seq![(x % 256) as u8] + (seq![(x / 256 % 256) as u8] + (seq![
        (x / 256 / 256 % 256) as u8,
    ] + (seq![(x / 256 / 256 / 256 % 256) as u8] + le_bytes(hi, 4)))));
    assert(le_bytes(x, 8) =~= le_bytes(lo, 4) + le_bytes(hi, 4));
}

/// Append eight bytes.
pub fn push_le64(x: u64, out: &mut Vec<u8>)
    ensures
        final(out)@ == old(out)@ + le_bytes(x as int, 8),
{
    push_le32((x % 0x1_0000_0000) as u32, out);
    push_le32((x / 0x1_0000_0000) as u32, out);
    proof {
        lemma_le_bytes_split(x as int);
        assert(out@ =~= old(out)@ + le_bytes(x as int, 8));
    }
}

/// Read two bytes at `at`.
pub fn le16_at(data: &[u8], at: usize) -> (x: u16)
    requires
        at + 2 <= data@.len(),
    ensures
        x == le_value(data@.subrange(at as int, at + 2)),
{
    proof {
        lemma_le_value_2(data@.subrange(at as int, at + 2));
    }
    data[at] as u16 + 0x100 * data[at + 1] as u16
}

/// Read four bytes at `at`.
pub fn le32_at(data: &[u8], at: usize) -> (x: u32)
    requires
        at + 4 <= data@.len(),
    ensures
        x == le_value(data@.subrange(at as int, at + 4)),
{
    proof {
        lemma_le_value_4(data@.subrange(at as int, at + 4));
    }
    data[at] as u32 + 0x100 * data[at + 1] as u32 + 0x1_0000 * data[at + 2] as u32 + 0x100_0000
        * data[at + 3] as u32
}

/// Read eight bytes at `at`.
pub fn le64_at(data: &[u8], at: usize) -> (x: u64)
    requires
        at + 8 <= data@.len(),
    ensures
        x == le_value(data@.subrange(at as int, at + 8)),
{
    proof {
        let s = data@.subrange(at as int, at + 8);
        lemma_le_value_8(s);
        assert(s.subrange(0, 4) =~= data@.subrange(at as int, at + 4));
        assert(s.subrange(4, 8) =~= data@.subrange(at + 4, at + 8));
    }
    assert(at + 4 <= data.len());
    le32_at(data, at) as u64 + 0x1_0000_0000 * le32_at(data, at + 4) as u64
}

} // verus!
