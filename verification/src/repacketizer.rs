//! Splitting Opus packets into frames and recombining, re-framing or padding
//! them without re-encoding.
//!
//! A packet is a framing header followed by its frames (RFC 6716 section 3.2).
//! [`Repacketizer`] merges several packets into a longer one or cuts a
//! multi-frame packet apart; [`pad_packet`] and [`unpad_packet`] grow and
//! shrink a packet for transports that want a fixed size. All frames in a
//! repacketizer share one TOC configuration; only the frame-packing code and
//! the framing change.

use vstd::prelude::*;

use crate::error::{Error, Result};
use crate::packet::{frame_count, spec_frame_count, toc_samples, toc_samples_per_frame};
use crate::toc::{lemma_toc_bits, toc_code, toc_config};

verus! {

// ---------------------------------------------------------------------------
// Sums and concatenations
// ---------------------------------------------------------------------------
/// The sum of a sequence of lengths.
pub open spec fn total(lens: Seq<int>) -> int
    decreases lens.len(),
{
    if lens.len() == 0 {
        0
    } else {
        total(lens.drop_last()) + lens.last()
    }
}

/// Byte strings laid end to end.
pub open spec fn concat(parts: Seq<Seq<u8>>) -> Seq<u8>
    decreases parts.len(),
{
    if parts.len() == 0 {
        Seq::empty()
    } else {
        concat(parts.drop_last()) + parts.last()
    }
}

/// The length of each byte string.
pub open spec fn lengths(parts: Seq<Seq<u8>>) -> Seq<int> {
    Seq::new(parts.len(), |i: int| parts[i].len() as int)
}

proof fn lemma_total_nonneg(lens: Seq<int>)
    requires
        forall|i: int| 0 <= i < lens.len() ==> 0 <= #[trigger] lens[i],
    ensures
        total(lens) >= 0,
    decreases lens.len(),
{
    if lens.len() > 0 {
        lemma_total_nonneg(lens.drop_last());
    }
}

proof fn lemma_total_prefix(lens: Seq<int>, i: int)
    requires
        0 <= i < lens.len(),
        forall|j: int| 0 <= j < lens.len() ==> 0 <= #[trigger] lens[j],
    ensures
        0 <= total(lens.take(i)),
        total(lens.take(i + 1)) == total(lens.take(i)) + lens[i],
        total(lens.take(i + 1)) <= total(lens),
    decreases lens.len() - i,
{
    assert(lens.take(i + 1).drop_last() =~= lens.take(i));
    lemma_total_nonneg(lens.take(i));
    if i + 1 < lens.len() {
        lemma_total_prefix(lens, i + 1);
    } else {
        assert(lens.take(i + 1) =~= lens);
    }
}

proof fn lemma_total_constant(n: nat, x: int)
    ensures
        total(Seq::new(n, |i: int| x)) == n * x,
    decreases n,
{
    let s = Seq::new(n, |i: int| x);
    if n > 0 {
        lemma_total_constant((n - 1) as nat, x);
        assert(s.drop_last() =~= Seq::new((n - 1) as nat, |i: int| x));
        assert((n - 1) * x + x == n * x) by (nonlinear_arith);
    } else {
        assert(0 * x == 0) by (nonlinear_arith);
    }
}

proof fn lemma_concat_length(parts: Seq<Seq<u8>>)
    ensures
        concat(parts).len() == total(lengths(parts)),
    decreases parts.len(),
{
    if parts.len() > 0 {
        lemma_concat_length(parts.drop_last());
        assert(lengths(parts).drop_last() =~= lengths(parts.drop_last()));
    }
}

/// Each part sits in the concatenation at the sum of the lengths before it.
proof fn lemma_concat_slices(parts: Seq<Seq<u8>>, i: int)
    requires
        0 <= i < parts.len(),
    ensures
        0 <= total(lengths(parts).take(i)),
        total(lengths(parts).take(i)) + parts[i].len() <= concat(parts).len(),
        concat(parts).subrange(
            total(lengths(parts).take(i)),
            total(lengths(parts).take(i)) + parts[i].len(),
        ) == parts[i],
    decreases parts.len(),
{
    let lens = lengths(parts);
    lemma_concat_length(parts);
    lemma_total_prefix(lens, i);
    let front = parts.drop_last();
    lemma_concat_length(front);
    assert(lens.drop_last() =~= lengths(front));
    let at: int = total(lens.take(i));
    if i + 1 == parts.len() {
        assert(lens.take(i) =~= lengths(front));
        assert(concat(parts).subrange(at, at + parts[i].len()) =~= parts[i]);
    } else {
        lemma_concat_slices(front, i);
        assert(lengths(front).take(i) =~= lens.take(i));
        assert(concat(parts).subrange(at, at + parts[i].len()) =~= concat(front).subrange(
            at,
            at + front[i].len(),
        ));
    }
}

// ---------------------------------------------------------------------------
// Frame-length fields
// ---------------------------------------------------------------------------
/// The frame length coded at the front of `data`, with the number of bytes it
/// takes; `None` where the field is cut short.
pub open spec fn size_field(data: Seq<u8>) -> Option<(int, int)> {
    if data.len() == 0 {
        None
    } else if data[0] < 252 {
        Some((1, data[0] as int))
    } else if data.len() < 2 {
        None
    } else {
        Some((2, 4 * data[1] + data[0]))
    }
}

/// The bytes that code a frame length of at most 1275.
pub open spec fn size_bytes(size: int) -> Seq<u8> {
    if size < 252 {
        seq![size as u8]
    } else {
        seq![(252 + size % 4) as u8, ((size - 252 - size % 4) / 4) as u8]
    }
}

/// A frame length reads back as it was coded, whatever follows it.
#[verifier::spinoff_prover]
#[verifier::rlimit(60)]
pub proof fn law_size_field_round_trips(size: int, rest: Seq<u8>)
    requires
        0 <= size <= 1275,
    ensures
        size_field(size_bytes(size) + rest) == Some((size_bytes(size).len() as int, size)),
{
    let s = size_bytes(size) + rest;
    if size < 252 {
        assert(s[0] == size);
    } else {
        assert(s[0] == 252 + size % 4);
        assert(s[1] == (size - 252 - size % 4) / 4);
    }
}

/// The fields of several frame lengths, one after the other.
pub open spec fn size_fields(lens: Seq<int>) -> Seq<u8>
    decreases lens.len(),
{
    if lens.len() == 0 {
        Seq::empty()
    } else {
        size_fields(lens.drop_last()) + size_bytes(lens.last())
    }
}

/// Decode one frame-length field. Returns the bytes consumed and the size.
pub fn parse_size(data: &[u8]) -> (r: Option<(usize, usize)>)
    ensures
        r matches Some((bytes, size)) ==> size_field(data@) == Some((bytes as int, size as int)) && 1
            <= bytes <= 2 && bytes <= data@.len() && size <= 1275,
        r is None ==> size_field(data@) is None,
{
    if data.len() == 0 {
        None
    } else if data[0] < 252 {
        Some((1, data[0] as usize))
    } else if data.len() < 2 {
        None
    } else {
        Some((2, data[1] as usize * 4 + data[0] as usize))
    }
}

/// Append the field that codes `size`.
pub fn encode_size(size: usize, out: &mut Vec<u8>)
    requires
        size <= 1275,
    ensures
        final(out)@ == old(out)@ + size_bytes(size as int),
{
    if size < 252 {
        out.push(size as u8);
    } else {
        let b0: usize = 252 + size % 4;
        out.push(b0 as u8);
        out.push(((size - b0) / 4) as u8);
    }
    assert(out@ =~= old(out)@ + size_bytes(size as int));
}

// ---------------------------------------------------------------------------
// The layout of a packet
// ---------------------------------------------------------------------------
/// What the framing header says before any frame length is read.
pub struct Framing {
    /// Frames in the packet.
    pub count: int,
    /// Whether each frame has a length of its own.
    pub vbr: bool,
    /// Where the lengths, or else the frames, begin.
    pub start: int,
    /// Bytes from `start` that are not padding.
    pub avail: int,
}

/// Skip the padding lengths at `pos`, with `avail` bytes left from there: the
/// position behind them, and what is left without the padding they announce.
/// Each 255 announces 254 bytes and that another length follows.
pub open spec fn skip_padding(data: Seq<u8>, pos: int, avail: int) -> Option<(int, int)>
    decreases data.len() - pos,
{
    if avail <= 0 || pos < 0 || pos >= data.len() {
        None
    } else if data[pos] == 255 {
        skip_padding(data, pos + 1, avail - 255)
    } else {
        Some((pos + 1, avail - 1 - data[pos]))
    }
}

/// The framing header of a packet; `None` where it is malformed.
pub open spec fn framing(data: Seq<u8>) -> Option<Framing> {
    let n = data.len() as int;
    if n == 0 {
        None
    } else if toc_code(data[0]) == 0 {
        Some(Framing { count: 1, vbr: true, start: 1, avail: n - 1 })
    } else if toc_code(data[0]) == 1 {
        Some(Framing { count: 2, vbr: false, start: 1, avail: n - 1 })
    } else if toc_code(data[0]) == 2 {
        Some(Framing { count: 2, vbr: true, start: 1, avail: n - 1 })
    } else if n < 2 {
        None
    } else {
        let count = data[1] as int % 64;
        let vbr = data[1] >= 128;
        let padded = (data[1] as int / 64) % 2 == 1;
        if count == 0 || toc_samples(data[0], 48_000) * count > 5760 {
            None
        } else if !padded {
            Some(Framing { count, vbr, start: 2, avail: n - 2 })
        } else {
            match skip_padding(data, 2, n - 2) {
                Some((pos, avail)) if avail >= 0 => Some(Framing { count, vbr, start: pos, avail }),
                _ => None,
            }
        }
    }
}

/// `k` frame lengths read from `pos` on, and where they end.
pub open spec fn read_sizes(data: Seq<u8>, pos: int, k: int) -> Option<(Seq<int>, int)>
    decreases k,
{
    if k <= 0 {
        Some((Seq::empty(), pos))
    } else {
        match read_sizes(data, pos, k - 1) {
            None => None,
            Some((sizes, at)) => match size_field(data.skip(at)) {
                None => None,
                Some((bytes, size)) => Some((sizes.push(size), at + bytes)),
            },
        }
    }
}

/// Where the frames of a packet are: their lengths, and the position of the
/// first. `None` where the packet is malformed.
///
/// The self-delimited form codes the length of the last frame too, so that
/// packets can be laid end to end.
pub open spec fn packet_sizes(data: Seq<u8>, self_delimited: bool) -> Option<(Seq<int>, int)> {
    match framing(data) {
        None => None,
        Some(f) => if f.vbr {
            match read_sizes(
                data,
                f.start,
                if self_delimited {
                    f.count
                } else {
                    f.count - 1
                },
            ) {
                None => None,
                Some((sizes, at)) => {
                    let left = f.avail - (at - f.start) - total(sizes);
                    if left < 0 {
                        None
                    } else if self_delimited {
                        Some((sizes, at))
                    } else if left > 1275 {
                        None
                    } else {
                        Some((sizes.push(left), at))
                    }
                },
            }
        } else if self_delimited {
            match size_field(data.skip(f.start)) {
                None => None,
                Some((bytes, size)) => if bytes + f.count * size > f.avail {
                    None
                } else {
                    Some((Seq::new(f.count as nat, |i: int| size), f.start + bytes))
                },
            }
        } else if f.avail % f.count != 0 || f.avail / f.count > 1275 {
            None
        } else {
            Some((Seq::new(f.count as nat, |i: int| f.avail / f.count), f.start))
        },
    }
}

/// Frame `i` of a layout.
pub open spec fn frame_at(data: Seq<u8>, sizes: Seq<int>, start: int, i: int) -> Seq<u8> {
    data.subrange(start + total(sizes.take(i)), start + total(sizes.take(i)) + sizes[i])
}

/// The frames of a packet; `None` where it is malformed.
pub open spec fn packet_frames(data: Seq<u8>, self_delimited: bool) -> Option<Seq<Seq<u8>>> {
    match packet_sizes(data, self_delimited) {
        None => None,
        Some((sizes, start)) => Some(
            Seq::new(sizes.len(), |i: int| frame_at(data, sizes, start, i)),
        ),
    }
}

/// Where the last frame of a packet ends.
pub open spec fn packet_end(data: Seq<u8>, self_delimited: bool) -> int {
    let (sizes, start) = packet_sizes(data, self_delimited)->0;
    start + total(sizes)
}

proof fn lemma_skip_padding(data: Seq<u8>, pos: int, avail: int)
    requires
        0 <= pos,
        pos + avail <= data.len(),
        skip_padding(data, pos, avail) is Some,
    ensures
        ({
            let (p, a) = skip_padding(data, pos, avail)->0;
            pos < p <= data.len() && p + a <= data.len()
        }),
    decreases data.len() - pos,
{
    if data[pos] == 255 {
        lemma_skip_padding(data, pos + 1, avail - 255);
    }
}

proof fn lemma_framing(data: Seq<u8>)
    requires
        framing(data) is Some,
    ensures
        ({
            let f = framing(data)->0;
            &&& 1 <= f.count <= 63
            &&& f.count <= 2 || toc_samples(data[0], 48_000) * f.count <= 5760
            &&& 1 <= f.start <= data.len()
            &&& 0 <= f.avail
            &&& f.start + f.avail <= data.len()
        }),
{
    let n = data.len() as int;
    if toc_code(data[0]) == 3 && n >= 2 && (data[1] as int / 64) % 2 == 1 {
        lemma_skip_padding(data, 2, n - 2);
    }
}

proof fn lemma_read_sizes(data: Seq<u8>, pos: int, k: int)
    requires
        0 <= pos <= data.len(),
        0 <= k,
        read_sizes(data, pos, k) is Some,
    ensures
        ({
            let (sizes, at) = read_sizes(data, pos, k)->0;
            &&& sizes.len() == k
            &&& forall|i: int| 0 <= i < sizes.len() ==> 0 <= #[trigger] sizes[i] <= 1275
            &&& pos <= at <= data.len()
            &&& 0 <= total(sizes)
        }),
    decreases k,
{
    if k > 0 {
        lemma_read_sizes(data, pos, k - 1);
        let (before, at) = read_sizes(data, pos, k - 1)->0;
        let (sizes, end) = read_sizes(data, pos, k)->0;
        assert(sizes.drop_last() =~= before);
    }
}

/// Every frame of a well-formed packet lies inside it and is at most 1275 bytes
/// long, and there are as many frames as the packet declares.
#[verifier::spinoff_prover]
#[verifier::rlimit(60)]
pub proof fn law_frames_lie_inside_the_packet(data: Seq<u8>, self_delimited: bool)
    requires
        packet_sizes(data, self_delimited) is Some,
    ensures
        ({
            let (sizes, start) = packet_sizes(data, self_delimited)->0;
            &&& sizes.len() >= 1
            &&& spec_frame_count(data) == Ok::<usize, Error>(sizes.len() as usize)
            &&& sizes.len() <= 63
            &&& sizes.len() <= 2 || toc_samples(data[0], 48_000) * sizes.len() <= 5760
            &&& forall|i: int| 0 <= i < sizes.len() ==> 0 <= #[trigger] sizes[i] <= 1275
            &&& 1 <= start
            &&& start + total(sizes) <= data.len()
        }),
{
    lemma_framing(data);
    let f = framing(data)->0;
    let (sizes, start) = packet_sizes(data, self_delimited)->0;
    if f.vbr {
        let k = if self_delimited {
            f.count
        } else {
            f.count - 1
        };
        lemma_read_sizes(data, f.start, k);
        let (read, at) = read_sizes(data, f.start, k)->0;
        if !self_delimited {
            assert(sizes.drop_last() =~= read);
        }
    } else if self_delimited {
        let (bytes, size) = size_field(data.skip(f.start))->0;
        lemma_total_constant(f.count as nat, size);
    } else {
        let size: int = f.avail / f.count;
        assert(f.count * size == f.avail && size >= 0) by (nonlinear_arith)
            requires
                f.count > 0,
                f.avail >= 0,
                f.avail % f.count == 0,
                size == f.avail / f.count,
        ;
        lemma_total_constant(f.count as nat, size);
    }
}

/// The framing header of `data`: frame count, whether each frame has its own
/// length, where lengths or frames begin, and the bytes from there that are not
/// padding.
fn parse_framing(data: &[u8]) -> (r: Option<(usize, bool, usize, usize)>)
    ensures
        match r {
            Some((count, vbr, start, avail)) => framing(data@) == Some(
                Framing {
                    count: count as int,
                    vbr,
                    start: start as int,
                    avail: avail as int,
                },
            ),
            None => framing(data@) is None,
        },
{
    let n: usize = data.len();
    if n == 0 {
        return None;
    }
    let toc: u8 = data[0];
    proof {
        lemma_toc_bits(toc);
    }
    let code: u8 = toc & 0x3;
    if code == 0 {
        return Some((1, true, 1, n - 1));
    }
    if code == 1 {
        return Some((2, false, 1, n - 1));
    }
    if code == 2 {
        return Some((2, true, 1, n - 1));
    }
    if n < 2 {
        return None;
    }
    let ch: u8 = data[1];
    assert(ch & 0x3f == ch % 64 && (ch & 0x40 != 0) == ((ch / 64) % 2 == 1) && (ch & 0x80 != 0) == (
    ch >= 128)) by (bit_vector);
    let count: usize = (ch & 0x3f) as usize;
    let framesize: i32 = toc_samples_per_frame(toc, 48_000);
    assert(framesize <= 48_000);
    assert(framesize * count <= 48_000 * 63) by (nonlinear_arith)
        requires
            0 <= framesize <= 48_000,
            count <= 63,
    ;
    if count == 0 || framesize * count as i32 > 5760 {
        return None;
    }
    let vbr = ch & 0x80 != 0;
    if ch & 0x40 == 0 {
        return Some((count, vbr, 2, n - 2));
    }
    let mut pos: usize = 2;
    let mut avail: usize = n - 2;
    loop
        invariant
            2 <= pos,
            pos + avail <= n,
            n == data@.len(),
            skip_padding(data@, 2, n - 2) == skip_padding(data@, pos as int, avail as int),
            framing(data@) == (match skip_padding(data@, 2, n - 2) {
                Some((p, a)) if a >= 0 => Some(
                    Framing { count: count as int, vbr, start: p, avail: a },
                ),
                _ => None,
            }),
        decreases n - pos,
    {
        if avail == 0 {
            return None;
        }
        let p: u8 = data[pos];
        if p == 255 {
            if avail <= 255 {
                proof {
                    assert(skip_padding(data@, pos + 1, avail - 255) is None);
                }
                return None;
            }
            pos += 1;
            avail -= 255;
        } else {
            if avail < 1 + p as usize {
                return None;
            }
            return Some((count, vbr, pos + 1, avail - 1 - p as usize));
        }
    }
}

/// Read `k` frame lengths from `pos` on.
fn parse_sizes(data: &[u8], pos: usize, k: usize) -> (r: Option<(Vec<usize>, usize)>)
    requires
        pos <= data@.len(),
    ensures
        match r {
            Some((sizes, at)) => read_sizes(data@, pos as int, k as int) == Some(
                (as_ints(sizes@), at as int),
            ),
            None => read_sizes(data@, pos as int, k as int) is None,
        },
{
    let mut sizes: Vec<usize> = Vec::new();
    let mut at: usize = pos;
    let mut i: usize = 0;
    proof {
        assert(as_ints(sizes@) =~= Seq::<int>::empty());
    }
    while i < k
        invariant
            i <= k,
            pos <= at <= data@.len(),
            read_sizes(data@, pos as int, i as int) == Some((as_ints(sizes@), at as int)),
        decreases k - i,
    {
        let ghost before = sizes@;
        let rest = vstd::slice::slice_subrange(data, at, data.len());
        proof {
            assert(rest@ =~= data@.skip(at as int));
        }
        match parse_size(rest) {
            None => {
                proof {
                    lemma_read_sizes_fails(data@, pos as int, i + 1, k as int);
                }
                return None;
            },
            Some((bytes, size)) => {
                sizes.push(size);
                at += bytes;
                proof {
                    assert(as_ints(sizes@) =~= as_ints(before).push(size as int));
                }
            },
        }
        i += 1;
    }
    Some((sizes, at))
}

proof fn lemma_read_sizes_fails(data: Seq<u8>, pos: int, j: int, k: int)
    requires
        0 <= j <= k,
        read_sizes(data, pos, j) is None,
    ensures
        read_sizes(data, pos, k) is None,
    decreases k,
{
    if j < k {
        lemma_read_sizes_fails(data, pos, j, k - 1);
    }
}

/// Machine lengths as mathematical ones.
pub open spec fn as_ints(lens: Seq<usize>) -> Seq<int> {
    Seq::new(lens.len(), |i: int| lens[i] as int)
}

/// Add up frame lengths.
fn sum_sizes(sizes: &Vec<usize>) -> (t: usize)
    requires
        sizes@.len() <= 63,
        forall|i: int| 0 <= i < sizes@.len() ==> #[trigger] sizes@[i] <= 1275,
    ensures
        t == total(as_ints(sizes@)),
{
    let mut t: usize = 0;
    let mut i: usize = 0;
    proof {
        assert(as_ints(sizes@).take(0) =~= Seq::<int>::empty());
    }
    while i < sizes.len()
        invariant
            i <= sizes@.len() <= 63,
            t == total(as_ints(sizes@).take(i as int)),
            t <= 1275 * i,
            forall|j: int| 0 <= j < sizes@.len() ==> #[trigger] sizes@[j] <= 1275,
        decreases sizes@.len() - i,
    {
        proof {
            lemma_total_prefix(as_ints(sizes@), i as int);
        }
        t += sizes[i];
        i += 1;
    }
    proof {
        assert(as_ints(sizes@).take(i as int) =~= as_ints(sizes@));
    }
    t
}

/// The lengths of the frames of `data`, and where the first one begins.
fn parse_layout(data: &[u8], self_delimited: bool) -> (r: Option<(Vec<usize>, usize)>)
    ensures
        match r {
            Some((sizes, start)) => packet_sizes(data@, self_delimited) == Some(
                (as_ints(sizes@), start as int),
            ),
            None => packet_sizes(data@, self_delimited) is None,
        },
{
    let (count, vbr, start, avail) = match parse_framing(data) {
        None => {
            return None;
        },
        Some(f) => f,
    };
    proof {
        lemma_framing(data@);
    }
    if vbr {
        let k: usize = if self_delimited {
            count
        } else {
            count - 1
        };
        let (mut sizes, at) = match parse_sizes(data, start, k) {
            None => {
                return None;
            },
            Some(x) => x,
        };
        proof {
            lemma_read_sizes(data@, start as int, k as int);
            assert forall|i: int| 0 <= i < sizes@.len() implies #[trigger] sizes@[i] <= 1275 by {
                assert(as_ints(sizes@)[i] <= 1275);
            }
        }
        let used: usize = sum_sizes(&sizes);
        if at - start > avail || used > avail - (at - start) {
            return None;
        }
        let left: usize = avail - (at - start) - used;
        if !self_delimited {
            if left > 1275 {
                return None;
            }
            let ghost before = sizes@;
            sizes.push(left);
            proof {
                assert(as_ints(sizes@) =~= as_ints(before).push(left as int));
            }
        }
        Some((sizes, at))
    } else if self_delimited {
        let rest = vstd::slice::slice_subrange(data, start, data.len());
        proof {
            assert(rest@ =~= data@.skip(start as int));
        }
        match parse_size(rest) {
            None => None,
            Some((bytes, size)) => {
                assert(0 <= count * size <= 63 * 1275) by (nonlinear_arith)
                    requires
                        count <= 63,
                        size <= 1275,
                ;
                if bytes + count * size > avail {
                    return None;
                }
                let sizes: Vec<usize> = vec![size; count];
                proof {
                    assert(as_ints(sizes@) =~= Seq::new(count as nat, |i: int| size as int));
                }
                Some((sizes, start + bytes))
            },
        }
    } else {
        if avail % count != 0 || avail / count > 1275 {
            return None;
        }
        let sizes: Vec<usize> = vec![avail / count; count];
        proof {
            assert(as_ints(sizes@) =~= Seq::new(
                count as nat,
                |i: int| avail as int / count as int,
            ));
        }
        Some((sizes, start))
    }
}

/// Split `data` into its frames: the TOC byte, the position and length of each
/// frame, and where the last one ends. `self_delimited` reads the length of the
/// last frame as well, as multistream packets code it.
pub fn parse_packet(data: &[u8], self_delimited: bool) -> (r: Result<
    (u8, Vec<(usize, usize)>, usize),
>)
    ensures
        match r {
            Ok((toc, frames, end)) => {
                &&& packet_sizes(data@, self_delimited) matches Some((sizes, start))
                &&& toc == data@[0]
                &&& frames@.len() == sizes.len()
                &&& forall|i: int|
                    0 <= i < sizes.len() ==> (#[trigger] frames@[i]).0 == start + total(
                        sizes.take(i),
                    ) && frames@[i].1 == sizes[i]
                &&& end == packet_end(data@, self_delimited)
            },
            Err(e) => e == Error::InvalidPacket("invalid packet") && packet_sizes(
                data@,
                self_delimited,
            ) is None,
        },
{
    let (sizes, start) = match parse_layout(data, self_delimited) {
        None => {
            return Err(Error::InvalidPacket("invalid packet"));
        },
        Some(x) => x,
    };
    proof {
        law_frames_lie_inside_the_packet(data@, self_delimited);
    }
    let mut frames: Vec<(usize, usize)> = Vec::with_capacity(sizes.len());
    let mut off: usize = start;
    let mut i: usize = 0;
    let n: usize = data.len();
    proof {
        assert(as_ints(sizes@).take(0) =~= Seq::<int>::empty());
    }
    while i < sizes.len()
        invariant
            i <= sizes@.len(),
            n == data@.len(),
            frames@.len() == i,
            forall|j: int|
                0 <= j < sizes@.len() ==> 0 <= #[trigger] as_ints(sizes@)[j] <= 1275,
            off == start + total(as_ints(sizes@).take(i as int)),
            start + total(as_ints(sizes@)) <= data@.len(),
            forall|j: int|
                0 <= j < i ==> (#[trigger] frames@[j]).0 == start + total(as_ints(sizes@).take(j))
                    && frames@[j].1 == sizes@[j],
        decreases sizes@.len() - i,
    {
        proof {
            lemma_total_prefix(as_ints(sizes@), i as int);
            assert(as_ints(sizes@)[i as int] == sizes@[i as int]);
        }
        frames.push((off, sizes[i]));
        off += sizes[i];
        i += 1;
    }
    proof {
        assert(as_ints(sizes@).take(i as int) =~= as_ints(sizes@));
    }
    Ok((data[0], frames, off))
}

// ---------------------------------------------------------------------------
// Emitting a packet
// ---------------------------------------------------------------------------
/// Whether all frames have the length of the first.
pub open spec fn equal_lengths(lens: Seq<int>) -> bool {
    forall|i: int| 0 <= i < lens.len() ==> #[trigger] lens[i] == lens[0]
}

/// The bytes of a code 3 packet of these frames, without padding.
pub open spec fn code3_length(lens: Seq<int>) -> int {
    2 + (if equal_lengths(lens) {
        0
    } else {
        size_fields(lens.drop_last()).len() as int
    }) + total(lens)
}

/// The padding that brings a code 3 packet of these frames to `n` bytes.
pub open spec fn padding_amount(lens: Seq<int>, n: int) -> int {
    if n > code3_length(lens) {
        n - code3_length(lens)
    } else {
        0
    }
}

/// The length bytes that announce `amount` bytes of padding, themselves
/// counted.
pub open spec fn padding_bytes(amount: int) -> Seq<u8> {
    if amount <= 0 {
        Seq::empty()
    } else {
        Seq::new(((amount - 1) / 255) as nat, |i: int| 255u8).push(((amount - 1) % 255) as u8)
    }
}

/// The framing header: everything ahead of the first frame.
///
/// One or two frames take codes 0 to 2; more frames, or padding, take code 3.
pub open spec fn header_bytes(
    toc: u8,
    lens: Seq<int>,
    pad_to: Option<int>,
    self_delimited: bool,
) -> Seq<u8> {
    let base = toc as int - toc as int % 4;
    let n = lens.len() as int;
    let last = if self_delimited {
        size_bytes(lens.last())
    } else {
        Seq::empty()
    };
    if n > 2 || pad_to is Some {
        let vbr = !equal_lengths(lens);
        let amount = match pad_to {
            Some(m) => padding_amount(lens, m),
            None => 0,
        };
        let count = n + (if vbr {
            128int
        } else {
            0
        }) + (if amount != 0 {
            64int
        } else {
            0
        });
        seq![(base + 3) as u8, count as u8] + padding_bytes(amount) + (if vbr {
            size_fields(lens.drop_last())
        } else {
            Seq::empty()
        }) + last
    } else if n == 1 {
        seq![base as u8] + last
    } else if lens[0] == lens[1] {
        seq![(base + 1) as u8] + last
    } else {
        seq![(base + 2) as u8] + size_bytes(lens[0]) + last
    }
}

/// Frames as one packet. `pad_to` asks for the code 3 framing that can carry
/// padding, and for zero bytes behind the frames up to that many bytes.
pub open spec fn packet_bytes(
    toc: u8,
    frames: Seq<Seq<u8>>,
    pad_to: Option<int>,
    self_delimited: bool,
) -> Seq<u8> {
    let body = header_bytes(toc, lengths(frames), pad_to, self_delimited) + concat(frames);
    match pad_to {
        Some(n) if n > body.len() => body + Seq::new((n - body.len()) as nat, |i: int| 0u8),
        _ => body,
    }
}

/// Whether frames can share one packet: at least one, none over 1275 bytes, and
/// no more than 120 ms of them in the configuration of `toc`.
pub open spec fn packable(toc: u8, frames: Seq<Seq<u8>>) -> bool {
    &&& 1 <= frames.len()
    &&& toc_samples(toc, 8_000) * frames.len() <= 960
    &&& forall|i: int| 0 <= i < frames.len() ==> (#[trigger] frames[i]).len() <= 1275
}

// ---------------------------------------------------------------------------
// What was emitted reads back
// ---------------------------------------------------------------------------
/// The same configuration lasts the same at 8 and 48 kHz.
proof fn lemma_packable_count(toc: u8, frames: Seq<Seq<u8>>)
    requires
        packable(toc, frames),
    ensures
        frames.len() <= 48,
        forall|t: u8|
            t as int / 8 == toc as int / 8 ==> #[trigger] toc_samples(t, 48_000) * frames.len()
                <= 5760,
        forall|i: int| 0 <= i < frames.len() ==> 0 <= #[trigger] lengths(frames)[i] <= 1275,
{
    let k: int = toc_samples(toc, 8_000);
    assert(k >= 20);
    assert(frames.len() <= 48) by (nonlinear_arith)
        requires
            k >= 20,
            k * frames.len() <= 960,
    ;
    assert forall|t: u8| t as int / 8 == toc as int / 8 implies #[trigger] toc_samples(t, 48_000)
        * frames.len() <= 5760 by {
        assert(toc_samples(t, 48_000) == 6 * k);
        assert((6 * k) * frames.len() <= 5760) by (nonlinear_arith)
            requires
                k * frames.len() <= 960,
        ;
    }
}

proof fn lemma_base_toc(toc: u8, code: int)
    requires
        0 <= code <= 3,
    ensures
        ({
            let t = (toc as int - toc as int % 4 + code) as u8;
            t == toc as int - toc as int % 4 + code && t as int / 8 == toc as int / 8 && toc_code(t)
                == code
        }),
{
}

/// Frame-length fields laid end to end read back as the lengths.
proof fn lemma_size_fields_read_back(
    head: Seq<u8>,
    lens: Seq<int>,
    tail: Seq<u8>,
)
    requires
        forall|i: int| 0 <= i < lens.len() ==> 0 <= #[trigger] lens[i] <= 1275,
    ensures
        read_sizes(head + size_fields(lens) + tail, head.len() as int, lens.len() as int) == Some(
            (lens, (head.len() + size_fields(lens).len()) as int),
        ),
    decreases lens.len(),
{
    let data = head + size_fields(lens) + tail;
    if lens.len() == 0 {
        assert(lens =~= Seq::<int>::empty());
    } else {
        let front = lens.drop_last();
        let more = size_bytes(lens.last()) + tail;
        assert(data =~= head + size_fields(front) + more);
        lemma_size_fields_read_back(head, front, more);
        let at: int = (head.len() + size_fields(front).len()) as int;
        assert(data.skip(at) =~= more);
        assert(0 <= lens[lens.len() - 1] <= 1275);
        law_size_field_round_trips(lens.last(), tail);
        assert(front.push(lens.last()) =~= lens);
    }
}

/// Padding lengths read back as the padding they announce.
proof fn lemma_padding_reads_back(data: Seq<u8>, pos: int, avail: int, amount: int)
    requires
        0 <= pos,
        0 < amount <= avail,
        pos + padding_bytes(amount).len() <= data.len(),
        data.subrange(pos, pos + padding_bytes(amount).len()) == padding_bytes(amount),
    ensures
        skip_padding(data, pos, avail) == Some(
            (pos + padding_bytes(amount).len(), avail - amount),
        ),
    decreases amount,
{
    let bytes = padding_bytes(amount);
    assert(data[pos] == data.subrange(pos, pos + bytes.len())[0]);
    if amount > 255 {
        let rest = padding_bytes(amount - 255);
        assert(((amount - 255) - 1) / 255 == (amount - 1) / 255 - 1);
        assert(((amount - 255) - 1) % 255 == (amount - 1) % 255);
        assert(bytes =~= seq![255u8] + rest);
        assert(data.subrange(pos + 1, pos + 1 + rest.len()) =~= data.subrange(
            pos,
            pos + bytes.len(),
        ).subrange(1, bytes.len() as int));
        assert(bytes.subrange(1, bytes.len() as int) =~= rest);
        lemma_padding_reads_back(data, pos + 1, avail - 255, amount - 255);
    }
}

proof fn lemma_equal_lengths(lens: Seq<int>)
    requires
        equal_lengths(lens),
        lens.len() > 0,
    ensures
        lens =~= Seq::new(lens.len(), |i: int| lens[0]),
        total(lens) == lens.len() * lens[0],
{
    lemma_total_constant(lens.len(), lens[0]);
    assert(lens =~= Seq::new(lens.len(), |i: int| lens[0]));
}

proof fn lemma_divides(n: int, x: int)
    requires
        n > 0,
        x >= 0,
    ensures
        (n * x) % n == 0,
        (n * x) / n == x,
{
    vstd::arithmetic::div_mod::lemma_mod_multiples_basic(x, n);
    vstd::arithmetic::div_mod::lemma_div_multiples_vanish(x, n);
    assert(n * x == x * n) by (nonlinear_arith);
}

/// The frames at a known place in a packet.
proof fn lemma_frames_from_layout(
    data: Seq<u8>,
    frames: Seq<Seq<u8>>,
    head: Seq<u8>,
    tail: Seq<u8>,
    self_delimited: bool,
)
    requires
        data == head + concat(frames) + tail,
        packet_sizes(data, self_delimited) == Some((lengths(frames), head.len() as int)),
    ensures
        packet_frames(data, self_delimited) == Some(frames),
        packet_end(data, self_delimited) == head.len() + concat(frames).len(),
{
    lemma_concat_length(frames);
    let sizes = lengths(frames);
    let got = packet_frames(data, self_delimited)->0;
    assert forall|i: int| 0 <= i < frames.len() implies got[i] == frames[i] by {
        lemma_concat_slices(frames, i);
        let at: int = total(sizes.take(i));
        assert(data.subrange(head.len() + at, head.len() + at + sizes[i]) =~= concat(
            frames,
        ).subrange(at, at + frames[i].len()));
    }
    assert(got =~= frames);
}

/// What may stand behind the frames of an emitted packet: its padding, or in
/// the self-delimited form whatever follows the packet.
spec fn tail_fits(
    frames: Seq<Seq<u8>>,
    pad_to: Option<int>,
    self_delimited: bool,
    tail: Seq<u8>,
) -> bool {
    if self_delimited {
        pad_to is None
    } else {
        tail.len() == (match pad_to {
            Some(n) => {
                let amount = padding_amount(lengths(frames), n);
                amount - padding_bytes(amount).len()
            },
            None => 0,
        })
    }
}

spec fn emitted(
    toc: u8,
    frames: Seq<Seq<u8>>,
    pad_to: Option<int>,
    self_delimited: bool,
    tail: Seq<u8>,
) -> Seq<u8> {
    header_bytes(toc, lengths(frames), pad_to, self_delimited) + concat(frames) + tail
}

/// The framing header of an emitted code 3 packet reads back.
proof fn lemma_code3_framing(
    toc: u8,
    frames: Seq<Seq<u8>>,
    pad_to: Option<int>,
    self_delimited: bool,
    tail: Seq<u8>,
) -> (head: Seq<u8>)
    requires
        packable(toc, frames),
        tail_fits(frames, pad_to, self_delimited, tail),
        frames.len() > 2 || pad_to is Some,
    ensures
        ({
            let lens = lengths(frames);
            let data = emitted(toc, frames, pad_to, self_delimited, tail);
            let fields = if equal_lengths(lens) {
                Seq::empty()
            } else {
                size_fields(lens.drop_last())
            };
            let last = if self_delimited {
                size_bytes(lens.last())
            } else {
                Seq::empty()
            };
            let amount = match pad_to {
                Some(m) => padding_amount(lens, m),
                None => 0,
            };
            &&& header_bytes(toc, lens, pad_to, self_delimited) == head + fields + last
            &&& framing(data) == Some(
                Framing {
                    count: lens.len() as int,
                    vbr: !equal_lengths(lens),
                    start: head.len() as int,
                    avail: data.len() - 2 - amount,
                },
            )
            &&& head.len() == 2 + padding_bytes(amount).len()
        }),
{
    let lens = lengths(frames);
    let n: int = lens.len() as int;
    let vbr = !equal_lengths(lens);
    let data = emitted(toc, frames, pad_to, self_delimited, tail);
    lemma_packable_count(toc, frames);
    lemma_base_toc(toc, 3);
    lemma_concat_length(frames);
    lemma_total_nonneg(lens);
    let amount: int = match pad_to {
        Some(m) => padding_amount(lens, m),
        None => 0,
    };
    let first2 = seq![
        (toc as int - toc as int % 4 + 3) as u8,
        (n + (if vbr {
            128int
        } else {
            0
        }) + (if amount != 0 {
            64int
        } else {
            0
        })) as u8,
    ];
    let pads = padding_bytes(amount);
    let head = first2 + pads;
    assert(data[0] == first2[0] && data[1] == first2[1]);
    assert(data[1] as int % 64 == n);
    assert((data[1] as int / 64) % 2 == 1 <==> amount != 0);
    assert(data[1] >= 128 <==> vbr);
    if amount != 0 {
        assert(data.subrange(2, (2 + pads.len()) as int) =~= pads);
        lemma_padding_reads_back(data, 2, data.len() - 2, amount);
    }
    head
}

/// The layout of an emitted code 3 packet reads back.
#[verifier::rlimit(40)]
#[verifier::spinoff_prover]
proof fn lemma_code3_layout(
    toc: u8,
    frames: Seq<Seq<u8>>,
    pad_to: Option<int>,
    self_delimited: bool,
    tail: Seq<u8>,
)
    requires
        packable(toc, frames),
        tail_fits(frames, pad_to, self_delimited, tail),
        frames.len() > 2 || pad_to is Some,
    ensures
        packet_sizes(emitted(toc, frames, pad_to, self_delimited, tail), self_delimited) == Some(
            (
                lengths(frames),
                header_bytes(toc, lengths(frames), pad_to, self_delimited).len() as int,
            ),
        ),
{
    let lens = lengths(frames);
    let n: int = lens.len() as int;
    let data = emitted(toc, frames, pad_to, self_delimited, tail);
    let body = concat(frames) + tail;
    let head = lemma_code3_framing(toc, frames, pad_to, self_delimited, tail);
    lemma_packable_count(toc, frames);
    lemma_concat_length(frames);
    let last = if self_delimited {
        size_bytes(lens.last())
    } else {
        Seq::empty()
    };
    assert(lens.last() == lens[n - 1]);
    assert(lens.drop_last().push(lens.last()) =~= lens);
    let avail: int = framing(data)->0.avail;
    if equal_lengths(lens) {
        lemma_equal_lengths(lens);
        if self_delimited {
            assert(data.skip(head.len() as int) =~= last + body);
            law_size_field_round_trips(lens.last(), body);
            assert(lens.last() == lens[0]);
        } else {
            lemma_divides(n, lens[0]);
            assert(avail == n * lens[0]);
        }
    } else if self_delimited {
        assert(size_fields(lens) =~= size_fields(lens.drop_last()) + last);
        assert(data =~= head + size_fields(lens) + body);
        lemma_size_fields_read_back(head, lens, body);
    } else {
        assert(data =~= head + size_fields(lens.drop_last()) + body);
        lemma_size_fields_read_back(head, lens.drop_last(), body);
    }
}

/// The layout of one emitted frame reads back.
proof fn lemma_code0_layout(toc: u8, frames: Seq<Seq<u8>>, self_delimited: bool, tail: Seq<u8>)
    requires
        packable(toc, frames),
        tail_fits(frames, None, self_delimited, tail),
        frames.len() == 1,
    ensures
        packet_sizes(emitted(toc, frames, None, self_delimited, tail), self_delimited) == Some(
            (
                lengths(frames),
                header_bytes(toc, lengths(frames), None, self_delimited).len() as int,
            ),
        ),
{
    let lens = lengths(frames);
    let n: int = lens.len() as int;
    let head = header_bytes(toc, lens, None, self_delimited);
    let body = concat(frames) + tail;
    let data = emitted(toc, frames, None, self_delimited, tail);
    lemma_packable_count(toc, frames);
    lemma_concat_length(frames);
    let last = if self_delimited {
        size_bytes(lens.last())
    } else {
        Seq::empty()
    };
    assert(lens.last() == lens[n - 1]);
    lemma_base_toc(toc, 0);
    assert(data[0] == head[0]);
    assert(framing(data) == Some(
        Framing { count: 1, vbr: true, start: 1, avail: data.len() - 1 },
    ));
    if self_delimited {
        assert(size_fields(lens.drop_last()) =~= Seq::<u8>::empty());
        assert(size_fields(lens) =~= last);
        assert(data =~= seq![head[0]] + size_fields(lens) + body);
        lemma_size_fields_read_back(seq![head[0]], lens, body);
    } else {
        assert(read_sizes(data, 1, 0) == Some((Seq::<int>::empty(), 1int)));
        assert(total(lens.drop_last()) == 0);
        assert(Seq::<int>::empty().push(lens[0]) =~= lens);
    }
}

/// The layout of two emitted frames of one length reads back.
proof fn lemma_code1_layout(toc: u8, frames: Seq<Seq<u8>>, self_delimited: bool, tail: Seq<u8>)
    requires
        packable(toc, frames),
        tail_fits(frames, None, self_delimited, tail),
        frames.len() == 2,
        frames[0].len() == frames[1].len(),
    ensures
        packet_sizes(emitted(toc, frames, None, self_delimited, tail), self_delimited) == Some(
            (
                lengths(frames),
                header_bytes(toc, lengths(frames), None, self_delimited).len() as int,
            ),
        ),
{
    let lens = lengths(frames);
    let n: int = lens.len() as int;
    let head = header_bytes(toc, lens, None, self_delimited);
    let body = concat(frames) + tail;
    let data = emitted(toc, frames, None, self_delimited, tail);
    lemma_packable_count(toc, frames);
    lemma_concat_length(frames);
    let last = if self_delimited {
        size_bytes(lens.last())
    } else {
        Seq::empty()
    };
    assert(lens.last() == lens[n - 1]);
    lemma_base_toc(toc, 1);
    assert(data[0] == head[0]);
    assert(framing(data) == Some(
        Framing { count: 2, vbr: false, start: 1, avail: data.len() - 1 },
    ));
    lemma_equal_lengths(lens);
    if self_delimited {
        assert(data.skip(1) =~= last + body);
        law_size_field_round_trips(lens.last(), body);
    } else {
        lemma_divides(2, lens[0]);
    }
}

/// The layout of two emitted frames of different lengths reads back.
proof fn lemma_code2_layout(toc: u8, frames: Seq<Seq<u8>>, self_delimited: bool, tail: Seq<u8>)
    requires
        packable(toc, frames),
        tail_fits(frames, None, self_delimited, tail),
        frames.len() == 2,
        frames[0].len() != frames[1].len(),
    ensures
        packet_sizes(emitted(toc, frames, None, self_delimited, tail), self_delimited) == Some(
            (
                lengths(frames),
                header_bytes(toc, lengths(frames), None, self_delimited).len() as int,
            ),
        ),
{
    let lens = lengths(frames);
    let n: int = lens.len() as int;
    let head = header_bytes(toc, lens, None, self_delimited);
    let body = concat(frames) + tail;
    let data = emitted(toc, frames, None, self_delimited, tail);
    lemma_packable_count(toc, frames);
    lemma_concat_length(frames);
    let last = if self_delimited {
        size_bytes(lens.last())
    } else {
        Seq::empty()
    };
    assert(lens.last() == lens[n - 1]);
    lemma_base_toc(toc, 2);
    assert(data[0] == head[0]);
    assert(framing(data) == Some(
        Framing { count: 2, vbr: true, start: 1, avail: data.len() - 1 },
    ));
    let front = lens.drop_last();
    assert(front.push(lens.last()) =~= lens);
    assert(size_fields(front.drop_last()) =~= Seq::<u8>::empty());
    assert(size_fields(front) =~= size_bytes(lens[0]));
    if self_delimited {
        assert(size_fields(lens) =~= size_bytes(lens[0]) + last);
        assert(data =~= seq![head[0]] + size_fields(lens) + body);
        lemma_size_fields_read_back(seq![head[0]], lens, body);
    } else {
        assert(data =~= seq![head[0]] + size_fields(front) + body);
        lemma_size_fields_read_back(seq![head[0]], front, body);
    }
}

/// The layout of an emitted packet reads back.
proof fn lemma_emitted_layout(
    toc: u8,
    frames: Seq<Seq<u8>>,
    pad_to: Option<int>,
    self_delimited: bool,
    tail: Seq<u8>,
)
    requires
        packable(toc, frames),
        tail_fits(frames, pad_to, self_delimited, tail),
    ensures
        packet_sizes(emitted(toc, frames, pad_to, self_delimited, tail), self_delimited) == Some(
            (
                lengths(frames),
                header_bytes(toc, lengths(frames), pad_to, self_delimited).len() as int,
            ),
        ),
{
    if frames.len() > 2 || pad_to is Some {
        lemma_code3_layout(toc, frames, pad_to, self_delimited, tail);
    } else if frames.len() == 1 {
        lemma_code0_layout(toc, frames, self_delimited, tail);
    } else if frames[0].len() == frames[1].len() {
        lemma_code1_layout(toc, frames, self_delimited, tail);
    } else {
        lemma_code2_layout(toc, frames, self_delimited, tail);
    }
}

/// Frames packed into one packet come back out of it, in order and byte for
/// byte, and the packet keeps the configuration it was given.
#[verifier::spinoff_prover]
#[verifier::rlimit(60)]
pub proof fn law_packed_frames_read_back(toc: u8, frames: Seq<Seq<u8>>)
    requires
        packable(toc, frames),
    ensures
        packet_frames(packet_bytes(toc, frames, None, false), false) == Some(frames),
        packet_bytes(toc, frames, None, false)[0] as int / 4 == toc as int / 4,
{
    let none = Seq::<u8>::empty();
    let data = packet_bytes(toc, frames, None, false);
    assert(data =~= emitted(toc, frames, None, false, none));
    lemma_emitted_layout(toc, frames, None, false, none);
    lemma_frames_from_layout(
        data,
        frames,
        header_bytes(toc, lengths(frames), None, false),
        none,
        false,
    );
    lemma_packable_count(toc, frames);
}

/// A self-delimited packet gives its frames back with anything behind it, and
/// tells where it ends.
#[verifier::spinoff_prover]
#[verifier::rlimit(60)]
pub proof fn law_self_delimited_frames_read_back(toc: u8, frames: Seq<Seq<u8>>, rest: Seq<u8>)
    requires
        packable(toc, frames),
    ensures
        packet_frames(packet_bytes(toc, frames, None, true) + rest, true) == Some(frames),
        packet_end(packet_bytes(toc, frames, None, true) + rest, true) == packet_bytes(
            toc,
            frames,
            None,
            true,
        ).len(),
{
    let data = packet_bytes(toc, frames, None, true) + rest;
    assert(data =~= emitted(toc, frames, None, true, rest));
    lemma_emitted_layout(toc, frames, None, true, rest);
    lemma_frames_from_layout(
        data,
        frames,
        header_bytes(toc, lengths(frames), None, true),
        rest,
        true,
    );
}

proof fn lemma_padded_length(toc: u8, frames: Seq<Seq<u8>>, n: int)
    requires
        packable(toc, frames),
    ensures
        ({
            let lens = lengths(frames);
            let amount = padding_amount(lens, n);
            &&& header_bytes(toc, lens, Some(n), false).len() + concat(frames).len()
                == code3_length(lens) + padding_bytes(amount).len()
            &&& padding_bytes(amount).len() <= amount
        }),
{
    let lens = lengths(frames);
    lemma_concat_length(frames);
    let amount: int = padding_amount(lens, n);
    if amount > 0 {
        assert((amount - 1) / 255 + 1 <= amount);
    }
}

/// Padding keeps the frames and brings the packet to the length asked for, or
/// to the shortest code 3 packet of those frames where that is longer.
#[verifier::spinoff_prover]
#[verifier::rlimit(60)]
pub proof fn law_padded_frames_read_back(toc: u8, frames: Seq<Seq<u8>>, n: int)
    requires
        packable(toc, frames),
    ensures
        packet_frames(packet_bytes(toc, frames, Some(n), false), false) == Some(frames),
        packet_bytes(toc, frames, Some(n), false).len() == if n > code3_length(lengths(frames)) {
            n
        } else {
            code3_length(lengths(frames))
        },
{
    let lens = lengths(frames);
    let amount: int = padding_amount(lens, n);
    let head = header_bytes(toc, lens, Some(n), false);
    let zeros: Seq<u8> = Seq::new((amount - padding_bytes(amount).len()) as nat, |i: int| 0u8);
    let data = packet_bytes(toc, frames, Some(n), false);
    lemma_padded_length(toc, frames, n);
    lemma_packable_count(toc, frames);
    assert(data =~= emitted(toc, frames, Some(n), false, zeros));
    lemma_emitted_layout(toc, frames, Some(n), false, zeros);
    lemma_frames_from_layout(data, frames, head, zeros, false);
}

// ---------------------------------------------------------------------------
// The repacketizer
// ---------------------------------------------------------------------------
/// What a repacketizer holds.
pub struct RepacketizerView {
    /// The TOC byte of the packet the first frame came from.
    pub toc: u8,
    /// The frames, in order.
    pub frames: Seq<Seq<u8>>,
}

/// The frames a packet adds to those already held, or why it is refused.
pub open spec fn appended(held: RepacketizerView, data: Seq<u8>) -> Result<Seq<Seq<u8>>> {
    if data.len() == 0 {
        Err(Error::InvalidPacket("cat: the packet is empty"))
    } else if held.frames.len() > 0 && held.toc as int / 4 != data[0] as int / 4 {
        Err(Error::InvalidPacket("toc mismatch"))
    } else {
        match spec_frame_count(data) {
            Err(e) => Err(e),
            Ok(count) => if (count + held.frames.len()) * toc_samples(data[0], 8_000) > 960 {
                Err(Error::InvalidPacket("packet exceeds 120 ms"))
            } else {
                match packet_frames(data, false) {
                    None => Err(Error::InvalidPacket("invalid packet")),
                    Some(frames) => Ok(frames),
                }
            },
        }
    }
}

/// An optional machine length as a mathematical one.
pub open spec fn opt_int(n: Option<usize>) -> Option<int> {
    match n {
        Some(v) => Some(v as int),
        None => None,
    }
}

/// Accumulates frames from one or more packets of one configuration, then emits
/// them as a single re-framed packet.
#[derive(Debug)]
pub struct Repacketizer {
    toc: u8,
    framesize: i32,
    frames: Vec<Vec<u8>>,
    /// Frame buffers that [`Repacketizer::clear`] has taken back, ready to be
    /// filled again.
    spare: Vec<Vec<u8>>,
}

impl View for Repacketizer {
    type V = RepacketizerView;

    closed spec fn view(&self) -> RepacketizerView {
        RepacketizerView { toc: self.toc, frames: byte_strings(self.frames@) }
    }
}

/// The contents of a list of buffers.
pub open spec fn byte_strings(v: Seq<Vec<u8>>) -> Seq<Seq<u8>> {
    Seq::new(v.len(), |i: int| v[i]@)
}

impl Default for Repacketizer {
    fn default() -> (r: Self)
        ensures
            r.inv(),
            r@.frames == Seq::<Seq<u8>>::empty(),
            r@.toc == 0,
    {
        let r = Repacketizer { toc: 0, framesize: 0, frames: Vec::new(), spare: Vec::new() };
        proof {
            assert(byte_strings(r.frames@) =~= Seq::<Seq<u8>>::empty());
        }
        r
    }
}

/// Write the code 3 framing header of frames of these lengths.
#[verifier::spinoff_prover]
fn push_code3_header(
    base: u8,
    lens: &Vec<usize>,
    pad_to: Option<usize>,
    self_delimited: bool,
    out: &mut Vec<u8>,
)
    requires
        base as int % 4 == 0,
        1 <= lens@.len() <= 48,
        lens@.len() > 2 || pad_to is Some,
        forall|i: int| 0 <= i < lens@.len() ==> #[trigger] lens@[i] <= 1275,
    ensures
        final(out)@ == old(out)@ + header_bytes(
            base,
            as_ints(lens@),
            opt_int(pad_to),
            self_delimited,
        ),
{
    let ghost before = out@;
    let ghost ints = as_ints(lens@);
    let n: usize = lens.len();
    let last: usize = lens[n - 1];
    assert(ints.last() == last);
    let vbr = !all_equal(lens);
    proof {
        lemma_sum_bound(lens@);
    }
    let mut tot: usize = 2 + sum_sizes(lens);
    if vbr {
        tot += fields_length(lens);
    }
    assert(tot == code3_length(ints));
    let amount: usize = match pad_to {
        Some(m) => if m > tot {
            m - tot
        } else {
            0
        },
        None => 0,
    };
    let mut count: u8 = n as u8;
    if vbr {
        count += 128;
    }
    if amount != 0 {
        count += 64;
    }
    out.push(base + 3);
    out.push(count);
    let ghost first2 = seq![(base + 3) as u8, count];
    assert(out@ =~= before + first2);
    push_padding_lengths(amount, out);
    let ghost pads = padding_bytes(amount as int);
    assert(out@ =~= before + (first2 + pads));
    let ghost fields = if vbr {
        size_fields(ints.drop_last())
    } else {
        Seq::empty()
    };
    if vbr {
        push_size_fields(lens, out);
    }
    assert(out@ =~= before + (first2 + pads + fields));
    let ghost tail = if self_delimited {
        size_bytes(last as int)
    } else {
        Seq::empty()
    };
    if self_delimited {
        encode_size(last, out);
    }
    assert(out@ =~= before + (first2 + pads + fields + tail));
    assert(header_bytes(base, ints, opt_int(pad_to), self_delimited) == first2 + pads + fields
        + tail);
}

/// Write the framing header of frames of these lengths.
fn push_header(
    toc: u8,
    lens: &Vec<usize>,
    pad_to: Option<usize>,
    self_delimited: bool,
    out: &mut Vec<u8>,
)
    requires
        1 <= lens@.len() <= 48,
        forall|i: int| 0 <= i < lens@.len() ==> #[trigger] lens@[i] <= 1275,
    ensures
        final(out)@ == old(out)@ + header_bytes(
            toc,
            as_ints(lens@),
            opt_int(pad_to),
            self_delimited,
        ),
{
    proof {
        lemma_toc_bits(toc);
    }
    let ghost before = out@;
    let ghost ints = as_ints(lens@);
    let base: u8 = toc & 0xfc;
    assert(base as int == toc as int - toc as int % 4);
    let n: usize = lens.len();
    if n > 2 || pad_to.is_some() {
        push_code3_header(base, lens, pad_to, self_delimited, out);
        return;
    }
    if n == 1 {
        out.push(base);
    } else if lens[0] == lens[1] {
        out.push(base + 1);
    } else {
        out.push(base + 2);
        encode_size(lens[0], out);
    }
    assert(ints.last() == lens@[n - 1]);
    if self_delimited {
        encode_size(lens[n - 1], out);
    }
    assert(out@ =~= before + header_bytes(toc, ints, opt_int(pad_to), self_delimited));
}

proof fn lemma_sum_bound(lens: Seq<usize>)
    requires
        forall|i: int| 0 <= i < lens.len() ==> #[trigger] lens[i] <= 1275,
    ensures
        0 <= total(as_ints(lens)) <= 1275 * lens.len(),
    decreases lens.len(),
{
    if lens.len() > 0 {
        lemma_sum_bound(lens.drop_last());
        assert(as_ints(lens).drop_last() =~= as_ints(lens.drop_last()));
    }
}

/// Whether all frames have the length of the first.
fn all_equal(lens: &Vec<usize>) -> (b: bool)
    ensures
        b == equal_lengths(as_ints(lens@)),
{
    let mut i: usize = 0;
    while i < lens.len()
        invariant
            i <= lens@.len(),
            forall|j: int| 0 <= j < i ==> #[trigger] as_ints(lens@)[j] == as_ints(lens@)[0],
        decreases lens@.len() - i,
    {
        if lens[i] != lens[0] {
            assert(as_ints(lens@)[i as int] != as_ints(lens@)[0]);
            return false;
        }
        i += 1;
    }
    true
}

proof fn lemma_size_fields_step(ints: Seq<int>, i: int)
    requires
        0 <= i < ints.len(),
    ensures
        size_fields(ints.take(i + 1)) == size_fields(ints.take(i)) + size_bytes(ints[i]),
{
    assert(ints.take(i + 1).drop_last() =~= ints.take(i));
}

/// The bytes that the length fields of all frames but the last take.
fn fields_length(lens: &Vec<usize>) -> (t: usize)
    requires
        1 <= lens@.len() <= 48,
    ensures
        t == size_fields(as_ints(lens@).drop_last()).len(),
        t <= 96,
{
    let ghost ints = as_ints(lens@);
    let mut t: usize = 0;
    let mut i: usize = 0;
    assert(ints.take(0) =~= Seq::<int>::empty());
    while i + 1 < lens.len()
        invariant
            i + 1 <= lens@.len() <= 48,
            ints == as_ints(lens@),
            t == size_fields(ints.take(i as int)).len(),
            t <= 2 * i,
        decreases lens@.len() - i,
    {
        proof {
            lemma_size_fields_step(ints, i as int);
        }
        t += if lens[i] >= 252 {
            2usize
        } else {
            1usize
        };
        i += 1;
    }
    assert(ints.take(i as int) =~= ints.drop_last());
    t
}

/// Write the length fields of all frames but the last.
fn push_size_fields(lens: &Vec<usize>, out: &mut Vec<u8>)
    requires
        1 <= lens@.len(),
        forall|i: int| 0 <= i < lens@.len() ==> #[trigger] lens@[i] <= 1275,
    ensures
        final(out)@ == old(out)@ + size_fields(as_ints(lens@).drop_last()),
{
    let ghost ints = as_ints(lens@);
    let ghost before = out@;
    let mut i: usize = 0;
    proof {
        assert(ints.take(0) =~= Seq::<int>::empty());
        assert(before + size_fields(ints.take(0)) =~= before);
    }
    while i < lens.len() - 1
        invariant
            i + 1 <= lens@.len(),
            ints == as_ints(lens@),
            out@ == before + size_fields(ints.take(i as int)),
            forall|j: int| 0 <= j < lens@.len() ==> #[trigger] lens@[j] <= 1275,
        decreases lens@.len() - i,
    {
        proof {
            lemma_size_fields_step(ints, i as int);
        }
        encode_size(lens[i], out);
        i += 1;
        proof {
            assert(out@ =~= before + size_fields(ints.take(i as int)));
        }
    }
    assert(ints.take(i as int) =~= ints.drop_last());
}

/// Write the length bytes that announce `amount` bytes of padding.
fn push_padding_lengths(amount: usize, out: &mut Vec<u8>)
    ensures
        final(out)@ == old(out)@ + padding_bytes(amount as int),
{
    let ghost before = out@;
    if amount == 0 {
        assert(out@ =~= before + padding_bytes(0));
        return;
    }
    let nb_255s: usize = (amount - 1) / 255;
    let mut i: usize = 0;
    while i < nb_255s
        invariant
            i <= nb_255s,
            out@ =~= before + Seq::new(i as nat, |j: int| 255u8),
        decreases nb_255s - i,
    {
        out.push(255);
        i += 1;
    }
    out.push(((amount - 1) % 255) as u8);
    assert(out@ =~= before + padding_bytes(amount as int));
}

proof fn lemma_concat_step(parts: Seq<Seq<u8>>, i: int)
    requires
        0 <= i < parts.len(),
    ensures
        concat(parts.take(i + 1)) == concat(parts.take(i)) + parts[i],
{
    assert(parts.take(i + 1).drop_last() =~= parts.take(i));
}

impl Repacketizer {
    /// What always holds: the frames fit one packet of their configuration.
    pub closed spec fn inv(&self) -> bool {
        self.frames@.len() > 0 ==> {
            &&& packable(self.toc, byte_strings(self.frames@))
            &&& self.framesize == toc_samples(self.toc, 8_000)
        }
    }

    /// What a repacketizer holds can be emitted as one packet.
    pub proof fn lemma_held_frames_are_packable(&self)
        requires
            self.inv(),
            self@.frames.len() > 0,
        ensures
            packable(self@.toc, self@.frames),
    {
    }

    /// An empty repacketizer, holding no frames.
    pub fn new() -> (r: Self)
        ensures
            r.inv(),
            r@.frames == Seq::<Seq<u8>>::empty(),
            r@.toc == 0,
    {
        Repacketizer::default()
    }

    /// Drop every frame, keeping the buffers that held them, so that one
    /// repacketizer can be reused across packets without allocating.
    pub fn clear(&mut self)
        ensures
            final(self).inv(),
            final(self)@.frames == Seq::<Seq<u8>>::empty(),
            final(self)@.toc == 0,
    {
        self.spare.append(&mut self.frames);
        self.toc = 0;
        self.framesize = 0;
        proof {
            assert(byte_strings(self.frames@) =~= Seq::<Seq<u8>>::empty());
        }
    }

    /// Frames accumulated so far by [`cat`](Self::cat); also the upper bound
    /// for [`out_range`](Self::out_range).
    pub fn nb_frames(&self) -> (n: usize)
        ensures
            n == self@.frames.len(),
    {
        self.frames.len()
    }

    /// Append the frames of `data`. Errors if the TOC configuration differs
    /// from that of the frames already held, or the 120 ms cap is exceeded.
    pub fn cat(&mut self, data: &[u8]) -> (r: Result<()>)
        requires
            old(self).inv(),
        ensures
            final(self).inv(),
            match appended(old(self)@, data@) {
                Ok(frames) => r is Ok && final(self)@.frames == old(self)@.frames + frames,
                Err(e) => r == Err::<(), Error>(e) && final(self)@.frames == old(self)@.frames,
            },
            final(self)@.toc == if old(self)@.frames.len() == 0 && data@.len() > 0 {
                data@[0]
            } else {
                old(self)@.toc
            },
    {
        if data.len() == 0 {
            return Err(Error::InvalidPacket("cat: the packet is empty"));
        }
        proof {
            lemma_toc_bits(self.toc);
            lemma_toc_bits(data@[0]);
        }
        if self.frames.len() == 0 {
            self.toc = data[0];
            self.framesize = toc_samples_per_frame(data[0], 8_000);
        } else if self.toc & 0xfc != data[0] & 0xfc {
            return Err(Error::InvalidPacket("toc mismatch"));
        }
        let ghost held = byte_strings(self.frames@);
        assert(toc_config(self.toc) == toc_config(data@[0]));
        assert(self.framesize == toc_samples(data@[0], 8_000));
        let curr: usize = match frame_count(data) {
            Err(e) => {
                return Err(e);
            },
            Ok(n) => n,
        };
        proof {
            if held.len() > 0 {
                lemma_packable_count(self.toc, held);
            }
            assert(self.framesize <= 480);
            assert((curr + held.len()) * self.framesize <= (63 + 48) * 480) by (nonlinear_arith)
                requires
                    curr <= 63,
                    held.len() <= 48,
                    0 <= self.framesize <= 480,
            ;
        }
        if (curr + self.frames.len()) as i32 * self.framesize > 960 {
            return Err(Error::InvalidPacket("packet exceeds 120 ms"));
        }
        let (_toc, ranges, _end) = match parse_packet(data, false) {
            Err(e) => {
                return Err(e);
            },
            Ok(x) => x,
        };
        let ghost (sizes, start) = packet_sizes(data@, false)->0;
        let ghost frames = packet_frames(data@, false)->0;
        proof {
            law_frames_lie_inside_the_packet(data@, false);
            assert(held + frames.take(0) =~= held);
        }
        let len: usize = data.len();
        let mut i: usize = 0;
        while i < ranges.len()
            invariant
                i <= ranges@.len(),
                len == data@.len(),
                ranges@.len() == sizes.len(),
                packet_sizes(data@, false) == Some((sizes, start)),
                frames == packet_frames(data@, false)->0,
                forall|j: int| 0 <= j < sizes.len() ==> 0 <= #[trigger] sizes[j] <= 1275,
                1 <= start,
                start + total(sizes) <= data@.len(),
                forall|j: int|
                    0 <= j < sizes.len() ==> (#[trigger] ranges@[j]).0 == start + total(
                        sizes.take(j),
                    ) && ranges@[j].1 == sizes[j],
                byte_strings(self.frames@) == held + frames.take(i as int),
                self.framesize == toc_samples(data@[0], 8_000),
                self.toc == (if held.len() == 0 {
                    data@[0]
                } else {
                    old(self)@.toc
                }),
            decreases ranges@.len() - i,
        {
            let (o, l) = ranges[i];
            let mut frame: Vec<u8> = match self.spare.pop() {
                Some(f) => f,
                None => Vec::new(),
            };
            frame.clear();
            proof {
                lemma_total_prefix(sizes, i as int);
            }
            let piece = vstd::slice::slice_subrange(data, o, o + l);
            frame.extend_from_slice(piece);
            let ghost before = self.frames@;
            proof {
                assert(frame@ =~= frames[i as int]);
            }
            self.frames.push(frame);
            proof {
                assert(byte_strings(self.frames@) =~= byte_strings(before).push(
                    frames[i as int],
                ));
                assert(frames.take(i + 1) =~= frames.take(i as int).push(frames[i as int]));
                assert(byte_strings(self.frames@) =~= held + frames.take(i + 1));
            }
            i += 1;
        }
        proof {
            assert(frames.take(i as int) =~= frames);
            let all = byte_strings(self.frames@);
            assert forall|j: int| 0 <= j < all.len() implies (#[trigger] all[j]).len() <= 1275 by {
                if j >= held.len() {
                    let k: int = j - held.len();
                    lemma_total_prefix(sizes, k);
                    assert(all[j] == frames[k]);
                    assert(sizes[k] <= 1275);
                } else {
                    assert(all[j] == held[j]);
                }
            }
            assert(toc_samples(self.toc, 8_000) * all.len() <= 960) by (nonlinear_arith)
                requires
                    self.framesize == toc_samples(self.toc, 8_000),
                    (curr + held.len()) * self.framesize <= 960,
                    all.len() == curr + held.len(),
            ;
        }
        Ok(())
    }

    /// Emit frames `begin..end` as one packet.
    pub fn out_range(&self, begin: usize, end: usize) -> (r: Result<Vec<u8>>)
        requires
            self.inv(),
        ensures
            match r {
                Ok(p) => begin < end <= self@.frames.len() && p@ == packet_bytes(
                    self@.toc,
                    self@.frames.subrange(begin as int, end as int),
                    None,
                    false,
                ),
                Err(e) => !(begin < end <= self@.frames.len()) && e == Error::InvalidArgument(
                    "frame range must satisfy begin < end <= nb_frames",
                ),
            },
    {
        self.out_range_impl(begin, end, None)
    }

    /// Emit all held frames.
    pub fn out(&self) -> (r: Result<Vec<u8>>)
        requires
            self.inv(),
        ensures
            match r {
                Ok(p) => 0 < self@.frames.len() && p@ == packet_bytes(
                    self@.toc,
                    self@.frames,
                    None,
                    false,
                ),
                Err(e) => self@.frames.len() == 0 && e == Error::InvalidArgument(
                    "frame range must satisfy begin < end <= nb_frames",
                ),
            },
    {
        proof {
            assert(self@.frames.subrange(0, self@.frames.len() as int) =~= self@.frames);
        }
        self.out_range_impl(0, self.frames.len(), None)
    }

    /// [`out`](Self::out), appended to `out` instead of allocating.
    pub fn out_into(&self, out: &mut Vec<u8>) -> (r: Result<()>)
        requires
            self.inv(),
        ensures
            match r {
                Ok(_) => 0 < self@.frames.len() && final(out)@ == old(out)@ + packet_bytes(
                    self@.toc,
                    self@.frames,
                    None,
                    false,
                ),
                Err(e) => self@.frames.len() == 0 && final(out)@ == old(out)@ && e
                    == Error::InvalidArgument("frame range must satisfy begin < end <= nb_frames"),
            },
    {
        proof {
            assert(self@.frames.subrange(0, self@.frames.len() as int) =~= self@.frames);
        }
        self.out_range_full(0, self.frames.len(), None, false, out)
    }

    /// [`out_range`](Self::out_range), appended to `out`.
    pub fn out_range_into(&self, begin: usize, end: usize, out: &mut Vec<u8>) -> (r: Result<()>)
        requires
            self.inv(),
        ensures
            match r {
                Ok(_) => begin < end <= self@.frames.len() && final(out)@ == old(out)@
                    + packet_bytes(
                    self@.toc,
                    self@.frames.subrange(begin as int, end as int),
                    None,
                    false,
                ),
                Err(e) => !(begin < end <= self@.frames.len()) && final(out)@ == old(out)@ && e
                    == Error::InvalidArgument("frame range must satisfy begin < end <= nb_frames"),
            },
    {
        self.out_range_full(begin, end, None, false, out)
    }

    /// [`out_self_delimited`](Self::out_self_delimited), appended to `out`.
    pub fn out_self_delimited_into(&self, out: &mut Vec<u8>) -> (r: Result<()>)
        requires
            self.inv(),
        ensures
            match r {
                Ok(_) => 0 < self@.frames.len() && final(out)@ == old(out)@ + packet_bytes(
                    self@.toc,
                    self@.frames,
                    None,
                    true,
                ),
                Err(e) => self@.frames.len() == 0 && final(out)@ == old(out)@ && e
                    == Error::InvalidArgument("frame range must satisfy begin < end <= nb_frames"),
            },
    {
        proof {
            assert(self@.frames.subrange(0, self@.frames.len() as int) =~= self@.frames);
        }
        self.out_range_full(0, self.frames.len(), None, true, out)
    }

    /// Emit frames `begin..end`, padded to `pad_to` bytes where that is given.
    pub fn out_range_impl(&self, begin: usize, end: usize, pad_to: Option<usize>) -> (r: Result<
        Vec<u8>,
    >)
        requires
            self.inv(),
        ensures
            match r {
                Ok(p) => begin < end <= self@.frames.len() && p@ == packet_bytes(
                    self@.toc,
                    self@.frames.subrange(begin as int, end as int),
                    opt_int(pad_to),
                    false,
                ),
                Err(e) => !(begin < end <= self@.frames.len()) && e == Error::InvalidArgument(
                    "frame range must satisfy begin < end <= nb_frames",
                ),
            },
    {
        let mut out: Vec<u8> = Vec::new();
        match self.out_range_full(begin, end, pad_to, false, &mut out) {
            Err(e) => Err(e),
            Ok(_) => {
                assert(out@ =~= packet_bytes(
                    self@.toc,
                    self@.frames.subrange(begin as int, end as int),
                    opt_int(pad_to),
                    false,
                ));
                Ok(out)
            },
        }
    }

    /// Emit all frames with the self-delimited framing multistream uses: the
    /// length of the last frame is coded, so the packet's total size is
    /// derivable.
    pub fn out_self_delimited(&self) -> (r: Result<Vec<u8>>)
        requires
            self.inv(),
        ensures
            match r {
                Ok(p) => 0 < self@.frames.len() && p@ == packet_bytes(
                    self@.toc,
                    self@.frames,
                    None,
                    true,
                ),
                Err(e) => self@.frames.len() == 0 && e == Error::InvalidArgument(
                    "frame range must satisfy begin < end <= nb_frames",
                ),
            },
    {
        let mut out: Vec<u8> = Vec::new();
        match self.out_self_delimited_into(&mut out) {
            Err(e) => Err(e),
            Ok(_) => {
                assert(out@ =~= packet_bytes(self@.toc, self@.frames, None, true));
                Ok(out)
            },
        }
    }

    /// Append frames `begin..end` as one packet to `out`, which may already
    /// hold something.
    fn out_range_full(
        &self,
        begin: usize,
        end: usize,
        pad_to: Option<usize>,
        self_delimited: bool,
        out: &mut Vec<u8>,
    ) -> (r: Result<()>)
        requires
            self.inv(),
        ensures
            match r {
                Ok(_) => begin < end <= self@.frames.len() && final(out)@ == old(out)@
                    + packet_bytes(
                    self@.toc,
                    self@.frames.subrange(begin as int, end as int),
                    opt_int(pad_to),
                    self_delimited,
                ),
                Err(e) => !(begin < end <= self@.frames.len()) && final(out)@ == old(out)@ && e
                    == Error::InvalidArgument("frame range must satisfy begin < end <= nb_frames"),
            },
    {
        if begin >= end || end > self.frames.len() {
            return Err(
                Error::InvalidArgument("frame range must satisfy begin < end <= nb_frames"),
            );
        }
        let start: usize = out.len();
        let ghost before = out@;
        let ghost held = self@.frames;
        let ghost parts = held.subrange(begin as int, end as int);
        proof {
            lemma_packable_count(self.toc, held);
        }
        let mut lens: Vec<usize> = Vec::with_capacity(end - begin);
        let mut i: usize = begin;
        while i < end
            invariant
                begin <= i <= end,
                end <= self.frames@.len(),
                held == byte_strings(self.frames@),
                lens@.len() == i - begin,
                forall|j: int| 0 <= j < held.len() ==> (#[trigger] held[j]).len() <= 1275,
                forall|j: int|
                    0 <= j < lens@.len() ==> #[trigger] lens@[j] == held[begin + j].len(),
            decreases end - i,
        {
            assert(held[i as int] == self.frames@[i as int]@);
            lens.push(self.frames[i].len());
            i += 1;
        }
        proof {
            assert(as_ints(lens@) =~= lengths(parts));
            assert forall|j: int| 0 <= j < lens@.len() implies #[trigger] lens@[j] <= 1275 by {
                assert(held[begin + j].len() <= 1275);
            }
        }
        push_header(self.toc, &lens, pad_to, self_delimited, out);
        let ghost head = header_bytes(self.toc, lengths(parts), opt_int(pad_to), self_delimited);
        proof {
            assert(parts.take(0) =~= Seq::<Seq<u8>>::empty());
            assert(head + concat(parts.take(0)) =~= head);
        }
        let mut i: usize = begin;
        while i < end
            invariant
                begin <= i <= end,
                end <= self.frames@.len(),
                held == byte_strings(self.frames@),
                parts == held.subrange(begin as int, end as int),
                out@ == before + (head + concat(parts.take(i - begin))),
            decreases end - i,
        {
            proof {
                lemma_concat_step(parts, i - begin);
                assert(parts[i - begin] == self.frames@[i as int]@);
            }
            out.extend_from_slice(self.frames[i].as_slice());
            i += 1;
            proof {
                assert(out@ =~= before + (head + concat(parts.take(i - begin))));
            }
        }
        assert(parts.take(end - begin) =~= parts);
        let ghost body = head + concat(parts);
        if let Some(n) = pad_to {
            while out.len() - start < n
                invariant
                    start == before.len(),
                    start + body.len() <= out@.len(),
                    out@ =~= before + body + Seq::new(
                        (out@.len() - start - body.len()) as nat,
                        |i: int| 0u8,
                    ),
                    out@.len() == start + body.len() || out@.len() - start <= n,
                decreases n - (out@.len() - start),
            {
                out.push(0);
            }
        }
        assert(out@ =~= before + packet_bytes(self.toc, parts, opt_int(pad_to), self_delimited));
        Ok(())
    }
}

// ---------------------------------------------------------------------------
// Whole packets
// ---------------------------------------------------------------------------
/// Take one self-delimited packet from the front of `data` and leave it in
/// `out` in the ordinary form, returning how many bytes it took. `out` is
/// untouched where `data` is malformed.
///
/// A multistream packet concatenates its streams in self-delimited form
/// (RFC 6716 appendix B): every stream but the last carries an explicit length
/// for its final frame. A decoder parses only ordinary packets, so that length
/// has to be removed.
pub fn take_self_delimited_into(data: &[u8], out: &mut Vec<u8>) -> (r: Result<usize>)
    ensures
        match r {
            Ok(consumed) => {
                &&& packet_frames(data@, true) matches Some(frames)
                &&& final(out)@ == packet_bytes(data@[0], frames, None, false)
                &&& consumed == packet_end(data@, true)
            },
            Err(e) => {
                &&& packet_frames(data@, true) is None
                &&& e == Error::InvalidPacket("invalid packet")
                &&& final(out)@ == old(out)@
            },
        },
{
    let (toc, ranges, consumed) = match parse_packet(data, true) {
        Err(e) => {
            return Err(e);
        },
        Ok(x) => x,
    };
    let ghost (sizes, start) = packet_sizes(data@, true)->0;
    let ghost frames = packet_frames(data@, true)->0;
    proof {
        law_frames_lie_inside_the_packet(data@, true);
        lemma_frame_lengths(data@, true);
        assert(sizes.len() <= 48) by (nonlinear_arith)
            requires
                sizes.len() <= 2 || toc_samples(data@[0], 48_000) * sizes.len() <= 5760,
                toc_samples(data@[0], 48_000) >= 120,
        ;
    }
    out.clear();
    let mut lens: Vec<usize> = Vec::with_capacity(ranges.len());
    let mut i: usize = 0;
    while i < ranges.len()
        invariant
            i <= ranges@.len(),
            ranges@.len() == sizes.len(),
            lens@.len() == i,
            forall|j: int| 0 <= j < sizes.len() ==> (#[trigger] ranges@[j]).1 == sizes[j],
            forall|j: int| 0 <= j < sizes.len() ==> 0 <= #[trigger] sizes[j] <= 1275,
            forall|j: int| 0 <= j < i ==> #[trigger] lens@[j] == sizes[j],
        decreases ranges@.len() - i,
    {
        lens.push(ranges[i].1);
        i += 1;
    }
    proof {
        assert(as_ints(lens@) =~= lengths(frames));
        assert forall|j: int| 0 <= j < lens@.len() implies #[trigger] lens@[j] <= 1275 by {
            assert(sizes[j] <= 1275);
        }
    }
    push_header(toc, &lens, None, false, out);
    let ghost head = header_bytes(toc, lengths(frames), None, false);
    proof {
        assert(frames.take(0) =~= Seq::<Seq<u8>>::empty());
        assert(out@ =~= head + concat(frames.take(0)));
    }
    let len: usize = data.len();
    let mut i: usize = 0;
    while i < ranges.len()
        invariant
            i <= ranges@.len(),
            len == data@.len(),
            ranges@.len() == sizes.len(),
            packet_sizes(data@, true) == Some((sizes, start)),
            frames == packet_frames(data@, true)->0,
            forall|j: int| 0 <= j < sizes.len() ==> 0 <= #[trigger] sizes[j] <= 1275,
            1 <= start,
            start + total(sizes) <= data@.len(),
            forall|j: int|
                0 <= j < sizes.len() ==> (#[trigger] ranges@[j]).0 == start + total(sizes.take(j))
                    && ranges@[j].1 == sizes[j],
            out@ == head + concat(frames.take(i as int)),
        decreases ranges@.len() - i,
    {
        let (o, l) = ranges[i];
        proof {
            lemma_total_prefix(sizes, i as int);
            lemma_concat_step(frames, i as int);
        }
        let piece = vstd::slice::slice_subrange(data, o, o + l);
        assert(piece@ =~= frames[i as int]);
        out.extend_from_slice(piece);
        i += 1;
        proof {
            assert(out@ =~= head + concat(frames.take(i as int)));
        }
    }
    assert(frames.take(i as int) =~= frames);
    Ok(consumed)
}

/// The frames of a packet are as long as its layout says.
proof fn lemma_frame_lengths(data: Seq<u8>, self_delimited: bool)
    requires
        packet_sizes(data, self_delimited) is Some,
    ensures
        lengths(packet_frames(data, self_delimited)->0) == (packet_sizes(data, self_delimited)->0).0,
{
    law_frames_lie_inside_the_packet(data, self_delimited);
    let (sizes, start) = packet_sizes(data, self_delimited)->0;
    let frames = packet_frames(data, self_delimited)->0;
    assert forall|i: int| 0 <= i < sizes.len() implies lengths(frames)[i] == sizes[i] by {
        lemma_total_prefix(sizes, i);
    }
    assert(lengths(frames) =~= sizes);
}

/// [`take_self_delimited_into`] with a buffer of its own.
pub fn take_self_delimited(data: &[u8]) -> (r: Result<(Vec<u8>, usize)>)
    ensures
        match r {
            Ok((out, consumed)) => {
                &&& packet_frames(data@, true) matches Some(frames)
                &&& out@ == packet_bytes(data@[0], frames, None, false)
                &&& consumed == packet_end(data@, true)
            },
            Err(e) => packet_frames(data@, true) is None && e == Error::InvalidPacket(
                "invalid packet",
            ),
        },
{
    let mut out: Vec<u8> = Vec::new();
    match take_self_delimited_into(data, &mut out) {
        Err(e) => Err(e),
        Ok(consumed) => Ok((out, consumed)),
    }
}

/// A repacketizer that holds nothing.
pub open spec fn holding_nothing() -> RepacketizerView {
    RepacketizerView { toc: 0, frames: Seq::empty() }
}

/// A packet taken apart and emitted again, or why it cannot be.
pub open spec fn reframed(packet: Seq<u8>, pad_to: Option<int>) -> Result<Seq<u8>> {
    match appended(holding_nothing(), packet) {
        Err(e) => Err(e),
        Ok(frames) => Ok(packet_bytes(packet[0], frames, pad_to, false)),
    }
}

proof fn lemma_appended_is_packable(packet: Seq<u8>)
    requires
        appended(holding_nothing(), packet) is Ok,
    ensures
        packable(packet[0], appended(holding_nothing(), packet)->Ok_0),
        packet_sizes(packet, false) is Some,
        lengths(appended(holding_nothing(), packet)->Ok_0) == (packet_sizes(packet, false)->0).0,
{
    law_frames_lie_inside_the_packet(packet, false);
    lemma_frame_lengths(packet, false);
    let frames = appended(holding_nothing(), packet)->Ok_0;
    let sizes = (packet_sizes(packet, false)->0).0;
    assert forall|i: int| 0 <= i < frames.len() implies (#[trigger] frames[i]).len() <= 1275 by {
        assert(lengths(frames)[i] == sizes[i]);
    }
    let k: int = toc_samples(packet[0], 8_000);
    let n: int = frames.len() as int;
    assert(k * n == (n + 0) * k) by (nonlinear_arith);
}

/// Grow `packet` in place to `new_len` bytes by adding padding, without
/// re-encoding. Does nothing if it is that long already; errors if `new_len` is
/// smaller. A packet that is refused is left as it was.
pub fn pad_packet(packet: &mut Vec<u8>, new_len: usize) -> (r: Result<()>)
    ensures
        if old(packet)@.len() == 0 {
            r == Err::<(), Error>(Error::InvalidArgument("pad_packet: the packet is empty"))
                && final(packet)@ == old(packet)@
        } else if old(packet)@.len() == new_len {
            r is Ok && final(packet)@ == old(packet)@
        } else if old(packet)@.len() > new_len {
            r == Err::<(), Error>(
                Error::InvalidArgument("pad_packet: new_len is smaller than the packet"),
            ) && final(packet)@ == old(packet)@
        } else {
            match reframed(old(packet)@, Some(new_len as int)) {
                Ok(bytes) => r is Ok && final(packet)@ == bytes,
                Err(e) => r == Err::<(), Error>(e) && final(packet)@ == old(packet)@,
            }
        },
{
    if packet.len() == 0 {
        return Err(Error::InvalidArgument("pad_packet: the packet is empty"));
    }
    if packet.len() == new_len {
        return Ok(());
    }
    if packet.len() > new_len {
        return Err(Error::InvalidArgument("pad_packet: new_len is smaller than the packet"));
    }
    let mut rp = Repacketizer::new();
    proof {
        assert(rp@.frames =~= holding_nothing().frames);
    }
    match rp.cat(packet.as_slice()) {
        Err(e) => {
            return Err(e);
        },
        Ok(_) => {},
    }
    proof {
        lemma_appended_is_packable(packet@);
        let frames = appended(holding_nothing(), packet@)->Ok_0;
        assert(Seq::<Seq<u8>>::empty() + frames =~= frames);
        assert(rp@.frames.subrange(0, rp@.frames.len() as int) =~= rp@.frames);
    }
    match rp.out_range_impl(0, rp.nb_frames(), Some(new_len)) {
        Err(e) => Err(e),
        Ok(padded) => {
            *packet = padded;
            Ok(())
        },
    }
}

/// Strip the padding of a packet, returning the shortest packet of its frames.
pub fn unpad_packet(packet: &[u8]) -> (r: Result<Vec<u8>>)
    ensures
        if packet@.len() == 0 {
            r matches Err(e) && e == Error::InvalidArgument("unpad_packet: the packet is empty")
        } else {
            match reframed(packet@, None) {
                Ok(bytes) => r matches Ok(p) && p@ == bytes,
                Err(e) => r matches Err(f) && f == e,
            }
        },
{
    if packet.len() == 0 {
        return Err(Error::InvalidArgument("unpad_packet: the packet is empty"));
    }
    let mut rp = Repacketizer::new();
    proof {
        assert(rp@.frames =~= holding_nothing().frames);
    }
    match rp.cat(packet) {
        Err(e) => {
            return Err(e);
        },
        Ok(_) => {},
    }
    proof {
        lemma_appended_is_packable(packet@);
        let frames = appended(holding_nothing(), packet@)->Ok_0;
        assert(Seq::<Seq<u8>>::empty() + frames =~= frames);
        assert(rp@.frames.subrange(0, rp@.frames.len() as int) =~= rp@.frames);
    }
    rp.out_range_impl(0, rp.nb_frames(), None)
}

proof fn lemma_read_fields_are_shortest(data: Seq<u8>, pos: int, k: int)
    requires
        0 <= pos <= data.len(),
        0 <= k,
        read_sizes(data, pos, k) is Some,
    ensures
        ({
            let (sizes, at) = read_sizes(data, pos, k)->0;
            at - pos == size_fields(sizes).len()
        }),
    decreases k,
{
    if k > 0 {
        lemma_read_fields_are_shortest(data, pos, k - 1);
        lemma_read_sizes(data, pos, k - 1);
        let (before, at) = read_sizes(data, pos, k - 1)->0;
        let (sizes, end) = read_sizes(data, pos, k)->0;
        assert(sizes.drop_last() =~= before);
    }
}

/// The code 3 packet of a packet's frames is at most one byte longer than the
/// packet.
proof fn lemma_code3_is_short(data: Seq<u8>)
    requires
        packet_sizes(data, false) is Some,
    ensures
        code3_length((packet_sizes(data, false)->0).0) <= data.len() + 1,
{
    lemma_framing(data);
    law_frames_lie_inside_the_packet(data, false);
    let f = framing(data)->0;
    let (sizes, start) = packet_sizes(data, false)->0;
    if f.vbr {
        lemma_read_sizes(data, f.start, f.count - 1);
        lemma_read_fields_are_shortest(data, f.start, f.count - 1);
        let (read, at) = read_sizes(data, f.start, f.count - 1)->0;
        assert(sizes.drop_last() =~= read);
    } else {
        assert(equal_lengths(sizes));
    }
}

/// Padding then unpadding a packet gives what unpadding it gives; padding
/// reaches exactly the length asked for and keeps every frame.
#[verifier::spinoff_prover]
#[verifier::rlimit(60)]
pub proof fn law_unpadding_undoes_padding(packet: Seq<u8>, new_len: int)
    requires
        packet.len() < new_len,
        reframed(packet, Some(new_len)) is Ok,
    ensures
        reframed(packet, Some(new_len))->Ok_0.len() == new_len,
        packet_frames(reframed(packet, Some(new_len))->Ok_0, false) == packet_frames(packet, false),
        reframed(reframed(packet, Some(new_len))->Ok_0, None) == reframed(packet, None),
{
    let frames = appended(holding_nothing(), packet)->Ok_0;
    lemma_appended_is_packable(packet);
    lemma_code3_is_short(packet);
    law_padded_frames_read_back(packet[0], frames, new_len);
    let padded = reframed(packet, Some(new_len))->Ok_0;
    lemma_reframing_forgets_framing(packet[0], frames, padded);
}

/// What is emitted from a packet depends only on its configuration and frames.
proof fn lemma_reframing_forgets_framing(toc: u8, frames: Seq<Seq<u8>>, packet: Seq<u8>)
    requires
        packable(toc, frames),
        packet.len() > 0,
        packet[0] as int / 4 == toc as int / 4,
        packet_frames(packet, false) == Some(frames),
    ensures
        reframed(packet, None) == Ok::<Seq<u8>, Error>(packet_bytes(toc, frames, None, false)),
{
    law_frames_lie_inside_the_packet(packet, false);
    let k: int = toc_samples(packet[0], 8_000);
    let n: int = frames.len() as int;
    assert(toc_config(packet[0]) == toc_config(toc));
    assert(k * n == (n + 0) * k) by (nonlinear_arith);
    assert(packet[0] as int - packet[0] as int % 4 == toc as int - toc as int % 4);
    assert(packet_bytes(packet[0], frames, None, false) == packet_bytes(toc, frames, None, false));
}

/// Unpadding is idempotent and keeps every frame.
#[verifier::spinoff_prover]
#[verifier::rlimit(60)]
pub proof fn law_unpadding_is_idempotent(packet: Seq<u8>)
    requires
        reframed(packet, None) is Ok,
    ensures
        packet_frames(reframed(packet, None)->Ok_0, false) == packet_frames(packet, false),
        reframed(reframed(packet, None)->Ok_0, None) == reframed(packet, None),
{
    let frames = appended(holding_nothing(), packet)->Ok_0;
    lemma_appended_is_packable(packet);
    law_packed_frames_read_back(packet[0], frames);
    lemma_packable_count(packet[0], frames);
    lemma_reframing_forgets_framing(packet[0], frames, reframed(packet, None)->Ok_0);
}

/// Unpadding gives the shortest packet: none that holds the same frames is
/// shorter, whatever its framing.
#[verifier::spinoff_prover]
#[verifier::rlimit(60)]
pub proof fn law_unpadding_gives_the_shortest(packet: Seq<u8>, other: Seq<u8>)
    requires
        reframed(packet, None) is Ok,
        packet_frames(other, false) == packet_frames(packet, false),
    ensures
        reframed(packet, None)->Ok_0.len() <= other.len(),
{
    let frames = appended(holding_nothing(), packet)->Ok_0;
    let lens = lengths(frames);
    lemma_appended_is_packable(packet);
    lemma_concat_length(frames);
    lemma_frame_lengths(other, false);
    law_frames_lie_inside_the_packet(other, false);
    lemma_framing(other);
    let f = framing(other)->0;
    let (sizes, start) = packet_sizes(other, false)->0;
    assert(sizes == lens);
    if f.vbr {
        lemma_read_sizes(other, f.start, f.count - 1);
        lemma_read_fields_are_shortest(other, f.start, f.count - 1);
        let (read, at) = read_sizes(other, f.start, f.count - 1)->0;
        assert(sizes.drop_last() =~= read);
    } else {
        assert(equal_lengths(sizes));
    }
    if lens.len() == 2 {
        let first = lens.drop_last();
        assert(first.drop_last() =~= Seq::<int>::empty());
        reveal_with_fuel(size_fields, 2);
        assert(size_fields(first) =~= size_bytes(lens[0]));
        assert(lens[1] == lens[lens.len() - 1]);
    }
    if lens.len() == 1 {
        assert(lens.drop_last() =~= Seq::<int>::empty());
    }
    if lens.len() > 2 {
        assert(toc_code(other[0]) == 3);
        assert(f.start >= 2) by {
            if (other[1] as int / 64) % 2 == 1 {
                lemma_skip_padding(other, 2, other.len() - 2);
            }
        }
    }
}

/// Stripping the self-delimited framing of a packet keeps its frames, and takes
/// exactly the bytes the packet had.
#[verifier::spinoff_prover]
#[verifier::rlimit(60)]
pub proof fn law_self_delimited_framing_strips(toc: u8, frames: Seq<Seq<u8>>, rest: Seq<u8>)
    requires
        packable(toc, frames),
    ensures
        ({
            let stream = packet_bytes(toc, frames, None, true) + rest;
            let stripped = packet_bytes(stream[0], packet_frames(stream, true)->0, None, false);
            &&& packet_frames(stripped, false) == Some(frames)
            &&& stripped == packet_bytes(toc, frames, None, false)
            &&& stream.skip(packet_end(stream, true)) == rest
        }),
{
    let sd = packet_bytes(toc, frames, None, true);
    let stream = sd + rest;
    law_self_delimited_frames_read_back(toc, frames, rest);
    law_packed_frames_read_back(toc, frames);
    lemma_packable_count(toc, frames);
    assert(stream[0] == sd[0]);
    assert(stream[0] as int - stream[0] as int % 4 == toc as int - toc as int % 4);
    assert(packet_bytes(stream[0], frames, None, false) == packet_bytes(toc, frames, None, false));
    assert(stream.skip(packet_end(stream, true)) =~= rest);
}

/// A packet of given frames appends exactly those frames.
proof fn lemma_appends_its_frames(
    held: RepacketizerView,
    toc: u8,
    frames: Seq<Seq<u8>>,
    packet: Seq<u8>,
)
    requires
        packet.len() > 0,
        packet[0] as int / 4 == toc as int / 4,
        packet_frames(packet, false) == Some(frames),
        held.frames.len() > 0 ==> held.toc as int / 4 == toc as int / 4,
        toc_samples(toc, 8_000) * (held.frames.len() + frames.len()) <= 960,
    ensures
        appended(held, packet) == Ok::<Seq<Seq<u8>>, Error>(frames),
{
    law_frames_lie_inside_the_packet(packet, false);
    let s: int = toc_samples(toc, 8_000);
    assert(toc_config(packet[0]) == toc_config(toc));
    assert((frames.len() + held.frames.len()) * s <= 960) by (nonlinear_arith)
        requires
            s * (held.frames.len() + frames.len()) <= 960,
    ;
}

/// Cutting a packet's frames apart and joining them again gives every frame
/// back in order: merging the pieces holds what the packet held.
#[verifier::spinoff_prover]
#[verifier::rlimit(60)]
pub proof fn law_split_then_merge(toc: u8, frames: Seq<Seq<u8>>, k: int)
    requires
        packable(toc, frames),
        0 < k < frames.len(),
    ensures
        ({
            let a = packet_bytes(toc, frames.take(k), None, false);
            let b = packet_bytes(toc, frames.skip(k), None, false);
            &&& appended(holding_nothing(), a) == Ok::<Seq<Seq<u8>>, Error>(frames.take(k))
            &&& appended(
                (RepacketizerView { toc: a[0], frames: frames.take(k) }),
                b,
            ) == Ok::<Seq<Seq<u8>>, Error>(frames.skip(k))
            &&& frames.take(k) + frames.skip(k) == frames
        }),
{
    let front = frames.take(k);
    let back = frames.skip(k);
    let a = packet_bytes(toc, front, None, false);
    let b = packet_bytes(toc, back, None, false);
    let s: int = toc_samples(toc, 8_000);
    assert(s >= 0);
    assert(s * front.len() <= s * frames.len() && s * back.len() <= s * frames.len())
        by (nonlinear_arith)
        requires
            s >= 0,
            front.len() <= frames.len(),
            back.len() <= frames.len(),
    ;
    law_packed_frames_read_back(toc, front);
    law_packed_frames_read_back(toc, back);
    lemma_appends_its_frames(holding_nothing(), toc, front, a);
    lemma_appends_its_frames(RepacketizerView { toc: a[0], frames: front }, toc, back, b);
    assert(front + back =~= frames);
}

} // verus!
