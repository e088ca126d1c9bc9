//! Ogg page framing (RFC 3533 section 6).
//!
//! A page is a fixed header, a segment table of 1 to 255 lacing values, and the
//! payload those values describe. Packets are split into 255-byte segments; a
//! value below 255 terminates a packet, so a packet whose length is an exact
//! multiple of 255 ends with a 0-length segment. A packet that does not
//! terminate before the segment table fills continues on the next page, which
//! says so in its header.

use vstd::prelude::*;

use super::crc::{crc_of, law_feeding_is_incremental, Crc32};
use super::endian::{
    law_le_bytes_read_back, le32_at, le64_at, le_bytes, le_value, lemma_le_bytes_len,
    lemma_le_ranges, push_le32, push_le64,
};
use crate::error::{Error, Result};

verus! {

/// Bytes in a page header before the segment table.
pub const HEADER_LEN: usize = 27;

/// Lacing values a single page can carry.
pub const MAX_SEGMENTS: usize = 255;

/// Largest payload a single page can describe.
pub const MAX_PAGE_PAYLOAD: usize = 65025;

/// Byte offset of the checksum within the header.
pub const CRC_OFFSET: usize = 22;

/// The flags of a page header.
pub struct HeaderType;

impl HeaderType {
    /// The first packet on this page continues one started on the previous
    /// page.
    pub const CONTINUED: u8 = 1;

    /// The first page of a logical bitstream.
    pub const BOS: u8 = 2;

    /// The last page of a logical bitstream.
    pub const EOS: u8 = 4;
}

/// The bytes every page starts with.
pub open spec fn capture_pattern() -> Seq<u8> {
    seq![0x4fu8, 0x67, 0x67, 0x53]
}

/// A parsed page header.
#[derive(Debug, Clone, Copy, PartialEq, Eq, Structural)]
pub struct PageHeader {
    /// The flags.
    pub header_type: u8,
    /// Samples at 48 kHz decodable through the last packet completing on this
    /// page, including pre-skip; `-1` when no packet completes here.
    pub granule_position: i64,
    /// Which logical bitstream the page belongs to.
    pub serial: u32,
    /// The number of the page in its bitstream.
    pub sequence: u32,
    /// The stored checksum.
    pub crc: u32,
    /// Lacing values in the segment table.
    pub segment_count: u8,
}

/// The unsigned number a signed one is stored as.
pub open spec fn as_unsigned(x: i64) -> int {
    if x >= 0 {
        x as int
    } else {
        x + 0x1_0000_0000_0000_0000
    }
}

fn unsigned_of(x: i64) -> (u: u64)
    ensures
        u == as_unsigned(x),
{
    let u: u64 = #[verifier::truncate]
    (x as u64);
    assert(x >= 0 ==> u == x) by (bit_vector)
        requires
            u == x as u64,
    ;
    assert(x < 0 ==> u == x + 0x1_0000_0000_0000_0000) by (bit_vector)
        requires
            u == x as u64,
    ;
    u
}

fn signed_of(u: u64) -> (x: i64)
    ensures
        u == as_unsigned(x),
{
    let x: i64 = #[verifier::truncate]
    (u as i64);
    assert(u == (if x >= 0 {
        x as int
    } else {
        x + 0x1_0000_0000_0000_0000
    })) by (bit_vector)
        requires
            x == u as i64,
    ;
    x
}

impl PageHeader {
    /// Whether the page resumes a packet.
    pub fn is_continued(self) -> (b: bool)
        ensures
            b == (self.header_type % 2 == 1),
    {
        let t: u8 = self.header_type;
        assert((t & 1 != 0) == (t % 2 == 1)) by (bit_vector);
        t & HeaderType::CONTINUED != 0
    }

    /// Whether the page opens its bitstream.
    pub fn is_bos(self) -> (b: bool)
        ensures
            b == (self.header_type as int / 2 % 2 == 1),
    {
        let t: u8 = self.header_type;
        assert((t & 2 != 0) == (t / 2 % 2 == 1)) by (bit_vector);
        t & HeaderType::BOS != 0
    }

    /// Whether the page closes its bitstream.
    pub fn is_eos(self) -> (b: bool)
        ensures
            b == (self.header_type as int / 4 % 2 == 1),
    {
        let t: u8 = self.header_type;
        assert((t & 4 != 0) == (t / 4 % 2 == 1)) by (bit_vector);
        t & HeaderType::EOS != 0
    }

    /// Parse a page header. The checksum is not validated: the payload is not
    /// available at this point.
    pub fn parse(buf: &[u8; HEADER_LEN]) -> (r: Result<Self>)
        ensures
            match r {
                Ok(h) => spec_header(buf@) == Ok::<PageHeader, Error>(h),
                Err(e) => spec_header(buf@) == Err::<PageHeader, Error>(e),
            },
    {
        if buf[0] != 0x4f || buf[1] != 0x67 || buf[2] != 0x67 || buf[3] != 0x53 {
            return Err(Error::InvalidStream("page is missing the OggS capture pattern"));
        }
        assert(buf@.subrange(0, 4) =~= capture_pattern());
        if buf[4] != 0 {
            return Err(Error::InvalidStream("unsupported Ogg page version"));
        }
        let data = vstd::array::array_as_slice(buf);
        let granule_position: i64 = signed_of(le64_at(data, 6));
        proof {
            lemma_signed_value(buf@.subrange(6, 14), granule_position);
        }
        Ok(
            PageHeader {
                header_type: buf[5],
                granule_position,
                serial: le32_at(data, 14),
                sequence: le32_at(data, 18),
                crc: le32_at(data, 22),
                segment_count: buf[26],
            },
        )
    }
}

/// The signed number eight bytes hold.
pub open spec fn signed_value(s: Seq<u8>) -> i64 {
    if le_value(s) < 0x8000_0000_0000_0000 {
        le_value(s) as i64
    } else {
        (le_value(s) - 0x1_0000_0000_0000_0000) as i64
    }
}

proof fn lemma_signed_value(s: Seq<u8>, x: i64)
    requires
        le_value(s) == as_unsigned(x),
    ensures
        signed_value(s) == x,
{
}

/// The header the first bytes of a page hold, or why they hold none.
pub open spec fn spec_header(raw: Seq<u8>) -> Result<PageHeader> {
    if raw.subrange(0, 4) != capture_pattern() {
        Err(Error::InvalidStream("page is missing the OggS capture pattern"))
    } else if raw[4] != 0 {
        Err(Error::InvalidStream("unsupported Ogg page version"))
    } else {
        Ok(
            PageHeader {
                header_type: raw[5],
                granule_position: signed_value(raw.subrange(6, 14)),
                serial: le_value(raw.subrange(14, 18)) as u32,
                sequence: le_value(raw.subrange(18, 22)) as u32,
                crc: le_value(raw.subrange(22, 26)) as u32,
                segment_count: raw[26],
            },
        )
    }
}

/// What a page says of itself and carries.
pub struct Page {
    /// The flags.
    pub header_type: u8,
    /// The granule position.
    pub granule: i64,
    /// The lacing values.
    pub segments: Seq<u8>,
    /// The bytes they describe.
    pub payload: Seq<u8>,
}

/// The sum of lacing values.
pub open spec fn lacing_sum(segments: Seq<u8>) -> int
    decreases segments.len(),
{
    if segments.len() == 0 {
        0
    } else {
        lacing_sum(segments.drop_last()) + segments.last()
    }
}

/// Whether a page can be written: 1 to 255 lacing values that account for
/// exactly the payload.
pub open spec fn page_valid(page: Page) -> bool {
    &&& 1 <= page.segments.len() <= 255
    &&& lacing_sum(page.segments) == page.payload.len()
}

/// The header bytes ahead of the checksum.
pub open spec fn header_front(page: Page, serial: u32, sequence: u32) -> Seq<u8> {
    capture_pattern() + seq![0u8, page.header_type] + le_bytes(as_unsigned(page.granule), 8)
        + le_bytes(serial as int, 4) + le_bytes(sequence as int, 4)
}

/// The page behind the checksum.
pub open spec fn page_back(page: Page) -> Seq<u8> {
    seq![page.segments.len() as u8] + page.segments + page.payload
}

/// The checksum of a page, which reads its own field as four zero bytes.
pub open spec fn page_crc(page: Page, serial: u32, sequence: u32) -> u32 {
    crc_of(header_front(page, serial, sequence) + seq![0u8, 0, 0, 0] + page_back(page))
}

/// A page on the wire.
pub open spec fn page_bytes(page: Page, serial: u32, sequence: u32) -> Seq<u8> {
    header_front(page, serial, sequence) + le_bytes(page_crc(page, serial, sequence) as int, 4)
        + page_back(page)
}

/// Serialize a complete page and stamp its checksum.
///
/// The checksum covers the whole page with the field itself read as four zero
/// bytes, so it is computed before the field is filled in.
pub fn write_page(
    header_type: u8,
    granule_position: i64,
    serial: u32,
    sequence: u32,
    segments: &[u8],
    payload: &[u8],
    out: &mut Vec<u8>,
)
    requires
        page_valid(
            Page {
                header_type,
                granule: granule_position,
                segments: segments@,
                payload: payload@,
            },
        ),
    ensures
        final(out)@ == old(out)@ + page_bytes(
            (Page {
                header_type,
                granule: granule_position,
                segments: segments@,
                payload: payload@,
            }),
            serial,
            sequence,
        ),
{
    let ghost page = Page {
        header_type,
        granule: granule_position,
        segments: segments@,
        payload: payload@,
    };
    let mut front: Vec<u8> = Vec::with_capacity(HEADER_LEN);
    front.push(0x4f);
    front.push(0x67);
    front.push(0x67);
    front.push(0x53);
    front.push(0);
    front.push(header_type);
    push_le64(unsigned_of(granule_position), &mut front);
    push_le32(serial, &mut front);
    push_le32(sequence, &mut front);
    assert(front@ =~= header_front(page, serial, sequence));
    let count: u8 = segments.len() as u8;
    let mut c = Crc32::new();
    c.update(front.as_slice());
    c.update_zeros(4);
    let tail: [u8; 1] = [count];
    c.update(vstd::array::array_as_slice(&tail));
    c.update(segments);
    c.update(payload);
    let crc: u32 = c.finish();
    proof {
        let f = front@;
        let z = Seq::new(4, |i: int| 0u8);
        assert(z =~= seq![0u8, 0, 0, 0]);
        assert(tail@ =~= seq![count]);
        law_feeding_is_incremental(0, f, z);
        law_feeding_is_incremental(0, f + z, seq![count]);
        law_feeding_is_incremental(0, f + z + seq![count], segments@);
        law_feeding_is_incremental(0, f + z + seq![count] + segments@, payload@);
        assert(f + z + seq![count] + segments@ + payload@ =~= f + z + page_back(page));
        assert(crc == page_crc(page, serial, sequence));
    }
    out.extend_from_slice(front.as_slice());
    push_le32(crc, out);
    out.push(count);
    out.extend_from_slice(segments);
    out.extend_from_slice(payload);
    assert(out@ =~= old(out)@ + page_bytes(page, serial, sequence));
}

/// Verify a page's stored checksum against its contents.
pub fn verify_crc(
    raw_header: &[u8; HEADER_LEN],
    segments: &[u8],
    payload: &[u8],
    expected: u32,
) -> (b: bool)
    ensures
        b == (crc_of(
            raw_header@.subrange(0, 22) + seq![0u8, 0, 0, 0] + raw_header@.subrange(26, 27)
                + segments@ + payload@,
        ) == expected),
{
    let raw = vstd::array::array_as_slice(raw_header);
    let front = vstd::slice::slice_subrange(raw, 0, CRC_OFFSET);
    let back = vstd::slice::slice_subrange(raw, CRC_OFFSET + 4, HEADER_LEN);
    let mut c = Crc32::new();
    c.update(front);
    c.update_zeros(4);
    c.update(back);
    c.update(segments);
    c.update(payload);
    proof {
        let z = Seq::new(4, |i: int| 0u8);
        assert(z =~= seq![0u8, 0, 0, 0]);
        law_feeding_is_incremental(0, front@, z);
        law_feeding_is_incremental(0, front@ + z, back@);
        law_feeding_is_incremental(0, front@ + z + back@, segments@);
        law_feeding_is_incremental(0, front@ + z + back@ + segments@, payload@);
    }
    c.finish() == expected
}

/// The lacing values of a packet of `len` bytes.
pub open spec fn lacing(len: nat) -> Seq<u8> {
    Seq::new(len / 255, |i: int| 255u8).push((len % 255) as u8)
}

/// Lacing values encoding a packet of `len` bytes.
///
/// Always ends in a value below 255, adding a 0-length terminator when `len` is
/// an exact multiple of 255: without it a decoder cannot tell the packet ended.
pub fn lacing_values(len: usize) -> (v: Vec<u8>)
    ensures
        v@ == lacing(len as nat),
{
    let full: usize = len / 255;
    let mut v: Vec<u8> = Vec::new();
    let mut i: usize = 0;
    while i < full
        invariant
            i <= full,
            v@ =~= Seq::new(i as nat, |j: int| 255u8),
        decreases full - i,
    {
        v.push(255);
        i += 1;
    }
    v.push((len % 255) as u8);
    assert(v@ =~= lacing(len as nat));
    v
}

proof fn lemma_full_segments_sum(n: nat)
    ensures
        lacing_sum(Seq::new(n, |i: int| 255u8)) == 255 * n,
    decreases n,
{
    let s = Seq::new(n, |i: int| 255u8);
    if n > 0 {
        lemma_full_segments_sum((n - 1) as nat);
        assert(s.drop_last() =~= Seq::new((n - 1) as nat, |i: int| 255u8));
    }
}

/// Lacing values add up to the packet's length, and only the last is below 255.
pub proof fn law_lacing_terminates_below_255(len: nat)
    ensures
        lacing_sum(lacing(len)) == len,
        lacing(len).last() < 255,
        forall|i: int| 0 <= i < lacing(len).len() - 1 ==> #[trigger] lacing(len)[i] == 255,
{
    lemma_full_segments_sum(len / 255);
    assert(lacing(len).drop_last() =~= Seq::new(len / 255, |i: int| 255u8));
}

/// A written page reads back: its header parses to what was asked for, its
/// segment table and payload stand behind the header, and its checksum holds.
pub proof fn law_written_page_reads_back(page: Page, serial: u32, sequence: u32)
    requires
        page_valid(page),
    ensures
        ({
            let bytes = page_bytes(page, serial, sequence);
            let raw = bytes.subrange(0, 27);
            let n = page.segments.len() as int;
            &&& bytes.len() == 27 + n + page.payload.len()
            &&& spec_header(raw) == Ok::<PageHeader, Error>(
                PageHeader {
                    header_type: page.header_type,
                    granule_position: page.granule,
                    serial,
                    sequence,
                    crc: page_crc(page, serial, sequence),
                    segment_count: n as u8,
                },
            )
            &&& bytes.subrange(27, 27 + n) == page.segments
            &&& bytes.skip(27 + n) == page.payload
            &&& crc_of(
                raw.subrange(0, 22) + seq![0u8, 0, 0, 0] + raw.subrange(26, 27) + page.segments
                    + page.payload,
            ) == page_crc(page, serial, sequence)
        }),
{
    let bytes = page_bytes(page, serial, sequence);
    let raw = bytes.subrange(0, 27);
    let g: int = as_unsigned(page.granule);
    let crc: int = page_crc(page, serial, sequence) as int;
    lemma_le_ranges();
    lemma_le_bytes_len(g, 8);
    lemma_le_bytes_len(serial as int, 4);
    lemma_le_bytes_len(sequence as int, 4);
    lemma_le_bytes_len(crc, 4);
    law_le_bytes_read_back(g, 8);
    law_le_bytes_read_back(serial as int, 4);
    law_le_bytes_read_back(sequence as int, 4);
    law_le_bytes_read_back(crc, 4);
    let n: int = page.segments.len() as int;
    assert(raw.subrange(0, 4) =~= capture_pattern());
    assert(raw.subrange(6, 14) =~= le_bytes(g, 8));
    assert(raw.subrange(14, 18) =~= le_bytes(serial as int, 4));
    assert(raw.subrange(18, 22) =~= le_bytes(sequence as int, 4));
    assert(raw.subrange(22, 26) =~= le_bytes(crc, 4));
    lemma_signed_value(raw.subrange(6, 14), page.granule);
    assert(bytes.subrange(27, 27 + n) =~= page.segments);
    assert(bytes.skip(27 + n) =~= page.payload);
    assert(raw.subrange(0, 22) =~= header_front(page, serial, sequence));
    assert(raw.subrange(26, 27) =~= seq![n as u8]);
    assert(header_front(page, serial, sequence) + seq![0u8, 0, 0, 0] + seq![n as u8]
        + page.segments + page.payload =~= header_front(page, serial, sequence) + seq![
        0u8,
        0,
        0,
        0,
    ] + page_back(page));
}

/// A page with one payload byte changed no longer matches its checksum.
pub proof fn law_changed_payload_fails_the_checksum(
    page: Page,
    serial: u32,
    sequence: u32,
    i: int,
    b: u8,
)
    requires
        page_valid(page),
        0 <= i < page.payload.len(),
        b != page.payload[i],
    ensures
        ({
            let raw = page_bytes(page, serial, sequence).subrange(0, 27);
            crc_of(
                raw.subrange(0, 22) + seq![0u8, 0, 0, 0] + raw.subrange(26, 27) + page.segments
                    + page.payload.update(i, b),
            ) != page_crc(page, serial, sequence)
        }),
{
    law_written_page_reads_back(page, serial, sequence);
    let raw = page_bytes(page, serial, sequence).subrange(0, 27);
    let front = raw.subrange(0, 22) + seq![0u8, 0, 0, 0] + raw.subrange(26, 27) + page.segments;
    let whole = front + page.payload;
    super::crc::law_one_changed_byte_is_detected(whole, front.len() + i, b);
    assert(whole.update(front.len() + i, b) =~= front + page.payload.update(i, b));
}

} // verus!
