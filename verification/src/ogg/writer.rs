//! Ogg Opus muxer.

use vstd::prelude::*;

use super::header::{head_bytes, OpusHead};
use super::page::{
    lacing, lacing_sum, lacing_values, page_bytes, page_valid, write_page, HeaderType, Page,
    MAX_PAGE_PAYLOAD, MAX_SEGMENTS,
};
use super::tags::{tags_bytes, OpusTags};
use crate::error::{Error, Result};
use crate::packet::{samples_48k, spec_samples};

verus! {

/// Payload bytes to accumulate before flushing a page.
///
/// RFC 3533 allows many more, but pages that large cost a lot of audio on a
/// single checksum failure and delay the first decodable output.
const DEFAULT_PAGE_TARGET: usize = 4096;

/// Writes Opus packets into an Ogg stream (RFC 7845).
///
/// The two header pages are written by the constructor, so a stream is well
/// formed from the first call. Audio packets accumulate into pages and are
/// flushed on size; [`finish`](OggOpusWriter::finish) writes the trailing page
/// with the end-of-stream flag. Pages are appended to a byte buffer, which the
/// caller may drain between calls.
#[derive(Debug)]
pub struct OggOpusWriter {
    sink: Vec<u8>,
    serial: u32,
    sequence: u32,
    page_target: usize,
    /// Lacing values for the page being assembled.
    segments: Vec<u8>,
    /// Payload bytes matching `segments`.
    payload: Vec<u8>,
    /// Running granule position: the number of 48 kHz samples a decoder can
    /// produce from every packet written so far. The pre-skip samples are the
    /// first of those and are not added on top.
    granule: i64,
    /// Granule of the last packet that completed on the page being assembled.
    page_granule: Option<i64>,
    /// The page being assembled resumes a packet started on the previous one.
    continued: bool,
    finished: bool,
}

/// A writer as a value.
pub struct WriterView {
    /// What has been written.
    pub output: Seq<u8>,
    /// The serial number of the stream.
    pub serial: u32,
    /// Pages written so far.
    pub sequence: int,
    /// Payload bytes that make a page full.
    pub page_target: int,
    /// Lacing values for the page being assembled.
    pub segments: Seq<u8>,
    /// Payload bytes matching them.
    pub payload: Seq<u8>,
    /// Samples written so far, at 48 kHz.
    pub granule: int,
    /// Granule of the last packet completed on the page being assembled.
    pub page_granule: Option<i64>,
    /// Whether the page being assembled resumes a packet.
    pub continued: bool,
    /// Whether the stream has been closed.
    pub finished: bool,
}

impl View for OggOpusWriter {
    type V = WriterView;

    closed spec fn view(&self) -> WriterView {
        WriterView {
            output: self.sink@,
            serial: self.serial,
            sequence: self.sequence as int,
            page_target: self.page_target as int,
            segments: self.segments@,
            payload: self.payload@,
            granule: self.granule as int,
            page_granule: self.page_granule,
            continued: self.continued,
            finished: self.finished,
        }
    }
}

/// The page being assembled, as it is written with these flags.
pub open spec fn pending_page(w: WriterView, flags: u8, granule: i64) -> Page {
    Page {
        header_type: if w.continued {
            flags | HeaderType::CONTINUED
        } else {
            flags
        },
        granule,
        segments: w.segments,
        payload: w.payload,
    }
}

/// The writer once the page being assembled is written, if it holds anything.
pub open spec fn flushed(w: WriterView, flags: u8, granule: i64) -> WriterView {
    if w.segments.len() == 0 {
        w
    } else {
        WriterView {
            output: w.output + page_bytes(
                pending_page(w, flags, granule),
                w.serial,
                w.sequence as u32,
            ),
            sequence: w.sequence + 1,
            segments: Seq::empty(),
            payload: Seq::empty(),
            page_granule: None,
            continued: false,
            ..w
        }
    }
}

/// The granule of the page being assembled; `-1` where no packet has completed
/// on it.
pub open spec fn pending_granule(w: WriterView) -> i64 {
    match w.page_granule {
        Some(g) => g,
        None => (-1) as i64,
    }
}

/// The writer with room for a lacing value of a packet already begun: a full
/// page is written first, and the packet continues on the next.
pub open spec fn with_room(w: WriterView) -> WriterView {
    if w.segments.len() == 255 {
        WriterView { continued: true, ..flushed(w, 0, pending_granule(w)) }
    } else {
        w
    }
}

/// The writer once the first `k` segments of a packet are laid down.
pub open spec fn laid(w: WriterView, packet: Seq<u8>, k: int) -> WriterView
    decreases k,
{
    if k <= 0 {
        w
    } else {
        let u = with_room(laid(w, packet, k - 1));
        let lace = lacing(packet.len())[k - 1];
        WriterView {
            segments: u.segments.push(lace),
            payload: u.payload + packet.subrange(255 * (k - 1), 255 * (k - 1) + lace),
            ..u
        }
    }
}

/// The writer once a whole packet is laid down.
pub open spec fn pushed(w: WriterView, packet: Seq<u8>) -> WriterView {
    laid(w, packet, lacing(packet.len()).len() as int)
}

/// The writer that a full page is taken off before the next packet.
pub open spec fn settled(w: WriterView) -> WriterView {
    if w.payload.len() >= w.page_target || w.segments.len() == 255 {
        flushed(w, 0, pending_granule(w))
    } else {
        w
    }
}

/// The writer after a packet of `samples`, or why it is refused.
pub open spec fn written(w: WriterView, packet: Seq<u8>, samples: int) -> Result<WriterView> {
    if w.finished {
        Err(Error::InvalidArgument("writer has already been finished"))
    } else if packet.len() == 0 {
        Err(Error::InvalidArgument("Opus packets cannot be empty"))
    } else if samples > 5760 {
        Err(
            Error::InvalidArgument(
                "an Opus packet cannot exceed 120 ms (5760 samples at 48 kHz)",
            ),
        )
    } else {
        let u = pushed(settled(w), packet);
        Ok(
            WriterView {
                granule: u.granule + samples,
                page_granule: Some((u.granule + samples) as i64),
                ..u
            },
        )
    }
}

/// The writer with its stream closed. A stream without audio still gets a page,
/// which carries a single zero-length segment.
pub open spec fn closed(w: WriterView) -> WriterView {
    let u = if w.segments.len() == 0 {
        WriterView { segments: seq![0u8], finished: true, ..w }
    } else {
        WriterView { finished: true, ..w }
    };
    flushed(u, HeaderType::EOS, pending_granule(u))
}

/// A writer that has written nothing.
pub open spec fn blank(sink: Seq<u8>, serial: u32) -> WriterView {
    WriterView {
        output: sink,
        serial,
        sequence: 0,
        page_target: 4096,
        segments: Seq::empty(),
        payload: Seq::empty(),
        granule: 0,
        page_granule: None,
        continued: false,
        finished: false,
    }
}

/// A writer that has written its two header packets, each on pages of its own.
pub open spec fn opened(sink: Seq<u8>, head: Seq<u8>, tags: Seq<u8>, serial: u32) -> WriterView {
    let first = flushed(pushed(blank(sink, serial), head), HeaderType::BOS, 0);
    flushed(pushed(first, tags), 0, 0)
}

/// Whether the counters have room for a packet of `len` bytes.
pub open spec fn has_room(w: WriterView, len: int) -> bool {
    &&& w.sequence + len + 3 <= u32::MAX
    &&& w.granule + 5760 <= i64::MAX
}

/// What always holds of the page being assembled.
pub open spec fn page_in_order(w: WriterView) -> bool {
    &&& w.segments.len() <= 255
    &&& lacing_sum(w.segments) == w.payload.len()
}

/// 32-bit FNV-1a.
pub open spec fn fnv(h: u32, data: Seq<u8>) -> u32
    decreases data.len(),
{
    if data.len() == 0 {
        h
    } else {
        (fnv(h, data.drop_last()) ^ (data.last() as u32)).wrapping_mul(0x0100_0193)
    }
}

/// The serial derived from the header packets; never 0, which is conventionally
/// avoided.
pub open spec fn spec_serial(head: Seq<u8>, tags: Seq<u8>) -> u32 {
    let h = fnv(0x811c_9dc5, head + tags);
    if h == 0 {
        1
    } else {
        h
    }
}

fn fnv_feed(h: u32, data: &[u8]) -> (r: u32)
    ensures
        r == fnv(h, data@),
{
    let mut r: u32 = h;
    let mut i: usize = 0;
    assert(data@.take(0) =~= Seq::<u8>::empty());
    while i < data.len()
        invariant
            i <= data@.len(),
            r == fnv(h, data@.take(i as int)),
        decreases data@.len() - i,
    {
        proof {
            assert(data@.take(i + 1).drop_last() =~= data@.take(i as int));
        }
        r = (r ^ (data[i] as u32)).wrapping_mul(0x0100_0193);
        i += 1;
    }
    assert(data@.take(i as int) =~= data@);
    r
}

proof fn lemma_fnv_concat(h: u32, a: Seq<u8>, b: Seq<u8>)
    ensures
        fnv(fnv(h, a), b) == fnv(h, a + b),
    decreases b.len(),
{
    if b.len() == 0 {
        assert(a + b =~= a);
    } else {
        lemma_fnv_concat(h, a, b.drop_last());
        assert((a + b).drop_last() =~= a + b.drop_last());
    }
}

/// A deterministic serial derived from the header packets.
fn derive_serial(head: &OpusHead, tags: &OpusTags) -> (s: u32)
    ensures
        s == spec_serial(head_bytes(head@), tags_bytes(tags@)),
{
    let h: u32 = fnv_feed(0x811c_9dc5, head.to_packet().as_slice());
    let h: u32 = fnv_feed(h, tags.to_packet().as_slice());
    proof {
        lemma_fnv_concat(0x811c_9dc5, head_bytes(head@), tags_bytes(tags@));
    }
    if h == 0 {
        1
    } else {
        h
    }
}

proof fn lemma_lace_fits(len: nat, k: int)
    requires
        0 < k <= lacing(len).len(),
    ensures
        0 <= 255 * (k - 1),
        255 * (k - 1) + lacing(len)[k - 1] <= len,
        k < lacing(len).len() ==> lacing(len)[k - 1] == 255,
        k == lacing(len).len() ==> lacing(len)[k - 1] < 255 && 255 * (k - 1) + lacing(len)[k - 1]
            == len,
        lacing(len).len() <= len + 1,
{
}

proof fn lemma_lacing_push(segments: Seq<u8>, lace: u8)
    ensures
        lacing_sum(segments.push(lace)) == lacing_sum(segments) + lace,
{
    assert(segments.push(lace).drop_last() =~= segments);
}

impl OggOpusWriter {
    /// What always holds of a writer.
    pub closed spec fn inv(&self) -> bool {
        page_in_order(self@)
    }

    /// Start a stream, writing the `OpusHead` and a default `OpusTags` page.
    pub fn new(sink: Vec<u8>, head: OpusHead) -> (r: Result<Self>)
        requires
            head.channel_mapping@.len() <= 255,
        ensures
            r matches Ok(w) && w.inv() && ({
                let tags = tags_bytes(
                    super::tags::TagsView {
                        vendor: "opus-pure 0.1.0"@,
                        comments: Seq::empty(),
                    },
                );
                w@ == opened(
                    sink@,
                    head_bytes(head@),
                    tags,
                    spec_serial(head_bytes(head@), tags),
                )
            }),
    {
        let tags = OpusTags::new();
        proof {
            lemma_default_tags_are_short(tags@);
            lemma_head_is_short(&head);
            assert(tags@ == (super::tags::TagsView {
                vendor: "opus-pure 0.1.0"@,
                comments: Seq::empty(),
            }));
        }
        Self::with_tags(sink, head, tags)
    }

    /// Start a stream with caller-supplied tags.
    ///
    /// The serial number is derived from the header content, so encoding the
    /// same audio twice produces byte-identical files.
    pub fn with_tags(sink: Vec<u8>, head: OpusHead, tags: OpusTags) -> (r: Result<Self>)
        requires
            head_bytes(head@).len() + tags_bytes(tags@).len() + 8 <= u32::MAX,
        ensures
            r matches Ok(w) && w.inv() && w@ == opened(
                sink@,
                head_bytes(head@),
                tags_bytes(tags@),
                spec_serial(head_bytes(head@), tags_bytes(tags@)),
            ),
    {
        let serial: u32 = derive_serial(&head, &tags);
        Self::with_serial(sink, head, tags, serial)
    }

    /// Start a stream with an explicit serial number.
    pub fn with_serial(sink: Vec<u8>, head: OpusHead, tags: OpusTags, serial: u32) -> (r: Result<
        Self,
    >)
        requires
            head_bytes(head@).len() + tags_bytes(tags@).len() + 8 <= u32::MAX,
        ensures
            r matches Ok(w) && w.inv() && w@ == opened(
                sink@,
                head_bytes(head@),
                tags_bytes(tags@),
                serial,
            ),
    {
        let mut w = OggOpusWriter {
            sink,
            serial,
            sequence: 0,
            page_target: DEFAULT_PAGE_TARGET,
            segments: Vec::with_capacity(MAX_SEGMENTS),
            payload: Vec::with_capacity(DEFAULT_PAGE_TARGET + 255),
            granule: 0,
            page_granule: None,
            continued: false,
            finished: false,
        };
        assert(w@ == blank(w@.output, serial));
        let head_packet: Vec<u8> = head.to_packet();
        let tags_packet: Vec<u8> = tags.to_packet();
        w.push_packet_bytes(head_packet.as_slice());
        w.flush_page(HeaderType::BOS, 0);
        w.push_packet_bytes(tags_packet.as_slice());
        w.flush_page(0, 0);
        Ok(w)
    }

    /// The serial number identifying this logical stream, as written into every
    /// page header.
    pub fn serial(&self) -> (s: u32)
        ensures
            s == self@.serial,
    {
        self.serial
    }

    /// Payload bytes to accumulate before a page is flushed, clamped to what a
    /// page can hold.
    pub fn set_page_target(&mut self, bytes: usize)
        requires
            old(self).inv(),
        ensures
            final(self).inv(),
            final(self)@ == (WriterView {
                page_target: if bytes < 1 {
                    1
                } else if bytes > 65025 {
                    65025
                } else {
                    bytes as int
                },
                ..old(self)@
            }),
    {
        self.page_target = if bytes < 1 {
            1
        } else if bytes > MAX_PAGE_PAYLOAD {
            MAX_PAGE_PAYLOAD
        } else {
            bytes
        };
    }

    /// Whether the counters of pages and samples have room for a packet of `len`
    /// bytes.
    pub fn has_room_for(&self, len: usize) -> (b: bool)
        ensures
            b == has_room(self@, len as int),
    {
        len <= 0xffff_ffff && self.sequence as u64 + len as u64 + 3 <= 0xffff_ffff && self.granule
            <= i64::MAX - 5760
    }

    /// Append one Opus packet, taking its duration from the packet itself.
    pub fn write_packet(&mut self, packet: &[u8]) -> (r: Result<()>)
        requires
            old(self).inv(),
            has_room(old(self)@, packet@.len() as int),
        ensures
            final(self).inv(),
            match spec_samples(packet@, 48_000) {
                Err(e) => r == Err::<(), Error>(e) && final(self)@ == old(self)@,
                Ok(n) => match written(old(self)@, packet@, n as int) {
                    Ok(w) => r is Ok && final(self)@ == w,
                    Err(e) => r == Err::<(), Error>(e) && final(self)@ == old(self)@,
                },
            },
    {
        match samples_48k(packet) {
            Err(e) => Err(e),
            Ok(n) => self.write_packet_with_duration(packet, n as u32),
        }
    }

    /// Append one Opus packet, stating its duration in 48 kHz samples.
    ///
    /// Prefer [`write_packet`](Self::write_packet); the reason to use this one
    /// is the end-trim of RFC 7845 section 4.4, a final granule deliberately
    /// short of the audio.
    pub fn write_packet_with_duration(&mut self, packet: &[u8], samples_48k: u32) -> (r: Result<()>)
        requires
            old(self).inv(),
            has_room(old(self)@, packet@.len() as int),
        ensures
            final(self).inv(),
            match written(old(self)@, packet@, samples_48k as int) {
                Ok(w) => r is Ok && final(self)@ == w,
                Err(e) => r == Err::<(), Error>(e) && final(self)@ == old(self)@,
            },
    {
        if self.finished {
            return Err(Error::InvalidArgument("writer has already been finished"));
        }
        if packet.len() == 0 {
            return Err(Error::InvalidArgument("Opus packets cannot be empty"));
        }
        if samples_48k > 5760 {
            return Err(
                Error::InvalidArgument(
                    "an Opus packet cannot exceed 120 ms (5760 samples at 48 kHz)",
                ),
            );
        }
        if self.payload.len() >= self.page_target || self.segments.len() == MAX_SEGMENTS {
            let g: i64 = self.page_granule_or_none();
            self.flush_page(0, g);
        }
        assert(self@ == settled(old(self)@));
        self.push_packet_bytes(packet);
        self.granule = self.granule + samples_48k as i64;
        self.page_granule = Some(self.granule);
        Ok(())
    }

    /// The bytes written so far.
    pub fn get_ref(&self) -> (r: Option<&Vec<u8>>)
        ensures
            r matches Some(v) && v@ == self@.output,
    {
        Some(&self.sink)
    }

    /// The bytes written so far, mutably: this is for draining them.
    pub fn get_mut(&mut self) -> (r: Option<&mut Vec<u8>>)
        requires
            old(self).inv(),
        ensures
            final(self).inv(),
            r matches Some(v) && v@ == old(self)@.output && final(self)@ == (WriterView {
                output: final(v)@,
                ..old(self)@
            }),
    {
        Some(&mut self.sink)
    }

    /// Write the final page with the end-of-stream flag and return the bytes.
    pub fn finish(self) -> (r: Result<Vec<u8>>)
        requires
            self.inv(),
            self@.sequence < u32::MAX,
        ensures
            r matches Ok(v) && v@ == (if self@.finished {
                self@.output
            } else {
                closed(self@).output
            }),
    {
        let mut w = self;
        w.finish_in_place();
        Ok(w.sink)
    }

    /// Write the final page, unless the stream is closed already.
    pub fn finish_in_place(&mut self)
        requires
            old(self).inv(),
            old(self)@.sequence < u32::MAX,
        ensures
            final(self).inv(),
            final(self)@ == if old(self)@.finished {
                old(self)@
            } else {
                closed(old(self)@)
            },
    {
        if self.finished {
            return;
        }
        self.finished = true;
        if self.segments.len() == 0 {
            self.segments.push(0);
            proof {
                assert(self.segments@ =~= seq![0u8]);
                lemma_lacing_push(Seq::empty(), 0);
                assert(Seq::<u8>::empty().push(0) =~= seq![0u8]);
            }
        }
        let g: i64 = self.page_granule_or_none();
        self.flush_page(HeaderType::EOS, g);
    }

    fn page_granule_or_none(&self) -> (g: i64)
        ensures
            g == pending_granule(self@),
    {
        match self.page_granule {
            Some(g) => g,
            None => -1,
        }
    }

    /// Append a packet's segments and bytes, flushing whenever the segment
    /// table fills mid-packet; the remainder then continues on the next page.
    fn push_packet_bytes(&mut self, packet: &[u8])
        requires
            old(self).inv(),
            old(self)@.sequence + packet@.len() + 1 <= u32::MAX,
        ensures
            final(self).inv(),
            final(self)@ == pushed(old(self)@, packet@),
            final(self)@.sequence <= old(self)@.sequence + packet@.len() + 1,
            final(self)@.granule == old(self)@.granule,
    {
        let laces: Vec<u8> = lacing_values(packet.len());
        let len: usize = packet.len();
        let mut off: usize = 0;
        let mut i: usize = 0;
        while i < laces.len()
            invariant
                i <= laces@.len(),
                len == packet@.len(),
                laces@ == lacing(packet@.len()),
                i < laces@.len() ==> off == 255 * i,
                page_in_order(self@),
                self@ == laid(old(self)@, packet@, i as int),
                self@.sequence <= old(self)@.sequence + i,
                self@.granule == old(self)@.granule,
                old(self)@.sequence + packet@.len() + 1 <= u32::MAX,
            decreases laces@.len() - i,
        {
            proof {
                lemma_lace_fits(packet@.len(), i + 1);
            }
            if self.segments.len() == MAX_SEGMENTS {
                let g: i64 = self.page_granule_or_none();
                self.flush_page(0, g);
                self.continued = true;
            }
            let ghost u = self@;
            assert(u == with_room(laid(old(self)@, packet@, i as int)));
            let lace: u8 = laces[i];
            self.segments.push(lace);
            let piece = vstd::slice::slice_subrange(packet, off, off + lace as usize);
            self.payload.extend_from_slice(piece);
            proof {
                lemma_lacing_push(u.segments, lace);
                assert(self@.segments =~= u.segments.push(lace));
                assert(self@.payload =~= u.payload + packet@.subrange(255 * i, 255 * i + lace));
            }
            off = off + lace as usize;
            i += 1;
        }
    }

    /// Write the page being assembled, if it holds anything.
    fn flush_page(&mut self, flags: u8, granule: i64)
        requires
            old(self).inv(),
            old(self)@.sequence < u32::MAX,
        ensures
            final(self).inv(),
            final(self)@ == flushed(old(self)@, flags, granule),
    {
        if self.segments.len() == 0 {
            return;
        }
        let header_type: u8 = if self.continued {
            flags | HeaderType::CONTINUED
        } else {
            flags
        };
        write_page(
            header_type,
            granule,
            self.serial,
            self.sequence,
            self.segments.as_slice(),
            self.payload.as_slice(),
            &mut self.sink,
        );
        self.sequence = self.sequence + 1;
        self.segments.clear();
        self.payload.clear();
        self.page_granule = None;
        self.continued = false;
        assert(self.segments@ =~= Seq::<u8>::empty());
        assert(self.payload@ =~= Seq::<u8>::empty());
    }
}

proof fn lemma_default_tags_are_short(t: super::tags::TagsView)
    requires
        t.vendor == "opus-pure 0.1.0"@,
        t.comments.len() == 0,
    ensures
        tags_bytes(t).len() <= 256,
{
    reveal_strlit("opus-pure 0.1.0");
    vstd::utf8::is_ascii_chars_encode_utf8(t.vendor);
    super::endian::lemma_le_bytes_len(vstd::utf8::encode_utf8(t.vendor).len() as int % 0x1_0000_0000, 4);
    super::endian::lemma_le_bytes_len(0int % 0x1_0000_0000, 4);
    assert(super::tags::strings_bytes(super::tags::encoded(t.comments)).len() == 0);
}

proof fn lemma_head_is_short(head: &OpusHead)
    requires
        head.channel_mapping@.len() <= 255,
    ensures
        head_bytes(head@).len() <= 300,
{
    super::endian::lemma_le_bytes_len(head.pre_skip as int, 2);
    super::endian::lemma_le_bytes_len(head.input_sample_rate as int, 4);
    super::endian::lemma_le_bytes_len(super::header::gain_unsigned(head.output_gain_q8), 2);
}


// ---------------------------------------------------------------------------
// What was written reads back
// ---------------------------------------------------------------------------
/// Packets taken back out of lacing values and payload: those complete, and what
/// there is of one begun.
pub open spec fn delaced(segments: Seq<u8>, payload: Seq<u8>) -> (Seq<Seq<u8>>, Seq<u8>)
    decreases segments.len(),
{
    if segments.len() == 0 {
        (Seq::empty(), Seq::empty())
    } else {
        let lace = segments.last() as int;
        let cut = payload.len() - lace;
        let (done, part) = delaced(segments.drop_last(), payload.take(cut));
        let grown = part + payload.skip(cut);
        if lace < 255 {
            (done.push(grown), Seq::empty())
        } else {
            (done, grown)
        }
    }
}

/// The lacing values of pages, one page after the other.
pub open spec fn all_segments(pages: Seq<Page>) -> Seq<u8>
    decreases pages.len(),
{
    if pages.len() == 0 {
        Seq::empty()
    } else {
        all_segments(pages.drop_last()) + pages.last().segments
    }
}

/// The payloads of pages, one page after the other.
pub open spec fn all_payload(pages: Seq<Page>) -> Seq<u8>
    decreases pages.len(),
{
    if pages.len() == 0 {
        Seq::empty()
    } else {
        all_payload(pages.drop_last()) + pages.last().payload
    }
}

/// Pages on the wire, numbered from 0.
pub open spec fn wire(pages: Seq<Page>, serial: u32) -> Seq<u8>
    decreases pages.len(),
{
    if pages.len() == 0 {
        Seq::empty()
    } else {
        wire(pages.drop_last(), serial) + page_bytes(
            pages.last(),
            serial,
            (pages.len() - 1) as u32,
        )
    }
}

/// Whether lacing values stop inside a packet.
pub open spec fn mid_packet(segments: Seq<u8>) -> bool {
    segments.len() > 0 && segments.last() == 255
}

/// Whether a page's flags are right where it stands: it opens the stream if and
/// only if it is the first, does not close it, and continues a packet if and
/// only if the pages before it stop inside one.
pub open spec fn flags_right(pages: Seq<Page>, i: int) -> bool {
    pages[i].header_type == (if i == 0 {
        2int
    } else {
        0
    }) + (if mid_packet(all_segments(pages.take(i))) {
        1int
    } else {
        0
    })
}

/// Whether a writer has put these packets and the first part of another into a
/// well-formed stream: what it wrote behind `base` are these pages, each valid
/// and rightly flagged, and with the page being assembled they hold the packets.
pub open spec fn stream_holds(
    w: WriterView,
    base: Seq<u8>,
    pages: Seq<Page>,
    packets: Seq<Seq<u8>>,
    part: Seq<u8>,
) -> bool {
    &&& w.sequence == pages.len()
    &&& w.output == base + wire(pages, w.serial)
    &&& forall|i: int| 0 <= i < pages.len() ==> page_valid(#[trigger] pages[i])
    &&& forall|i: int| 0 <= i < pages.len() ==> #[trigger] flags_right(pages, i)
    &&& page_in_order(w)
    &&& w.continued == mid_packet(all_segments(pages))
    &&& delaced(all_segments(pages) + w.segments, all_payload(pages) + w.payload) == (packets, part)
}

/// How many packets end among lacing values.
pub open spec fn completed(segments: Seq<u8>) -> nat
    decreases segments.len(),
{
    if segments.len() == 0 {
        0
    } else {
        completed(segments.drop_last()) + (if segments.last() < 255 {
            1nat
        } else {
            0
        })
    }
}

/// The durations of packets, added.
pub open spec fn samples_of(durations: Seq<int>) -> int
    decreases durations.len(),
{
    if durations.len() == 0 {
        0
    } else {
        samples_of(durations.drop_last()) + durations.last()
    }
}

/// Whether a page's granule is right where it stands, for packets of these
/// durations: the samples of all packets that end on it or before it, or -1 where
/// none ends on it.
pub open spec fn granule_right(pages: Seq<Page>, durations: Seq<int>, i: int) -> bool {
    pages[i].granule == if completed(pages[i].segments) == 0 {
        -1
    } else {
        samples_of(durations.take(completed(all_segments(pages.take(i + 1))) as int))
    }
}

/// Whether a writer has put the right granules on its pages, and keeps the one of
/// the page being assembled, for packets of these durations.
pub open spec fn granules_hold(w: WriterView, pages: Seq<Page>, durations: Seq<int>) -> bool {
    &&& forall|i: int| 0 <= i < pages.len() ==> #[trigger] granule_right(pages, durations, i)
    &&& completed(all_segments(pages)) + completed(w.segments) == durations.len()
    &&& w.granule == samples_of(durations)
    &&& 0 <= w.granule <= i64::MAX
    &&& w.page_granule == if completed(w.segments) == 0 {
        None
    } else {
        Some(w.granule as i64)
    }
}

proof fn lemma_completed_joins(a: Seq<u8>, b: Seq<u8>)
    ensures
        completed(a + b) == completed(a) + completed(b),
    decreases b.len(),
{
    if b.len() == 0 {
        assert(a + b =~= a);
    } else {
        lemma_completed_joins(a, b.drop_last());
        assert((a + b).drop_last() =~= a + b.drop_last());
    }
}

proof fn lemma_completed_push(segments: Seq<u8>, lace: u8)
    ensures
        completed(segments.push(lace)) == completed(segments) + (if lace < 255 {
            1nat
        } else {
            0
        }),
{
    assert(segments.push(lace).drop_last() =~= segments);
}

proof fn lemma_completed_before(pages: Seq<Page>, j: int)
    requires
        0 <= j <= pages.len(),
    ensures
        completed(all_segments(pages.take(j))) <= completed(all_segments(pages)),
    decreases pages.len(),
{
    if j == pages.len() {
        assert(pages.take(j) =~= pages);
    } else {
        let front = pages.drop_last();
        lemma_completed_before(front, j);
        assert(front.take(j) =~= pages.take(j));
        lemma_completed_joins(all_segments(front), pages.last().segments);
    }
}

/// One more packet leaves the granules of earlier pages right.
proof fn lemma_granules_outlast(pages: Seq<Page>, durations: Seq<int>, d: int)
    requires
        forall|i: int| 0 <= i < pages.len() ==> #[trigger] granule_right(pages, durations, i),
        completed(all_segments(pages)) <= durations.len(),
    ensures
        forall|i: int|
            0 <= i < pages.len() ==> #[trigger] granule_right(pages, durations.push(d), i),
{
    assert forall|i: int| 0 <= i < pages.len() implies #[trigger] granule_right(
        pages,
        durations.push(d),
        i,
    ) by {
        assert(granule_right(pages, durations, i));
        lemma_completed_before(pages, i + 1);
        let k = completed(all_segments(pages.take(i + 1))) as int;
        assert(durations.push(d).take(k) =~= durations.take(k));
    }
}

/// A page written with the granule of the last packet that ended on it has the
/// right one.
proof fn lemma_flush_keeps_granules(
    w: WriterView,
    flags: u8,
    granule: i64,
    pages: Seq<Page>,
    durations: Seq<int>,
)
    requires
        forall|i: int| 0 <= i < pages.len() ==> #[trigger] granule_right(pages, durations, i),
        completed(all_segments(pages)) + completed(w.segments) == durations.len(),
        granule == if completed(w.segments) == 0 {
            -1
        } else {
            samples_of(durations)
        },
    ensures
        ({
            let more = pages.push(pending_page(w, flags, granule));
            &&& forall|i: int| 0 <= i < more.len() ==> #[trigger] granule_right(more, durations, i)
            &&& completed(all_segments(more)) == durations.len()
        }),
{
    let more = pages.push(pending_page(w, flags, granule));
    assert(more.drop_last() =~= pages);
    lemma_completed_joins(all_segments(pages), w.segments);
    assert forall|i: int| 0 <= i < more.len() implies #[trigger] granule_right(
        more,
        durations,
        i,
    ) by {
        if i < pages.len() {
            assert(granule_right(pages, durations, i));
            assert(more.take(i + 1) =~= pages.take(i + 1));
        } else {
            assert(more.take(i + 1) =~= more);
            assert(durations.take(durations.len() as int) =~= durations);
        }
    }
}

proof fn lemma_continued_flag(flags: u8)
    requires
        flags == 0 || flags == 2 || flags == 4,
    ensures
        flags | HeaderType::CONTINUED == flags + 1,
{
    assert(0u8 | 1 == 1 && 2u8 | 1 == 3 && 4u8 | 1 == 5) by (bit_vector);
}

/// Writing the page being assembled moves it to the pages written.
proof fn lemma_flush_keeps_stream(
    w: WriterView,
    flags: u8,
    granule: i64,
    base: Seq<u8>,
    pages: Seq<Page>,
    packets: Seq<Seq<u8>>,
    part: Seq<u8>,
)
    requires
        stream_holds(w, base, pages, packets, part),
        w.segments.len() > 0,
        flags == if pages.len() == 0 {
            2int
        } else {
            0
        },
    ensures
        ({
            let more = pages.push(pending_page(w, flags, granule));
            let u = flushed(w, flags, granule);
            &&& stream_holds(
                (WriterView { continued: mid_packet(w.segments), ..u }),
                base,
                more,
                packets,
                part,
            )
            &&& u.segments.len() == 0
            &&& mid_packet(all_segments(more)) == mid_packet(w.segments)
        }),
{
    let page = pending_page(w, flags, granule);
    let more = pages.push(page);
    let u = flushed(w, flags, granule);
    assert(more.drop_last() =~= pages);
    lemma_continued_flag(flags);
    assert(wire(more, w.serial) == wire(pages, w.serial) + page_bytes(
        page,
        w.serial,
        pages.len() as u32,
    ));
    assert(u.output =~= base + wire(more, w.serial));
    assert forall|i: int| 0 <= i < more.len() implies #[trigger] flags_right(more, i) by {
        if i < pages.len() {
            assert(flags_right(pages, i));
            assert(more.take(i) =~= pages.take(i));
        } else {
            assert(more.take(i) =~= pages);
        }
    }
    assert forall|i: int| 0 <= i < more.len() implies page_valid(#[trigger] more[i]) by {
        if i < pages.len() {
            assert(page_valid(pages[i]));
        }
    }
    assert(all_segments(more) =~= all_segments(pages) + w.segments);
    assert(all_payload(more) =~= all_payload(pages) + w.payload);
    assert(all_segments(more) + u.segments =~= all_segments(pages) + w.segments);
    assert(all_payload(more) + u.payload =~= all_payload(pages) + w.payload);
    assert(all_segments(more).last() == w.segments.last());
}

/// Laying down segments grows the packet begun, and completes it with the last.
#[verifier::spinoff_prover]
#[verifier::rlimit(60)]
proof fn lemma_laying_keeps_stream(
    w: WriterView,
    packet: Seq<u8>,
    k: int,
    base: Seq<u8>,
    pages: Seq<Page>,
    packets: Seq<Seq<u8>>,
    durations: Seq<int>,
) -> (more: Seq<Page>)
    requires
        stream_holds(w, base, pages, packets, Seq::empty()),
        granules_hold(w, pages, durations),
        w.segments.len() < 255,
        pages.len() > 0 || packet.len() < 255 * 255,
        pages.len() == 0 ==> w.segments.len() == 0,
        0 <= k <= lacing(packet.len()).len(),
    ensures
        ({
            let u = laid(w, packet, k);
            let n = lacing(packet.len()).len();
            &&& if k < n {
                stream_holds(u, base, more, packets, packet.take(255 * k))
            } else {
                stream_holds(u, base, more, packets.push(packet), Seq::empty())
            }
            &&& if k < n {
                granules_hold(u, more, durations)
            } else {
                &&& forall|i: int|
                    0 <= i < more.len() ==> #[trigger] granule_right(more, durations, i)
                &&& completed(all_segments(more)) + completed(u.segments) == durations.len() + 1
                &&& completed(u.segments) > 0
            }
            &&& pages.len() == 0 ==> more.len() == 0 && u.segments.len() == k
            &&& k > 0 ==> u.segments.len() > 0
            &&& 0 < k < n ==> u.segments.last() == 255
            &&& k == n ==> u.segments.last() < 255
            &&& pages.len() <= more.len()
            &&& more.take(pages.len() as int) == pages
        }),
    decreases k,
{
    let n: int = lacing(packet.len()).len() as int;
    if k == 0 {
        assert(packet.take(0) =~= Seq::<u8>::empty());
        assert(pages.take(pages.len() as int) =~= pages);
        pages
    } else {
        let before = lemma_laying_keeps_stream(
            w,
            packet,
            k - 1,
            base,
            pages,
            packets,
            durations,
        );
        lemma_lace_fits(packet.len(), k);
        let t = laid(w, packet, k - 1);
        let part = packet.take(255 * (k - 1));
        let u = with_room(t);
        let more = if t.segments.len() == 255 {
            lemma_flush_keeps_stream(t, 0, pending_granule(t), base, before, packets, part);
            lemma_flush_keeps_granules(t, 0, pending_granule(t), before, durations);
            before.push(pending_page(t, 0, pending_granule(t)))
        } else {
            before
        };
        assert(stream_holds(u, base, more, packets, part));
        let lace: u8 = lacing(packet.len())[k - 1];
        let piece = packet.subrange(255 * (k - 1), 255 * (k - 1) + lace);
        let v = laid(w, packet, k);
        lemma_lacing_push(u.segments, lace);
        lemma_completed_push(u.segments, lace);
        let segs = all_segments(more) + v.segments;
        let bytes = all_payload(more) + v.payload;
        assert(segs.drop_last() =~= all_segments(more) + u.segments);
        assert(segs.last() == lace);
        let cut: int = bytes.len() - lace;
        assert(bytes.take(cut) =~= all_payload(more) + u.payload);
        assert(bytes.skip(cut) =~= piece);
        if k < n {
            assert(part + piece =~= packet.take(255 * k));
        } else {
            assert(part + piece =~= packet);
        }
        assert(more.take(pages.len() as int) =~= pages);
        more
    }
}

/// Opening a stream writes the two header packets: the first page opens the
/// stream and holds the identification header alone.
#[verifier::spinoff_prover]
#[verifier::rlimit(60)]
pub proof fn law_opened_stream_holds_its_headers(
    sink: Seq<u8>,
    head: Seq<u8>,
    tags: Seq<u8>,
    serial: u32,
) -> (pages: Seq<Page>)
    requires
        head.len() < 255 * 255,
    ensures
        stream_holds(
            opened(sink, head, tags, serial),
            sink,
            pages,
            seq![head, tags],
            Seq::empty(),
        ),
        granules_hold(opened(sink, head, tags, serial), pages, seq![0, 0]),
        opened(sink, head, tags, serial).segments.len() == 0,
        pages.len() >= 2,
        pages[0].payload == head,
        pages[0].segments == lacing(head.len()),
        pages[0].header_type == HeaderType::BOS,
{
    let w0 = blank(sink, serial);
    let none = Seq::<Page>::empty();
    assert(sink + wire(none, serial) =~= sink);
    assert(all_segments(none) + w0.segments =~= Seq::<u8>::empty());
    assert(all_payload(none) + w0.payload =~= Seq::<u8>::empty());
    assert(stream_holds(w0, sink, none, Seq::empty(), Seq::empty()));
    let n: int = lacing(head.len()).len() as int;
    assert(granules_hold(w0, none, Seq::empty()));
    let p1 = lemma_laying_keeps_stream(w0, head, n, sink, none, Seq::empty(), Seq::empty());
    assert(p1 =~= none);
    let w1 = pushed(w0, head);
    lemma_first_packet_is_alone(w0, head, n);
    assert(head.take(head.len() as int) =~= head);
    assert(lacing(head.len()).take(n) =~= lacing(head.len()));
    let one = Seq::<Seq<u8>>::empty().push(head);
    lemma_flush_keeps_stream(w1, 2, 0, sink, none, one, Seq::empty());
    let d1 = Seq::<int>::empty().push(0);
    assert(d1.drop_last() =~= Seq::empty());
    lemma_granules_outlast(none, Seq::empty(), 0);
    lemma_flush_keeps_granules(w1, 2, 0, none, d1);
    lemma_laid_keeps_counters(w0, head, n);
    let page0 = pending_page(w1, 2, 0);
    let p2 = none.push(page0);
    let w2 = flushed(w1, HeaderType::BOS, 0);
    assert(w2 == (WriterView { continued: mid_packet(w1.segments), ..w2 }));
    let m: int = lacing(tags.len()).len() as int;
    let p3 = lemma_laying_keeps_stream(w2, tags, m, sink, p2, one, d1);
    let w3 = pushed(w2, tags);
    let two = one.push(tags);
    assert(two =~= seq![head, tags]);
    lemma_flush_keeps_stream(w3, 0, 0, sink, p3, two, Seq::empty());
    let d2 = d1.push(0);
    assert(d2.drop_last() =~= d1);
    assert(samples_of(d1) == 0 && samples_of(d2) == 0) by {
        reveal_with_fuel(samples_of, 3);
    }
    assert(d2 =~= seq![0int, 0]);
    lemma_granules_outlast(p3, d1, 0);
    lemma_flush_keeps_granules(w3, 0, 0, p3, d2);
    lemma_laid_keeps_counters(w2, tags, m);
    let w4 = flushed(w3, 0, 0);
    assert(w4 == (WriterView { continued: mid_packet(w3.segments), ..w4 }));
    let p4 = p3.push(pending_page(w3, 0, 0));
    assert(p4[0] == p3.take(1)[0]);
    p4
}

/// A packet short enough for one page leaves the page being assembled with its
/// segments and bytes alone.
proof fn lemma_first_packet_is_alone(w: WriterView, packet: Seq<u8>, k: int)
    requires
        w.segments.len() == 0,
        w.payload.len() == 0,
        packet.len() < 255 * 255,
        0 <= k <= lacing(packet.len()).len(),
    ensures
        laid(w, packet, k).segments == lacing(packet.len()).take(k),
        laid(w, packet, k).payload == packet.take(
            if k < lacing(packet.len()).len() {
                255 * k
            } else {
                packet.len() as int
            },
        ),
        laid(w, packet, k).continued == w.continued,
        laid(w, packet, k).sequence == w.sequence,
    decreases k,
{
    if k == 0 {
        assert(w.segments =~= lacing(packet.len()).take(0));
        assert(w.payload =~= packet.take(0));
    } else {
        lemma_first_packet_is_alone(w, packet, k - 1);
        lemma_lace_fits(packet.len(), k);
        let v = laid(w, packet, k);
        assert(v.segments =~= lacing(packet.len()).take(k));
        if k < lacing(packet.len()).len() {
            assert(v.payload =~= packet.take(255 * k));
        } else {
            assert(v.payload =~= packet);
            assert(packet.take(packet.len() as int) =~= packet);
        }
    }
}

/// A packet that is accepted joins the stream behind those already there, byte
/// for byte, and the pages already written stay. The page that completes it
/// will carry the duration of everything written so far.
#[verifier::spinoff_prover]
#[verifier::rlimit(60)]
pub proof fn law_written_packet_joins_the_stream(
    w: WriterView,
    packet: Seq<u8>,
    samples: int,
    base: Seq<u8>,
    pages: Seq<Page>,
    packets: Seq<Seq<u8>>,
    durations: Seq<int>,
) -> (more: Seq<Page>)
    requires
        stream_holds(w, base, pages, packets, Seq::empty()),
        granules_hold(w, pages, durations),
        pages.len() > 0,
        !mid_packet(all_segments(pages) + w.segments),
        has_room(w, packet.len() as int),
        0 <= samples,
        w.granule >= 0,
        written(w, packet, samples) is Ok,
    ensures
        ({
            let u = written(w, packet, samples)->Ok_0;
            &&& stream_holds(u, base, more, packets.push(packet), Seq::empty())
            &&& granules_hold(u, more, durations.push(samples))
            &&& !mid_packet(all_segments(more) + u.segments)
            &&& pages.len() <= more.len()
            &&& more.take(pages.len() as int) == pages
            &&& u.granule == w.granule + samples
            &&& pending_granule(u) == u.granule
            &&& u.segments.len() > 0
            &&& u.serial == w.serial
            &&& !u.finished
        }),
{
    let t = settled(w);
    let kept = if w.segments.len() > 0 && (w.payload.len() >= w.page_target || w.segments.len()
        == 255) {
        lemma_flush_keeps_stream(
            w,
            0,
            pending_granule(w),
            base,
            pages,
            packets,
            Seq::empty(),
        );
        lemma_flush_keeps_granules(w, 0, pending_granule(w), pages, durations);
        assert((all_segments(pages) + w.segments).last() == w.segments.last());
        assert(t == (WriterView { continued: mid_packet(w.segments), ..t }));
        pages.push(pending_page(w, 0, pending_granule(w)))
    } else {
        pages
    };
    assert(stream_holds(t, base, kept, packets, Seq::empty()));
    let n: int = lacing(packet.len()).len() as int;
    let more = lemma_laying_keeps_stream(t, packet, n, base, kept, packets, durations);
    lemma_granules_outlast(more, durations, samples);
    assert(durations.push(samples).drop_last() =~= durations);
    lemma_laid_keeps_counters(t, packet, n);
    let v = pushed(t, packet);
    assert((all_segments(more) + v.segments).last() == v.segments.last());
    assert(more.take(pages.len() as int) =~= more.take(kept.len() as int).take(pages.len() as int));
    assert(kept.take(pages.len() as int) =~= pages);
    more
}

proof fn lemma_laid_keeps_counters(w: WriterView, packet: Seq<u8>, k: int)
    ensures
        laid(w, packet, k).granule == w.granule,
        laid(w, packet, k).serial == w.serial,
        laid(w, packet, k).finished == w.finished,
        laid(w, packet, k).page_target == w.page_target,
    decreases k,
{
    if k > 0 {
        lemma_laid_keeps_counters(w, packet, k - 1);
    }
}

/// The last page of a stream: the one being assembled, or, where none is, one
/// with a single empty segment.
pub open spec fn last_page(w: WriterView) -> Page {
    pending_page(
        if w.segments.len() == 0 {
            WriterView { segments: seq![0u8], ..w }
        } else {
            w
        },
        HeaderType::EOS,
        pending_granule(w),
    )
}

/// Closing a stream writes one last page, flagged as the end, whose granule is
/// that of the page being assembled; the packets stay as they are. Where no page
/// is being assembled, the last one adds an empty packet.
#[verifier::spinoff_prover]
#[verifier::rlimit(60)]
pub proof fn law_closed_stream_holds_every_packet(
    w: WriterView,
    base: Seq<u8>,
    pages: Seq<Page>,
    packets: Seq<Seq<u8>>,
)
    requires
        stream_holds(w, base, pages, packets, Seq::empty()),
        !w.finished,
    ensures
        ({
            let last = last_page(w);
            let more = pages.push(last);
            &&& closed(w).output == base + wire(more, w.serial)
            &&& closed(w).finished
            &&& page_valid(last)
            &&& last.granule == pending_granule(w)
            &&& last.header_type == 4 + (if mid_packet(all_segments(pages)) {
                1int
            } else {
                0
            })
            &&& delaced(all_segments(more), all_payload(more)) == (
                if w.segments.len() == 0 {
                    packets.push(Seq::empty())
                } else {
                    packets
                },
                Seq::<u8>::empty(),
            )
        }),
{
    let last = last_page(w);
    let more = pages.push(last);
    assert(more.drop_last() =~= pages);
    lemma_continued_flag(4);
    assert(wire(more, w.serial) == wire(pages, w.serial) + page_bytes(
        last,
        w.serial,
        pages.len() as u32,
    ));
    assert(closed(w).output =~= base + wire(more, w.serial));
    if w.segments.len() == 0 {
        lemma_lacing_push(Seq::empty(), 0);
        assert(Seq::<u8>::empty().push(0) =~= seq![0u8]);
        assert(w.segments =~= Seq::<u8>::empty());
        let segs = all_segments(more);
        let bytes = all_payload(more);
        assert(segs.drop_last() =~= all_segments(pages) + w.segments);
        assert(bytes.take(bytes.len() as int) =~= all_payload(pages) + w.payload);
        assert(Seq::<u8>::empty() + bytes.skip(bytes.len() as int) =~= Seq::<u8>::empty());
    }
}

/// A packet handed to a writer, with its duration in 48 kHz samples.
pub struct Submission {
    /// The packet.
    pub packet: Seq<u8>,
    /// Its duration.
    pub samples: int,
}

/// The writer after packets handed to it in order; one that is refused changes
/// nothing.
pub open spec fn after_submissions(w: WriterView, calls: Seq<Submission>) -> WriterView
    decreases calls.len(),
{
    if calls.len() == 0 {
        w
    } else {
        let u = after_submissions(w, calls.drop_last());
        match written(u, calls.last().packet, calls.last().samples) {
            Ok(v) => v,
            Err(_) => u,
        }
    }
}

/// Whether none of them is refused and the counters have room for all.
pub open spec fn all_accepted(w: WriterView, calls: Seq<Submission>) -> bool
    decreases calls.len(),
{
    calls.len() > 0 ==> {
        let u = after_submissions(w, calls.drop_last());
        &&& all_accepted(w, calls.drop_last())
        &&& has_room(u, calls.last().packet.len() as int)
        &&& 0 <= calls.last().samples
        &&& written(u, calls.last().packet, calls.last().samples) is Ok
    }
}

/// The packets that are handed over.
pub open spec fn submitted_packets(calls: Seq<Submission>) -> Seq<Seq<u8>> {
    Seq::new(calls.len(), |i: int| calls[i].packet)
}

/// Their durations.
pub open spec fn submitted_durations(calls: Seq<Submission>) -> Seq<int> {
    Seq::new(calls.len(), |i: int| calls[i].samples)
}

/// The durations of all packets of a stream: the two headers, which have none,
/// and those that are handed over.
pub open spec fn stream_durations(calls: Seq<Submission>) -> Seq<int> {
    seq![0int, 0] + submitted_durations(calls)
}

proof fn lemma_submissions_join(
    w: WriterView,
    calls: Seq<Submission>,
    base: Seq<u8>,
    pages: Seq<Page>,
    packets: Seq<Seq<u8>>,
    durations: Seq<int>,
) -> (more: Seq<Page>)
    requires
        stream_holds(w, base, pages, packets, Seq::empty()),
        granules_hold(w, pages, durations),
        pages.len() > 0,
        !mid_packet(all_segments(pages) + w.segments),
        !w.finished,
        all_accepted(w, calls),
    ensures
        ({
            let u = after_submissions(w, calls);
            &&& stream_holds(u, base, more, packets + submitted_packets(calls), Seq::empty())
            &&& granules_hold(u, more, durations + submitted_durations(calls))
            &&& !mid_packet(all_segments(more) + u.segments)
            &&& pages.len() <= more.len()
            &&& more.take(pages.len() as int) == pages
            &&& u.serial == w.serial
            &&& !u.finished
            &&& calls.len() == 0 ==> u == w
            &&& calls.len() > 0 ==> u.segments.len() > 0 && pending_granule(u) == u.granule
        }),
    decreases calls.len(),
{
    if calls.len() == 0 {
        assert(packets + submitted_packets(calls) =~= packets);
        assert(durations + submitted_durations(calls) =~= durations);
        assert(pages.take(pages.len() as int) =~= pages);
        pages
    } else {
        let front = calls.drop_last();
        let before = lemma_submissions_join(w, front, base, pages, packets, durations);
        let u = after_submissions(w, front);
        let c = calls.last();
        let held = packets + submitted_packets(front);
        let lasted = durations + submitted_durations(front);
        let more = law_written_packet_joins_the_stream(
            u,
            c.packet,
            c.samples,
            base,
            before,
            held,
            lasted,
        );
        assert(lasted.push(c.samples) =~= durations + submitted_durations(calls));
        assert(held.push(c.packet) =~= packets + submitted_packets(calls));
        assert(more.take(pages.len() as int) =~= more.take(before.len() as int).take(
            pages.len() as int,
        ));
        more
    }
}

/// A finished stream is whole. Its pages are valid and numbered from 0; the first
/// opens it and holds the identification header alone; the last, and no other,
/// closes it, with a granule of all samples written, or none where there was no
/// audio. The granule of every other page is the samples of all packets that end
/// on it or before it, or -1 where none ends on it; the headers have no samples.
/// Taken together they hold the two headers and every packet in order; a
/// stream without audio ends with an empty packet.
#[verifier::spinoff_prover]
#[verifier::rlimit(60)]
pub proof fn law_a_finished_stream_is_whole(
    sink: Seq<u8>,
    head: Seq<u8>,
    tags: Seq<u8>,
    serial: u32,
    calls: Seq<Submission>,
) -> (pages: Seq<Page>)
    requires
        head.len() < 255 * 255,
        all_accepted(opened(sink, head, tags, serial), calls),
    ensures
        ({
            let end = closed(after_submissions(opened(sink, head, tags, serial), calls));
            let front = pages.drop_last();
            &&& end.finished
            &&& end.output == sink + wire(pages, serial)
            &&& pages.len() >= 3
            &&& forall|i: int| 0 <= i < pages.len() ==> page_valid(#[trigger] pages[i])
            &&& forall|i: int| 0 <= i < front.len() ==> #[trigger] flags_right(front, i)
            &&& forall|i: int|
                0 <= i < front.len() ==> #[trigger] granule_right(
                    front,
                    stream_durations(calls),
                    i,
                )
            &&& pages[0].payload == head
            &&& pages.last().header_type == 4 + (if mid_packet(all_segments(front)) {
                1int
            } else {
                0
            })
            &&& pages.last().granule == if calls.len() == 0 {
                -1
            } else {
                samples_of(submitted_durations(calls))
            }
            &&& delaced(all_segments(pages), all_payload(pages)) == (
                seq![head, tags] + (if calls.len() == 0 {
                    seq![Seq::<u8>::empty()]
                } else {
                    submitted_packets(calls)
                }),
                Seq::<u8>::empty(),
            )
        }),
{
    let w = opened(sink, head, tags, serial);
    let both = seq![head, tags];
    let first = law_opened_stream_holds_its_headers(sink, head, tags, serial);
    lemma_opened_counters(sink, head, tags, serial);
    let headers = seq![0int, 0];
    let more = lemma_submissions_join(w, calls, sink, first, both, headers);
    lemma_silent_headers(submitted_durations(calls));
    let u = after_submissions(w, calls);
    let packets = both + submitted_packets(calls);
    law_closed_stream_holds_every_packet(u, sink, more, packets);
    let pages = more.push(last_page(u));
    assert(pages.drop_last() =~= more);
    assert(more[0] == more.take(first.len() as int)[0]);
    assert forall|i: int| 0 <= i < pages.len() implies page_valid(#[trigger] pages[i]) by {
        if i < more.len() {
            assert(page_valid(more[i]));
        }
    }
    if calls.len() == 0 {
        assert(packets =~= both);
        assert(both.push(Seq::<u8>::empty()) =~= both + seq![Seq::<u8>::empty()]);
    }
    pages
}

proof fn lemma_silent_headers(durations: Seq<int>)
    ensures
        samples_of(seq![0, 0] + durations) == samples_of(durations),
    decreases durations.len(),
{
    let all = seq![0int, 0] + durations;
    if durations.len() == 0 {
        assert(all.drop_last().drop_last() =~= Seq::<int>::empty());
        reveal_with_fuel(samples_of, 3);
    } else {
        lemma_silent_headers(durations.drop_last());
        assert(all.drop_last() =~= seq![0int, 0] + durations.drop_last());
    }
}

proof fn lemma_opened_counters(sink: Seq<u8>, head: Seq<u8>, tags: Seq<u8>, serial: u32)
    ensures
        ({
            let w = opened(sink, head, tags, serial);
            &&& w.serial == serial
            &&& !w.finished
        }),
{
    let w0 = blank(sink, serial);
    lemma_laid_keeps_counters(w0, head, lacing(head.len()).len() as int);
    let w2 = flushed(pushed(w0, head), HeaderType::BOS, 0);
    lemma_laid_keeps_counters(w2, tags, lacing(tags.len()).len() as int);
}

/// Writers agree: two that were opened on empty sinks with the same headers, and
/// were then handed the same packets, have the same serial, which is not 0, and
/// hold the same bytes after every packet and once finished.
pub proof fn law_equal_calls_write_equal_bytes(
    a: OggOpusWriter,
    b: OggOpusWriter,
    head: Seq<u8>,
    tags: Seq<u8>,
    calls: Seq<Submission>,
)
    requires
        ({
            let w = opened(Seq::empty(), head, tags, spec_serial(head, tags));
            &&& a@ == after_submissions(w, calls)
            &&& b@ == after_submissions(w, calls)
        }),
    ensures
        a@.serial == b@.serial,
        a@.serial == spec_serial(head, tags),
        a@.serial != 0,
        a@.output == b@.output,
        closed(a@).output == closed(b@).output,
{
    law_serial_is_never_zero(head, tags);
    let w = opened(Seq::empty(), head, tags, spec_serial(head, tags));
    lemma_opened_counters(Seq::empty(), head, tags, spec_serial(head, tags));
    lemma_submissions_keep_serial(w, calls);
}

proof fn lemma_submissions_keep_serial(w: WriterView, calls: Seq<Submission>)
    ensures
        after_submissions(w, calls).serial == w.serial,
    decreases calls.len(),
{
    if calls.len() > 0 {
        lemma_submissions_keep_serial(w, calls.drop_last());
        let u = after_submissions(w, calls.drop_last());
        let packet = calls.last().packet;
        lemma_laid_keeps_counters(settled(u), packet, lacing(packet.len()).len() as int);
    }
}

/// A packet that says how long it lasts is never refused by a writer that is not
/// finished.
pub proof fn law_a_sound_packet_is_accepted(w: WriterView, packet: Seq<u8>)
    requires
        !w.finished,
        spec_samples(packet, 48_000) is Ok,
    ensures
        written(w, packet, spec_samples(packet, 48_000)->Ok_0 as int) is Ok,
{
}

/// The serial of a stream depends on its header packets alone and is never 0.
#[verifier::spinoff_prover]
#[verifier::rlimit(60)]
pub proof fn law_serial_is_never_zero(head: Seq<u8>, tags: Seq<u8>)
    ensures
        spec_serial(head, tags) != 0,
{
}

} // verus!
