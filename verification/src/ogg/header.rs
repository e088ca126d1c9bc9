//! The identification header of an Ogg Opus stream (RFC 7845 section 5.1).

use vstd::prelude::*;

use super::endian::{
    law_le_bytes_read_back, le16_at, le32_at, le_bytes, le_value, lemma_le_bytes_len,
    lemma_le_ranges, push_le16, push_le32,
};
use crate::decoder::{creation_error, OpusDecoder};
use crate::encoder_info::{ChannelLayout, EncoderInfo, MultistreamInfo};
use crate::error::{Error, Result};

verus! {

/// Opus is always framed at 48 kHz in Ogg, whatever rate the encoder ran at:
/// granule positions and pre-skip are counted in 48 kHz samples.
pub const GRANULE_RATE: u32 = 48_000;

/// The identification header.
///
/// This is the first packet of the stream and must sit alone on the first page.
#[derive(Debug, Clone, PartialEq, Eq)]
pub struct OpusHead {
    /// Channels in the decoded stream, 1 to 255.
    pub channel_count: u8,
    /// Samples at 48 kHz to discard from the decoder's output: the encoder's
    /// algorithmic delay.
    pub pre_skip: u16,
    /// Sample rate of the original input, purely informational. 0 means
    /// unspecified.
    pub input_sample_rate: u32,
    /// Gain to apply on playback, in Q7.8 dB. 0 is unity.
    pub output_gain_q8: i16,
    /// Channel mapping family: 0 for mono and stereo, 1 for Vorbis surround
    /// order, 255 for discrete channels.
    pub mapping_family: u8,
    /// Opus streams in the packet. Always 1 for family 0.
    pub stream_count: u8,
    /// How many of those streams are coupled pairs.
    pub coupled_count: u8,
    /// Which decoded channel feeds each output channel. Empty for family 0,
    /// where the mapping is implicit.
    pub channel_mapping: Vec<u8>,
}

/// An identification header as a value.
pub struct HeadView {
    /// See [`OpusHead::channel_count`].
    pub channel_count: u8,
    /// See [`OpusHead::pre_skip`].
    pub pre_skip: u16,
    /// See [`OpusHead::input_sample_rate`].
    pub input_sample_rate: u32,
    /// See [`OpusHead::output_gain_q8`].
    pub output_gain_q8: i16,
    /// See [`OpusHead::mapping_family`].
    pub mapping_family: u8,
    /// See [`OpusHead::stream_count`].
    pub stream_count: u8,
    /// See [`OpusHead::coupled_count`].
    pub coupled_count: u8,
    /// See [`OpusHead::channel_mapping`].
    pub channel_mapping: Seq<u8>,
}

impl View for OpusHead {
    type V = HeadView;

    open spec fn view(&self) -> HeadView {
        HeadView {
            channel_count: self.channel_count,
            pre_skip: self.pre_skip,
            input_sample_rate: self.input_sample_rate,
            output_gain_q8: self.output_gain_q8,
            mapping_family: self.mapping_family,
            stream_count: self.stream_count,
            coupled_count: self.coupled_count,
            channel_mapping: self.channel_mapping@,
        }
    }
}

/// The bytes the header opens with.
pub open spec fn head_magic() -> Seq<u8> {
    seq![0x4fu8, 0x70, 0x75, 0x73, 0x48, 0x65, 0x61, 0x64]
}

/// The unsigned number a gain is stored as.
pub open spec fn gain_unsigned(g: i16) -> int {
    if g >= 0 {
        g as int
    } else {
        g + 0x1_0000
    }
}

/// The gain an unsigned number stands for.
pub open spec fn gain_signed(u: int) -> i16 {
    if u < 0x8000 {
        u as i16
    } else {
        (u - 0x1_0000) as i16
    }
}

/// Whether every output channel names a decoded channel that exists, or 255 for
/// silence.
pub open spec fn mapping_exists(mapping: Seq<u8>, decoded: int) -> bool {
    forall|i: int| 0 <= i < mapping.len() ==> #[trigger] mapping[i] == 255 || mapping[i] < decoded
}

/// Whether RFC 7845 allows the header.
pub open spec fn head_valid(h: HeadView) -> bool {
    &&& h.channel_count >= 1
    &&& if h.mapping_family == 0 {
        &&& h.channel_count <= 2
        &&& h.stream_count == 1
        &&& h.coupled_count == h.channel_count - 1
        &&& h.channel_mapping.len() == 0
    } else {
        &&& h.stream_count >= 1
        &&& h.coupled_count <= h.stream_count
        &&& h.channel_mapping.len() == h.channel_count
        &&& mapping_exists(h.channel_mapping, h.stream_count + h.coupled_count)
    }
}

/// The header on the wire.
pub open spec fn head_bytes(h: HeadView) -> Seq<u8> {
    let fixed = head_magic() + seq![1u8, h.channel_count] + le_bytes(h.pre_skip as int, 2)
        + le_bytes(h.input_sample_rate as int, 4) + le_bytes(gain_unsigned(h.output_gain_q8), 2)
        + seq![h.mapping_family];
    if h.mapping_family == 0 {
        fixed
    } else {
        fixed + seq![h.stream_count, h.coupled_count] + h.channel_mapping
    }
}

/// The header a packet holds, or why it holds none.
pub open spec fn spec_parse_head(data: Seq<u8>) -> Result<HeadView> {
    if data.len() < 19 || data.take(8) != head_magic() {
        Err(Error::InvalidStream("not an OpusHead packet"))
    } else if data[8] >= 16 {
        Err(Error::InvalidStream("unsupported OpusHead version"))
    } else if data[9] == 0 {
        Err(Error::InvalidStream("OpusHead declares zero channels"))
    } else {
        let base = HeadView {
            channel_count: data[9],
            pre_skip: le_value(data.subrange(10, 12)) as u16,
            input_sample_rate: le_value(data.subrange(12, 16)) as u32,
            output_gain_q8: gain_signed(le_value(data.subrange(16, 18))),
            mapping_family: data[18],
            stream_count: 1,
            coupled_count: (data[9] - 1) as u8,
            channel_mapping: Seq::empty(),
        };
        if data[18] == 0 {
            if data[9] > 2 {
                Err(Error::InvalidStream("mapping family 0 allows at most 2 channels"))
            } else {
                Ok(base)
            }
        } else if data.len() < 21 + data[9] {
            Err(Error::InvalidStream("OpusHead channel mapping is truncated"))
        } else if data[19] == 0 {
            Err(Error::InvalidStream("OpusHead declares zero streams"))
        } else if data[20] > data[19] {
            Err(Error::InvalidStream("OpusHead couples more streams than it declares"))
        } else if !mapping_exists(data.subrange(21, 21 + data[9]), data[19] + data[20]) {
            Err(
                Error::InvalidStream(
                    "OpusHead channel mapping references a stream that does not exist",
                ),
            )
        } else {
            Ok(
                HeadView {
                    stream_count: data[19],
                    coupled_count: data[20],
                    channel_mapping: data.subrange(21, 21 + data[9]),
                    ..base
                },
            )
        }
    }
}

/// An encoder's lookahead in 48 kHz samples, held to what the field can store.
pub open spec fn spec_pre_skip(lookahead: int, sample_rate: int) -> u16 {
    let scaled = lookahead * 48_000 / sample_rate;
    if scaled < 0xffff {
        scaled as u16
    } else {
        0xffff
    }
}

/// An encoder's lookahead, expressed in the 48 kHz samples
/// [`OpusHead::pre_skip`] is counted in.
fn pre_skip_48k(lookahead: u32, sample_rate: i32) -> (p: u16)
    requires
        sample_rate > 0,
    ensures
        p == spec_pre_skip(lookahead as int, sample_rate as int),
{
    let scaled: u64 = lookahead as u64 * 48_000 / sample_rate as u64;
    if scaled < 0xffff {
        scaled as u16
    } else {
        0xffff
    }
}

fn gain_to_unsigned(g: i16) -> (u: u16)
    ensures
        u == gain_unsigned(g),
{
    if g >= 0 {
        g as u16
    } else {
        (g as i32 + 0x1_0000) as u16
    }
}

fn gain_from_unsigned(u: u16) -> (g: i16)
    ensures
        g == gain_signed(u as int),
{
    if u < 0x8000 {
        u as i16
    } else {
        (u as i32 - 0x1_0000) as i16
    }
}

impl OpusHead {
    /// The algorithmic delay at 48 kHz of an encoder for general audio or
    /// speech.
    ///
    /// It is not right for every encoder: a low-delay encoder gives up the 4 ms
    /// the other two spend keeping SILK and CELT aligned. Prefer
    /// [`for_encoder`](Self::for_encoder), which asks the encoder.
    pub const RECOMMENDED_PRE_SKIP: u16 = 312;

    /// A mono or stereo header (mapping family 0) with the recommended
    /// pre-skip.
    pub fn new(channel_count: u8, input_sample_rate: u32) -> (r: Result<Self>)
        ensures
            match r {
                Ok(h) => {
                    &&& 1 <= channel_count <= 2
                    &&& h@ == (HeadView {
                        channel_count,
                        pre_skip: 312,
                        input_sample_rate,
                        output_gain_q8: 0,
                        mapping_family: 0,
                        stream_count: 1,
                        coupled_count: (channel_count - 1) as u8,
                        channel_mapping: Seq::empty(),
                    })
                    &&& head_valid(h@)
                },
                Err(e) => !(1 <= channel_count <= 2) && e == Error::InvalidArgument(
                    "mapping family 0 supports only 1 or 2 channels",
                ),
            },
    {
        if channel_count == 0 || channel_count > 2 {
            return Err(Error::InvalidArgument("mapping family 0 supports only 1 or 2 channels"));
        }
        Ok(
            OpusHead {
                channel_count,
                pre_skip: Self::RECOMMENDED_PRE_SKIP,
                input_sample_rate,
                output_gain_q8: 0,
                mapping_family: 0,
                stream_count: 1,
                coupled_count: channel_count - 1,
                channel_mapping: Vec::new(),
            },
        )
    }

    /// A header describing what `encoder` produces, with the pre-skip taken
    /// from the encoder's own algorithmic delay.
    pub fn for_encoder(encoder: &EncoderInfo, input_sample_rate: u32) -> (h: Self)
        requires
            encoder.channels >= 1,
            encoder.sample_rate > 0,
        ensures
            h@ == (HeadView {
                channel_count: encoder.channels,
                pre_skip: spec_pre_skip(encoder.lookahead as int, encoder.sample_rate as int),
                input_sample_rate,
                output_gain_q8: 0,
                mapping_family: 0,
                stream_count: 1,
                coupled_count: (encoder.channels - 1) as u8,
                channel_mapping: Seq::empty(),
            }),
            encoder.channels <= 2 ==> head_valid(h@),
    {
        OpusHead {
            channel_count: encoder.channels,
            pre_skip: pre_skip_48k(encoder.lookahead, encoder.sample_rate),
            input_sample_rate,
            output_gain_q8: 0,
            mapping_family: 0,
            stream_count: 1,
            coupled_count: encoder.channels - 1,
            channel_mapping: Vec::new(),
        }
    }

    /// A header describing what a multistream `encoder` produces.
    ///
    /// The stream count, the coupled count and the channel mapping come from
    /// the encoder's own layout, so they cannot disagree with what is in the
    /// packets.
    pub fn for_ms_encoder(encoder: &MultistreamInfo, input_sample_rate: u32) -> (h: Self)
        requires
            encoder.first_stream.sample_rate > 0,
        ensures
            h@ == (HeadView {
                pre_skip: spec_pre_skip(
                    encoder.first_stream.lookahead as int,
                    encoder.first_stream.sample_rate as int,
                ),
                ..spec_layout_head(&encoder.layout, input_sample_rate)
            }),
    {
        let mut head = Self::for_layout(&encoder.layout, input_sample_rate);
        head.pre_skip = pre_skip_48k(
            encoder.first_stream.lookahead,
            encoder.first_stream.sample_rate,
        );
        head
    }

    /// A header for a channel `layout`, with the recommended pre-skip.
    pub fn for_layout(layout: &ChannelLayout, input_sample_rate: u32) -> (h: Self)
        ensures
            h@ == spec_layout_head(layout, input_sample_rate),
    {
        let channel_mapping: Vec<u8> = if layout.mapping_family == 0 {
            Vec::new()
        } else {
            vstd::slice::slice_to_vec(layout.mapping.as_slice())
        };
        OpusHead {
            channel_count: (layout.nb_channels % 256) as u8,
            pre_skip: Self::RECOMMENDED_PRE_SKIP,
            input_sample_rate,
            output_gain_q8: 0,
            mapping_family: layout.mapping_family,
            stream_count: (layout.nb_streams % 256) as u8,
            coupled_count: (layout.nb_coupled_streams % 256) as u8,
            channel_mapping,
        }
    }

    /// What a decoder for this stream is configured with, at `sample_rate`.
    ///
    /// The gain travels with it: a stream that carries one plays at the wrong
    /// level if it is missed. Only mapping family 0 has a plain decoder behind
    /// it; a surround stream needs a multistream decoder, and this reports that
    /// rather than quietly decoding one stream of several.
    pub fn decoder(&self, sample_rate: i32) -> (r: Result<OpusDecoder>)
        ensures
            match r {
                Ok(d) => {
                    &&& self.mapping_family == 0
                    &&& creation_error(sample_rate as int, self.channel_count as int) is None
                    &&& d.inv()
                    &&& d.is_fresh(sample_rate as int, self.channel_count as int)
                    &&& d.gain_q8 == self.output_gain_q8
                },
                Err(e) => if self.mapping_family != 0 {
                    e == Error::InvalidArgument(
                        "mapping family is not 0; a surround stream needs an OpusMSDecoder",
                    )
                } else {
                    creation_error(sample_rate as int, self.channel_count as int) == Some(e)
                },
            },
    {
        if self.mapping_family != 0 {
            return Err(
                Error::InvalidArgument(
                    "mapping family is not 0; a surround stream needs an OpusMSDecoder",
                ),
            );
        }
        match OpusDecoder::new(sample_rate, self.channel_count as usize) {
            Err(e) => Err(e),
            Ok(d) => {
                let mut d = d;
                d.gain_q8 = self.output_gain_q8 as i32;
                Ok(d)
            },
        }
    }

    /// Serialize to the wire format.
    pub fn to_packet(&self) -> (v: Vec<u8>)
        ensures
            v@ == head_bytes(self@),
    {
        let mut v: Vec<u8> = Vec::with_capacity(21);
        v.push(0x4f);
        v.push(0x70);
        v.push(0x75);
        v.push(0x73);
        v.push(0x48);
        v.push(0x65);
        v.push(0x61);
        v.push(0x64);
        v.push(1);
        v.push(self.channel_count);
        push_le16(self.pre_skip, &mut v);
        push_le32(self.input_sample_rate, &mut v);
        push_le16(gain_to_unsigned(self.output_gain_q8), &mut v);
        v.push(self.mapping_family);
        if self.mapping_family != 0 {
            v.push(self.stream_count);
            v.push(self.coupled_count);
            v.extend_from_slice(self.channel_mapping.as_slice());
        }
        assert(v@ =~= head_bytes(self@));
        v
    }

    /// Parse the wire format, rejecting anything RFC 7845 forbids.
    ///
    /// The major version is the upper four bits; unknown minor versions are
    /// accepted.
    pub fn parse(data: &[u8]) -> (r: Result<Self>)
        ensures
            match r {
                Ok(h) => spec_parse_head(data@) == Ok::<HeadView, Error>(h@),
                Err(e) => spec_parse_head(data@) == Err::<HeadView, Error>(e),
            },
    {
        if data.len() < 19 || data[0] != 0x4f || data[1] != 0x70 || data[2] != 0x75 || data[3]
            != 0x73 || data[4] != 0x48 || data[5] != 0x65 || data[6] != 0x61 || data[7] != 0x64 {
            proof {
                if data@.len() >= 19 {
                    let t = data@.take(8);
                    assert(t[0] == data@[0] && t[1] == data@[1] && t[2] == data@[2] && t[3]
                        == data@[3] && t[4] == data@[4] && t[5] == data@[5] && t[6] == data@[6]
                        && t[7] == data@[7]);
                }
            }
            return Err(Error::InvalidStream("not an OpusHead packet"));
        }
        assert(data@.take(8) =~= head_magic());
        if data[8] >= 16 {
            return Err(Error::InvalidStream("unsupported OpusHead version"));
        }
        let channel_count: u8 = data[9];
        if channel_count == 0 {
            return Err(Error::InvalidStream("OpusHead declares zero channels"));
        }
        let mapping_family: u8 = data[18];
        let mut stream_count: u8 = 1;
        let mut coupled_count: u8 = channel_count - 1;
        let mut channel_mapping: Vec<u8> = Vec::new();
        if mapping_family == 0 {
            if channel_count > 2 {
                return Err(Error::InvalidStream("mapping family 0 allows at most 2 channels"));
            }
        } else {
            let need: usize = 21 + channel_count as usize;
            if data.len() < need {
                return Err(Error::InvalidStream("OpusHead channel mapping is truncated"));
            }
            stream_count = data[19];
            coupled_count = data[20];
            if stream_count == 0 {
                return Err(Error::InvalidStream("OpusHead declares zero streams"));
            }
            if coupled_count > stream_count {
                return Err(Error::InvalidStream("OpusHead couples more streams than it declares"));
            }
            let decoded: u16 = stream_count as u16 + coupled_count as u16;
            let mapping = vstd::slice::slice_subrange(data, 21, need);
            let mut i: usize = 0;
            while i < mapping.len()
                invariant
                    i <= mapping@.len(),
                    forall|j: int|
                        0 <= j < i ==> #[trigger] mapping@[j] == 255 || mapping@[j] < decoded,
                    mapping@ == data@.subrange(21, 21 + data@[9]),
                    decoded == data@[19] + data@[20],
                    mapping_exists(mapping@, decoded as int) || spec_parse_head(data@) == Err::<
                        HeadView,
                        Error,
                    >(
                        Error::InvalidStream(
                            "OpusHead channel mapping references a stream that does not exist",
                        ),
                    ),
                decreases mapping@.len() - i,
            {
                if mapping[i] != 255 && mapping[i] as u16 >= decoded {
                    return Err(
                        Error::InvalidStream(
                            "OpusHead channel mapping references a stream that does not exist",
                        ),
                    );
                }
                i += 1;
            }
            channel_mapping = vstd::slice::slice_to_vec(mapping);
        }
        let h = OpusHead {
            channel_count,
            pre_skip: le16_at(data, 10),
            input_sample_rate: le32_at(data, 12),
            output_gain_q8: gain_from_unsigned(le16_at(data, 16)),
            mapping_family,
            stream_count,
            coupled_count,
            channel_mapping,
        };
        Ok(h)
    }
}

/// The header for a layout.
pub open spec fn spec_layout_head(layout: &ChannelLayout, input_sample_rate: u32) -> HeadView {
    HeadView {
        channel_count: (layout.nb_channels % 256) as u8,
        pre_skip: 312,
        input_sample_rate,
        output_gain_q8: 0,
        mapping_family: layout.mapping_family,
        stream_count: (layout.nb_streams % 256) as u8,
        coupled_count: (layout.nb_coupled_streams % 256) as u8,
        channel_mapping: if layout.mapping_family == 0 {
            Seq::empty()
        } else {
            layout.mapping@
        },
    }
}

/// A header that RFC 7845 allows reads back as it was written, also from a packet
/// of another minor version, and whatever a later version appends.
pub proof fn law_head_round_trips(h: HeadView, version: u8, rest: Seq<u8>)
    requires
        head_valid(h),
        version < 16,
    ensures
        spec_parse_head(head_bytes(h)) == Ok::<HeadView, Error>(h),
        spec_parse_head(head_bytes(h).update(8, version) + rest) == Ok::<HeadView, Error>(h),
{
    lemma_head_reads_back(h, 1, Seq::empty());
    lemma_head_reads_back(h, version, rest);
    assert(head_bytes(h).update(8, 1) + Seq::<u8>::empty() =~= head_bytes(h));
}

proof fn lemma_head_reads_back(h: HeadView, version: u8, rest: Seq<u8>)
    requires
        head_valid(h),
        version < 16,
    ensures
        spec_parse_head(head_bytes(h).update(8, version) + rest) == Ok::<HeadView, Error>(h),
{
    let data = head_bytes(h).update(8, version) + rest;
    let g: int = gain_unsigned(h.output_gain_q8);
    lemma_le_ranges();
    lemma_le_bytes_len(h.pre_skip as int, 2);
    lemma_le_bytes_len(h.input_sample_rate as int, 4);
    lemma_le_bytes_len(g, 2);
    law_le_bytes_read_back(h.pre_skip as int, 2);
    law_le_bytes_read_back(h.input_sample_rate as int, 4);
    law_le_bytes_read_back(g, 2);
    assert(data.take(8) =~= head_magic());
    assert(data.subrange(10, 12) =~= le_bytes(h.pre_skip as int, 2));
    assert(data.subrange(12, 16) =~= le_bytes(h.input_sample_rate as int, 4));
    assert(data.subrange(16, 18) =~= le_bytes(g, 2));
    assert(gain_signed(g) == h.output_gain_q8);
    if h.mapping_family == 0 {
        assert(h.channel_mapping =~= Seq::<u8>::empty());
    } else {
        assert(data.subrange(21, 21 + h.channel_count) =~= h.channel_mapping);
    }
}

/// Parsing accepts only headers that RFC 7845 allows.
pub proof fn law_parsed_heads_are_valid(data: Seq<u8>)
    requires
        spec_parse_head(data) is Ok,
    ensures
        head_valid(spec_parse_head(data)->Ok_0),
{
}

} // verus!
