//! What muxing needs to know of the encoder that made a stream.

use vstd::prelude::*;

verus! {

/// The facts of a mono or stereo encoder that a stream header records.
#[derive(Debug, Clone, Copy, PartialEq, Eq, Structural)]
pub struct EncoderInfo {
    /// Channels it codes, 1 or 2.
    pub channels: u8,
    /// The rate it runs at.
    pub sample_rate: i32,
    /// Its algorithmic delay, in samples at that rate.
    pub lookahead: u32,
}

/// How the channels of a multistream encoder map to its streams.
#[derive(Debug, Clone, PartialEq, Eq)]
pub struct ChannelLayout {
    /// Channels in the decoded stream.
    pub nb_channels: usize,
    /// Opus streams in a packet.
    pub nb_streams: usize,
    /// How many of those streams are coupled pairs.
    pub nb_coupled_streams: usize,
    /// Which decoded channel feeds each output channel.
    pub mapping: Vec<u8>,
    /// The channel mapping family.
    pub mapping_family: u8,
}

/// The facts of a multistream encoder that a stream header records.
#[derive(Debug, Clone, PartialEq, Eq)]
pub struct MultistreamInfo {
    /// The layout it codes.
    pub layout: ChannelLayout,
    /// Its first stream encoder.
    pub first_stream: EncoderInfo,
}

} // verus!
