//! Encoder and decoder configuration types.

use vstd::prelude::*;

verus! {

/// What the encoder is being asked to optimise for, fixed when it is created.
#[derive(Debug, Clone, Copy, PartialEq, Eq, Structural)]
pub enum Application {
    /// Speech over a network.
    Voip,
    /// General audio, and the right default when the content is unknown.
    Audio,
    /// Lowest achievable latency, at a cost in quality.
    RestrictedLowDelay,
}

impl Application {
    /// The `OPUS_APPLICATION_*` value a C caller knows this setting by.
    pub fn code(self) -> (v: i32)
        ensures
            v == match self {
                Application::Voip => 2048i32,
                Application::Audio => 2049i32,
                Application::RestrictedLowDelay => 2051i32,
            },
    {
        match self {
            Application::Voip => 2048,
            Application::Audio => 2049,
            Application::RestrictedLowDelay => 2051,
        }
    }
}

/// How the encoder is allowed to vary the size of each packet.
#[derive(Debug, Clone, Copy, PartialEq, Eq, Structural)]
pub enum RateControl {
    /// Spend what each frame is worth, with no reservoir.
    Vbr,
    /// Vary per packet, but hold a reservoir so any short window stays near the
    /// target.
    ConstrainedVbr,
    /// One size for every packet.
    Cbr,
}

impl RateControl {
    /// Whether this is [`Cbr`](Self::Cbr).
    pub fn is_cbr(self) -> (b: bool)
        ensures
            b == (self == RateControl::Cbr),
    {
        matches!(self, RateControl::Cbr)
    }
}

/// A hint that biases mode selection toward speech or music.
#[derive(Debug, Clone, Copy, PartialEq, Eq, Structural)]
pub enum Signal {
    /// Speech: code it as SILK, or as hybrid where the rate allows.
    Voice,
    /// Music: code it as CELT.
    Music,
}

/// The audio bandwidth a packet carries, which is what Opus varies instead of
/// the sample rate.
#[derive(Debug, Clone, Copy, PartialEq, Eq, Structural)]
pub enum Bandwidth {
    /// 4 kHz of audio, as an 8 kHz sample rate would carry.
    Narrowband,
    /// 6 kHz of audio (12 kHz sampling).
    Mediumband,
    /// 8 kHz of audio (16 kHz sampling), the usual top of speech coding.
    Wideband,
    /// 12 kHz of audio (24 kHz sampling). Hybrid and CELT only.
    Superwideband,
    /// 20 kHz of audio (48 kHz sampling), the full audible range.
    Fullband,
}

impl Bandwidth {
    /// Position in the order narrowband to fullband, from 0.
    pub open spec fn spec_rank(self) -> int {
        match self {
            Bandwidth::Narrowband => 0,
            Bandwidth::Mediumband => 1,
            Bandwidth::Wideband => 2,
            Bandwidth::Superwideband => 3,
            Bandwidth::Fullband => 4,
        }
    }

    /// The `OPUS_BANDWIDTH_*` value a C caller knows this bandwidth by.
    pub fn code(self) -> (v: i32)
        ensures
            v == 1101 + self.spec_rank(),
    {
        match self {
            Bandwidth::Narrowband => 1101,
            Bandwidth::Mediumband => 1102,
            Bandwidth::Wideband => 1103,
            Bandwidth::Superwideband => 1104,
            Bandwidth::Fullband => 1105,
        }
    }
}

/// Which coding layers a packet actually used.
#[derive(Debug, Clone, Copy, PartialEq, Eq, Structural)]
pub enum OpusMode {
    /// SILK alone: speech, up to wideband, 10 ms and longer.
    SilkOnly,
    /// SILK below and CELT above: speech at super-wideband or fullband.
    Hybrid,
    /// CELT alone: music, any bandwidth, and every frame shorter than 10 ms.
    CeltOnly,
}

} // verus!
