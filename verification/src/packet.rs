//! Reading an Opus packet's shape without decoding it.
//!
//! Every Opus packet starts with a TOC byte describing its mode, bandwidth,
//! frame duration and channel count, followed by a frame-packing code
//! (RFC 6716 section 3.1). That is enough to answer the questions a muxer or a
//! remuxer needs to ask before handing the packet to a decoder.

use vstd::prelude::*;

use crate::config::{Bandwidth, OpusMode};
use crate::error::{Error, Result};
use crate::toc::{
    bandwidth_from_toc, channels_from_toc, config_bandwidth, config_mode, config_quarters,
    lemma_toc_bits, mode_from_toc, toc_code, toc_config, toc_stereo,
};

verus! {

/// The most samples per channel any Opus packet can decode to, at any rate.
///
/// A packet carries at most 120 ms (RFC 6716 section 3.2), which is this many
/// samples at 48 kHz and fewer at every lower rate.
pub const MAX_PACKET_SAMPLES: usize = 5760;

/// Whether Opus can code at this rate.
pub open spec fn is_opus_rate(rate: int) -> bool {
    rate == 8_000 || rate == 12_000 || rate == 16_000 || rate == 24_000 || rate == 48_000
}

/// Samples per channel in one frame of a packet that opens with `toc`.
pub open spec fn toc_samples(toc: u8, rate: int) -> int {
    rate * config_quarters(toc_config(toc)) / 400
}

/// The number of frames a packet declares, or why it declares none.
pub open spec fn spec_frame_count(packet: Seq<u8>) -> Result<usize> {
    if packet.len() == 0 {
        Err(Error::InvalidPacket("packet is empty"))
    } else if toc_code(packet[0]) == 0 {
        Ok(1)
    } else if toc_code(packet[0]) < 3 {
        Ok(2)
    } else if packet.len() < 2 {
        Err(Error::InvalidPacket("code 3 packet has no frame count"))
    } else if packet[1] % 64 == 0 {
        Err(Error::InvalidPacket("code 3 packet declares zero frames"))
    } else {
        Ok((packet[1] % 64) as usize)
    }
}

/// The samples per channel a packet decodes to, or why it does not say.
pub open spec fn spec_samples(packet: Seq<u8>, rate: int) -> Result<usize> {
    if !is_opus_rate(rate) {
        Err(Error::InvalidArgument("sample rate must be 8, 12, 16, 24 or 48 kHz"))
    } else {
        match spec_frame_count(packet) {
            Err(e) => Err(e),
            Ok(n) => {
                let total = n * toc_samples(packet[0], rate);
                if 48_000 * total > 5760 * rate {
                    Err(Error::InvalidPacket("packet claims more than 120 ms"))
                } else {
                    Ok(total as usize)
                }
            },
        }
    }
}

/// Samples per channel in one frame at `fs`, read off the TOC byte.
pub fn toc_samples_per_frame(toc: u8, fs: i32) -> (n: i32)
    requires
        0 <= fs <= i32::MAX / 60,
    ensures
        n == toc_samples(toc, fs as int),
        0 <= n <= 60 * fs,
{
    proof {
        lemma_toc_bits(toc);
    }
    let quarters: i32 = if toc & 0x80 != 0 {
        let a: u8 = (toc >> 3) & 0x3;
        if a == 0 {
            1
        } else if a == 1 {
            2
        } else if a == 2 {
            4
        } else {
            8
        }
    } else if toc & 0x60 == 0x60 {
        if toc & 0x08 != 0 {
            8
        } else {
            4
        }
    } else {
        let a: u8 = (toc >> 3) & 0x3;
        if a == 0 {
            4
        } else if a == 1 {
            8
        } else if a == 2 {
            16
        } else {
            24
        }
    };
    assert(0 <= fs * quarters <= 24 * fs) by (nonlinear_arith)
        requires
            0 <= fs,
            1 <= quarters <= 24,
    ;
    fs * quarters / 400
}

/// Reject a rate Opus cannot decode at, so a buffer is never sized from one.
pub fn check_rate(sample_rate: i32) -> (r: Result<()>)
    ensures
        r == if is_opus_rate(sample_rate as int) {
            Ok(())
        } else {
            Err(Error::InvalidArgument("sample rate must be 8, 12, 16, 24 or 48 kHz"))
        },
{
    if sample_rate == 8_000 || sample_rate == 12_000 || sample_rate == 16_000 || sample_rate
        == 24_000 || sample_rate == 48_000 {
        Ok(())
    } else {
        Err(Error::InvalidArgument("sample rate must be 8, 12, 16, 24 or 48 kHz"))
    }
}

/// [`MAX_PACKET_SAMPLES`] scaled to `sample_rate`. Every Opus rate divides
/// 48 000, so this is exact.
fn max_samples(sample_rate: i32) -> (n: usize)
    requires
        is_opus_rate(sample_rate as int),
    ensures
        48_000 * n == 5760 * sample_rate,
        n <= MAX_PACKET_SAMPLES,
{
    MAX_PACKET_SAMPLES * sample_rate as usize / 48_000
}

/// How many frames the packet holds (RFC 6716 section 3.2, frame-packing codes
/// 0 to 3).
pub fn frame_count(packet: &[u8]) -> (r: Result<usize>)
    ensures
        r == spec_frame_count(packet@),
        r matches Ok(n) ==> 1 <= n <= 63,
{
    if packet.len() == 0 {
        return Err(Error::InvalidPacket("packet is empty"));
    }
    let toc: u8 = packet[0];
    proof {
        lemma_toc_bits(toc);
    }
    let code: u8 = toc & 0x03;
    if code == 0 {
        return Ok(1);
    }
    if code == 1 || code == 2 {
        return Ok(2);
    }
    if packet.len() < 2 {
        return Err(Error::InvalidPacket("code 3 packet has no frame count"));
    }
    let b: u8 = packet[1];
    assert(b & 0x3F == b % 64) by (bit_vector);
    let n: u8 = b & 0x3F;
    if n == 0 {
        return Err(Error::InvalidPacket("code 3 packet declares zero frames"));
    }
    Ok(n as usize)
}

/// Samples per channel this packet decodes to at `sample_rate`, which must be
/// one Opus supports. A stereo packet still reports the number of sample
/// frames.
pub fn samples(packet: &[u8], sample_rate: i32) -> (r: Result<usize>)
    ensures
        r == spec_samples(packet@, sample_rate as int),
        r matches Ok(n) ==> n <= MAX_PACKET_SAMPLES,
{
    match check_rate(sample_rate) {
        Err(e) => {
            return Err(e);
        },
        Ok(_) => {},
    }
    let count: usize = match frame_count(packet) {
        Err(e) => {
            return Err(e);
        },
        Ok(n) => n,
    };
    let per: i32 = toc_samples_per_frame(packet[0], sample_rate);
    assert(0 <= count * per <= 63 * (60 * 48_000)) by (nonlinear_arith)
        requires
            count <= 63,
            0 <= per <= 60 * 48_000,
    ;
    let n: usize = count * per as usize;
    if n > max_samples(sample_rate) {
        return Err(Error::InvalidPacket("packet claims more than 120 ms"));
    }
    Ok(n)
}

/// Samples per channel in one frame of this packet at `sample_rate`.
///
/// All frames of a packet have the same duration, so this times [`frame_count`]
/// is [`samples`].
pub fn samples_per_frame(packet: &[u8], sample_rate: i32) -> (r: Result<usize>)
    ensures
        r == if !is_opus_rate(sample_rate as int) {
            Err(Error::InvalidArgument("sample rate must be 8, 12, 16, 24 or 48 kHz"))
        } else if packet@.len() == 0 {
            Err(Error::InvalidPacket("packet is empty"))
        } else {
            Ok(toc_samples(packet@[0], sample_rate as int) as usize)
        },
{
    match check_rate(sample_rate) {
        Err(e) => {
            return Err(e);
        },
        Ok(_) => {},
    }
    if packet.len() == 0 {
        return Err(Error::InvalidPacket("packet is empty"));
    }
    Ok(toc_samples_per_frame(packet[0], sample_rate) as usize)
}

/// Samples per channel at 48 kHz, the unit Ogg granule positions use.
pub fn samples_48k(packet: &[u8]) -> (r: Result<usize>)
    ensures
        r == spec_samples(packet@, 48_000),
        r matches Ok(n) ==> n <= MAX_PACKET_SAMPLES,
{
    samples(packet, 48_000)
}

/// Which coding layers the packet used (RFC 6716 section 3.1).
///
/// A redundant copy of the previous frame only exists in SILK and hybrid
/// packets, so a caller recovering from loss can check first.
pub fn mode(packet: &[u8]) -> (r: Result<OpusMode>)
    ensures
        r == if packet@.len() == 0 {
            Err(Error::InvalidPacket("packet is empty"))
        } else {
            Ok(config_mode(toc_config(packet@[0])))
        },
{
    if packet.len() == 0 {
        return Err(Error::InvalidPacket("packet is empty"));
    }
    Ok(mode_from_toc(packet[0]))
}

/// The audio bandwidth the packet carries.
///
/// This is what the encoder chose to spend its bits on, not the rate a decoder
/// will produce: a narrowband packet decoded at 48 kHz still comes back at
/// 48 kHz, with nothing above 4 kHz in it.
pub fn bandwidth(packet: &[u8]) -> (r: Result<Bandwidth>)
    ensures
        r == if packet@.len() == 0 {
            Err(Error::InvalidPacket("packet is empty"))
        } else {
            Ok(config_bandwidth(toc_config(packet@[0])))
        },
{
    if packet.len() == 0 {
        return Err(Error::InvalidPacket("packet is empty"));
    }
    Ok(bandwidth_from_toc(packet[0]))
}

/// Channels the packet carries: 1 or 2. A stream may alternate between them.
pub fn channels(packet: &[u8]) -> (r: Result<usize>)
    ensures
        r == if packet@.len() == 0 {
            Err(Error::InvalidPacket("packet is empty"))
        } else if toc_stereo(packet@[0]) {
            Ok(2usize)
        } else {
            Ok(1usize)
        },
{
    if packet.len() == 0 {
        return Err(Error::InvalidPacket("packet is empty"));
    }
    Ok(channels_from_toc(packet[0]))
}

/// A packet's duration is its frame count times the duration of one frame, and
/// never more than 120 ms, so it holds one to forty-eight frames and no more
/// samples than the largest buffer.
pub proof fn law_samples_are_frames_times_duration(packet: Seq<u8>, rate: int)
    requires
        is_opus_rate(rate),
        spec_samples(packet, rate) is Ok,
    ensures
        spec_frame_count(packet) is Ok,
        spec_samples(packet, rate)->Ok_0 == spec_frame_count(packet)->Ok_0 * toc_samples(
            packet[0],
            rate,
        ),
        1000 * spec_samples(packet, rate)->Ok_0 <= 120 * rate,
        1 <= spec_frame_count(packet)->Ok_0 <= 48,
        spec_samples(packet, rate)->Ok_0 <= MAX_PACKET_SAMPLES,
{
    let n = spec_frame_count(packet)->Ok_0;
    let per = toc_samples(packet[0], rate);
    assert(400 * per >= rate);
    if n > 48 {
        assert(400 * (n * per) >= 49 * rate) by (nonlinear_arith)
            requires
                n >= 49,
                400 * per >= rate,
                rate > 0,
        ;
    }
    assert(0 <= toc_samples(packet[0], rate) <= rate);
    assert(0 <= n * toc_samples(packet[0], rate)) by (nonlinear_arith)
        requires
            0 <= n,
            0 <= toc_samples(packet[0], rate),
    ;
}

/// A packet lasts as long at every rate: its sample count scales with the rate.
pub proof fn law_samples_scale_with_rate(packet: Seq<u8>, a: int, b: int)
    requires
        is_opus_rate(a),
        is_opus_rate(b),
    ensures
        spec_samples(packet, a) is Ok <==> spec_samples(packet, b) is Ok,
        spec_samples(packet, a) is Ok ==> spec_samples(packet, a)->Ok_0 * b == spec_samples(
            packet,
            b,
        )->Ok_0 * a,
{
    if spec_frame_count(packet) is Ok {
        let n = spec_frame_count(packet)->Ok_0;
        let q = config_quarters(toc_config(packet[0]));
        assert(toc_samples(packet[0], a) * 400 == a * q);
        assert(toc_samples(packet[0], b) * 400 == b * q);
        let x = toc_samples(packet[0], a);
        let y = toc_samples(packet[0], b);
        assert(n * x >= 0 && n * y >= 0) by (nonlinear_arith)
            requires
                n >= 0,
                x >= 0,
                y >= 0,
        ;
        assert(400 * (n * x) == (n * q) * a) by (nonlinear_arith)
            requires
                x * 400 == a * q,
        ;
        assert(400 * (n * y) == (n * q) * b) by (nonlinear_arith)
            requires
                y * 400 == b * q,
        ;
        assert((n * x) * b == (n * y) * a) by (nonlinear_arith)
            requires
                400 * (n * x) == (n * q) * a,
                400 * (n * y) == (n * q) * b,
        ;
    }
}

} // verus!
