//! The table-of-contents byte that opens every Opus packet (RFC 6716 section 3.1).
//!
//! The byte reads `config * 8 + stereo * 4 + code`: the configuration number
//! fixes mode, audio bandwidth and frame duration, the next bit the channel
//! count, and the code how the packet packs its frames.

use vstd::prelude::*;

use crate::config::{Bandwidth, OpusMode};

verus! {

/// The configuration number, 0 to 31.
pub open spec fn toc_config(toc: u8) -> int {
    toc as int / 8
}

/// Whether the stereo flag is set.
pub open spec fn toc_stereo(toc: u8) -> bool {
    (toc as int / 4) % 2 == 1
}

/// The frame-packing code, 0 to 3.
pub open spec fn toc_code(toc: u8) -> int {
    toc as int % 4
}

/// The bits of a TOC byte, read one by one, are its three numeric fields.
pub proof fn lemma_toc_bits(toc: u8)
    ensures
        toc & 0x03 == toc % 4,
        (toc >> 3) & 0x03 == (toc / 8) % 4,
        (toc >> 3) & 0x01 == (toc / 8) % 2,
        (toc >> 4) & 0x01 == (toc / 16) % 2,
        (toc >> 5) & 0x03 == (toc / 32) % 4,
        (toc & 0x80 != 0) == (toc >= 128),
        (toc & 0x60 == 0x60) == ((toc / 32) % 4 == 3),
        (toc & 0x08 != 0) == ((toc / 8) % 2 == 1),
        (toc & 0x04 != 0) == ((toc / 4) % 2 == 1),
        toc & 0xfc == toc - toc % 4,
{
    assert(toc & 0x03 == toc % 4) by (bit_vector);
    assert((toc >> 3) & 0x03 == (toc / 8) % 4 && (toc >> 3) & 0x01 == (toc / 8) % 2 && (toc >> 4)
        & 0x01 == (toc / 16) % 2 && (toc >> 5) & 0x03 == (toc / 32) % 4) by (bit_vector);
    assert((toc & 0x80 != 0) == (toc >= 128) && (toc & 0x60 == 0x60) == ((toc / 32) % 4 == 3) && (
    toc & 0x08 != 0) == ((toc / 8) % 2 == 1) && (toc & 0x04 != 0) == ((toc / 4) % 2 == 1))
        by (bit_vector);
    assert(toc & 0xfc == toc - toc % 4) by (bit_vector);
}

/// The mode a configuration number stands for.
pub open spec fn config_mode(config: int) -> OpusMode {
    if config < 12 {
        OpusMode::SilkOnly
    } else if config < 16 {
        OpusMode::Hybrid
    } else {
        OpusMode::CeltOnly
    }
}

/// The audio bandwidth a configuration number stands for.
pub open spec fn config_bandwidth(config: int) -> Bandwidth {
    if config < 4 {
        Bandwidth::Narrowband
    } else if config < 8 {
        Bandwidth::Mediumband
    } else if config < 12 {
        Bandwidth::Wideband
    } else if config < 14 {
        Bandwidth::Superwideband
    } else if config < 16 {
        Bandwidth::Fullband
    } else if config < 20 {
        Bandwidth::Narrowband
    } else if config < 24 {
        Bandwidth::Wideband
    } else if config < 28 {
        Bandwidth::Superwideband
    } else {
        Bandwidth::Fullband
    }
}

/// The frame duration a configuration number stands for, in units of 2.5 ms.
pub open spec fn config_quarters(config: int) -> int {
    if config < 12 {
        if config % 4 == 0 {
            4
        } else if config % 4 == 1 {
            8
        } else if config % 4 == 2 {
            16
        } else {
            24
        }
    } else if config < 16 {
        if config % 2 == 0 {
            4
        } else {
            8
        }
    } else {
        if config % 4 == 0 {
            1
        } else if config % 4 == 1 {
            2
        } else if config % 4 == 2 {
            4
        } else {
            8
        }
    }
}

/// Whether `frame_size` samples at `sampling_rate` are 2.5, 5, 10, 20, 40 or
/// 60 ms.
pub open spec fn is_legal_duration(sampling_rate: int, frame_size: int) -> bool {
    ||| 400 * frame_size == sampling_rate
    ||| 200 * frame_size == sampling_rate
    ||| 100 * frame_size == sampling_rate
    ||| 50 * frame_size == sampling_rate
    ||| 25 * frame_size == sampling_rate
    ||| 50 * frame_size == 3 * sampling_rate
}

/// The frame duration as frames per second, truncated; `None` where
/// `frame_size` is not a duration RFC 6716 section 2.1.4 defines.
///
/// A rate above the bound would overflow the products the durations are tested
/// with; every Opus rate is far below it.
pub fn frame_rate_from_params(sampling_rate: i32, frame_size: usize) -> (r: Option<i32>)
    requires
        sampling_rate <= i32::MAX / 400,
    ensures
        r == if 0 < frame_size && is_legal_duration(sampling_rate as int, frame_size as int) {
            Some((sampling_rate as int / frame_size as int) as i32)
        } else {
            None
        },
{
    if frame_size > 0x7fff_ffff {
        return None;
    }
    let frame_size: i32 = frame_size as i32;
    if frame_size <= 0 || frame_size > sampling_rate {
        return None;
    }
    let legal = 400 * frame_size == sampling_rate || 200 * frame_size == sampling_rate || 100
        * frame_size == sampling_rate || 50 * frame_size == sampling_rate || 25 * frame_size
        == sampling_rate || 50 * frame_size == 3 * sampling_rate;
    if !legal {
        return None;
    }
    Some(sampling_rate / frame_size)
}

/// How often `rate` must be doubled to reach 400.
pub open spec fn doublings_to_400(rate: int) -> int
    decreases (if rate <= 0 || rate >= 400 { 0 } else { 400 - rate }),
{
    if rate <= 0 || rate >= 400 {
        0
    } else {
        1 + doublings_to_400(2 * rate)
    }
}

/// The configuration number for a mode, bandwidth and frame rate.
pub open spec fn encode_config(mode: OpusMode, frame_rate: int, bandwidth: Bandwidth) -> int {
    let period = doublings_to_400(frame_rate);
    match mode {
        OpusMode::SilkOnly => bandwidth.spec_rank() * 4 + (period - 2),
        OpusMode::CeltOnly => 16 + (if bandwidth.spec_rank() > 1 {
            bandwidth.spec_rank() - 1
        } else {
            0
        }) * 4 + period,
        OpusMode::Hybrid => (if bandwidth == Bandwidth::Superwideband {
            12int
        } else {
            14int
        }) + (if frame_rate >= 100 {
            0int
        } else {
            1int
        }),
    }
}

/// The TOC byte, with frame-packing code 0, for one coded frame.
///
/// The mode must be able to carry the duration: SILK codes 10 ms and longer up
/// to wideband, CELT 20 ms and shorter.
pub fn gen_toc(mode: OpusMode, frame_rate: i32, bandwidth: Bandwidth, channels: usize) -> (toc: u8)
    requires
        frame_rate >= 13,
        mode == OpusMode::SilkOnly ==> frame_rate <= 100 && bandwidth.spec_rank() <= 2,
        mode == OpusMode::CeltOnly ==> 50 <= frame_rate <= 400,
    ensures
        toc == 8 * encode_config(mode, frame_rate as int, bandwidth) + (if channels == 2 {
            4int
        } else {
            0int
        }),
        toc_config(toc) == encode_config(mode, frame_rate as int, bandwidth),
        toc_stereo(toc) == (channels == 2),
        toc_code(toc) == 0,
{
    let mut rate: i32 = frame_rate;
    let mut period: i32 = 0;
    proof {
        reveal_with_fuel(doublings_to_400, 6);
    }
    while rate < 400
        invariant
            13 <= frame_rate,
            0 <= period <= 5,
            frame_rate <= rate,
            period >= 1 ==> rate < 800,
            period >= 1 ==> rate >= 26,
            period >= 2 ==> rate >= 52,
            period >= 3 ==> rate >= 104,
            period >= 4 ==> rate >= 208,
            period >= 5 ==> rate >= 416,
            doublings_to_400(frame_rate as int) == period + doublings_to_400(rate as int),
        decreases 800 - rate,
    {
        rate = rate * 2;
        period += 1;
    }
    let stereo: u8 = if channels == 2 {
        4
    } else {
        0
    };
    let config: u8 = match mode {
        OpusMode::SilkOnly => {
            assert(2 <= period <= 5);
            let bw: u8 = match bandwidth {
                Bandwidth::Narrowband => 0,
                Bandwidth::Mediumband => 1,
                _ => 2,
            };
            bw * 4 + (period - 2) as u8
        },
        OpusMode::CeltOnly => {
            assert(0 <= period <= 3);
            let bw: u8 = match bandwidth {
                Bandwidth::Narrowband | Bandwidth::Mediumband => 0,
                Bandwidth::Wideband => 1,
                Bandwidth::Superwideband => 2,
                Bandwidth::Fullband => 3,
            };
            16 + bw * 4 + period as u8
        },
        OpusMode::Hybrid => {
            let base: u8 = if bandwidth == Bandwidth::Superwideband {
                12
            } else {
                14
            };
            if frame_rate >= 100 {
                base
            } else {
                base + 1
            }
        },
    };
    config * 8 + stereo
}

/// Which coding layers the packet used.
pub fn mode_from_toc(toc: u8) -> (m: OpusMode)
    ensures
        m == config_mode(toc_config(toc)),
{
    proof {
        lemma_toc_bits(toc);
    }
    if toc & 0x80 != 0 {
        OpusMode::CeltOnly
    } else if toc & 0x60 == 0x60 {
        OpusMode::Hybrid
    } else {
        OpusMode::SilkOnly
    }
}

/// The CELT end band a given audio bandwidth codes up to.
pub open spec fn spec_celt_endband(bw: Bandwidth) -> usize {
    match bw {
        Bandwidth::Narrowband => 13,
        Bandwidth::Mediumband | Bandwidth::Wideband => 17,
        Bandwidth::Superwideband => 19,
        Bandwidth::Fullband => 21,
    }
}

/// The CELT end band a given audio bandwidth codes up to. Encoder and decoder
/// must pick the same band range for a packet, so this is the single definition
/// both sides call.
pub fn celt_endband_for_bandwidth(bw: Bandwidth) -> (band: usize)
    ensures
        band == spec_celt_endband(bw),
{
    match bw {
        Bandwidth::Narrowband => 13,
        Bandwidth::Mediumband | Bandwidth::Wideband => 17,
        Bandwidth::Superwideband => 19,
        Bandwidth::Fullband => 21,
    }
}

/// The audio bandwidth the packet carries.
pub fn bandwidth_from_toc(toc: u8) -> (b: Bandwidth)
    ensures
        b == config_bandwidth(toc_config(toc)),
{
    proof {
        lemma_toc_bits(toc);
    }
    let mode = mode_from_toc(toc);
    match mode {
        OpusMode::SilkOnly => {
            let bw_bits: u8 = (toc >> 5) & 0x03;
            if bw_bits == 0 {
                Bandwidth::Narrowband
            } else if bw_bits == 1 {
                Bandwidth::Mediumband
            } else {
                Bandwidth::Wideband
            }
        },
        OpusMode::Hybrid => {
            let bw_bit: u8 = (toc >> 4) & 0x01;
            if bw_bit == 0 {
                Bandwidth::Superwideband
            } else {
                Bandwidth::Fullband
            }
        },
        OpusMode::CeltOnly => {
            let bw_bits: u8 = (toc >> 5) & 0x03;
            if bw_bits == 0 {
                Bandwidth::Narrowband
            } else if bw_bits == 1 {
                Bandwidth::Wideband
            } else if bw_bits == 2 {
                Bandwidth::Superwideband
            } else {
                Bandwidth::Fullband
            }
        },
    }
}

/// The frame duration in whole milliseconds; 2.5 ms reads as 2.
pub fn frame_duration_ms_from_toc(toc: u8) -> (ms: i32)
    ensures
        ms == config_quarters(toc_config(toc)) * 5 / 2,
{
    proof {
        lemma_toc_bits(toc);
    }
    let mode = mode_from_toc(toc);
    match mode {
        OpusMode::SilkOnly => {
            let config: u8 = (toc >> 3) & 0x03;
            if config == 0 {
                10
            } else if config == 1 {
                20
            } else if config == 2 {
                40
            } else {
                60
            }
        },
        OpusMode::Hybrid => {
            let config: u8 = (toc >> 3) & 0x01;
            if config == 0 {
                10
            } else {
                20
            }
        },
        OpusMode::CeltOnly => {
            let config: u8 = (toc >> 3) & 0x03;
            if config == 0 {
                2
            } else if config == 1 {
                5
            } else if config == 2 {
                10
            } else {
                20
            }
        },
    }
}

/// Channels the packet carries: 1 or 2.
pub fn channels_from_toc(toc: u8) -> (c: usize)
    ensures
        c == if toc_stereo(toc) {
            2usize
        } else {
            1usize
        },
{
    proof {
        lemma_toc_bits(toc);
    }
    if toc & 0x04 != 0 {
        2
    } else {
        1
    }
}

/// A TOC byte reads back as the mode it was generated for.
pub proof fn law_toc_mode_round_trips(mode: OpusMode, frame_rate: int, bandwidth: Bandwidth)
    requires
        frame_rate >= 13,
        mode == OpusMode::SilkOnly ==> frame_rate <= 100 && bandwidth.spec_rank() <= 2,
        mode == OpusMode::CeltOnly ==> 50 <= frame_rate <= 400,
    ensures
        config_mode(encode_config(mode, frame_rate, bandwidth)) == mode,
{
    reveal_with_fuel(doublings_to_400, 7);
}

/// A TOC byte reads back as the bandwidth it was generated for, where the mode
/// can express it: SILK up to wideband, hybrid from super-wideband, CELT any
/// but mediumband, which is sent in the configurations of narrowband.
pub proof fn law_toc_bandwidth_round_trips(mode: OpusMode, frame_rate: int, bandwidth: Bandwidth)
    requires
        frame_rate >= 13,
        mode == OpusMode::SilkOnly ==> frame_rate <= 100 && bandwidth.spec_rank() <= 2,
        mode == OpusMode::CeltOnly ==> 50 <= frame_rate <= 400 && bandwidth
            != Bandwidth::Mediumband,
        mode == OpusMode::Hybrid ==> bandwidth.spec_rank() >= 3,
    ensures
        config_bandwidth(encode_config(mode, frame_rate, bandwidth)) == bandwidth,
{
    reveal_with_fuel(doublings_to_400, 7);
}

} // verus!
