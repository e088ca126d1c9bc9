//! The byte that opens every packet.

use opus_pure::config::{Application, Bandwidth, OpusMode, RateControl};
use opus_pure::error::Error;
use opus_pure::packet::{bandwidth, mode, samples_per_frame};
use opus_pure::toc::{
    bandwidth_from_toc, celt_endband_for_bandwidth, channels_from_toc, frame_duration_ms_from_toc,
    frame_rate_from_params, gen_toc, mode_from_toc,
};

#[test]
fn generated_bytes_have_their_known_values() {
    assert_eq!(gen_toc(OpusMode::CeltOnly, 50, Bandwidth::Fullband, 2), 0xfc);
    assert_eq!(gen_toc(OpusMode::SilkOnly, 50, Bandwidth::Narrowband, 1), 0x08);
    assert_eq!(gen_toc(OpusMode::SilkOnly, 16, Bandwidth::Wideband, 1), 0x58);
    assert_eq!(gen_toc(OpusMode::Hybrid, 100, Bandwidth::Superwideband, 1), 0x60);
    assert_eq!(gen_toc(OpusMode::Hybrid, 50, Bandwidth::Fullband, 2), 0x7c);
}

#[test]
fn a_generated_byte_reads_back() {
    for (m, rate, bw) in [
        (OpusMode::SilkOnly, 100, Bandwidth::Narrowband),
        (OpusMode::SilkOnly, 25, Bandwidth::Mediumband),
        (OpusMode::Hybrid, 50, Bandwidth::Superwideband),
        (OpusMode::CeltOnly, 400, Bandwidth::Wideband),
        (OpusMode::CeltOnly, 100, Bandwidth::Narrowband),
        (OpusMode::CeltOnly, 50, Bandwidth::Fullband),
    ] {
        let toc = gen_toc(m, rate, bw, 2);
        assert_eq!(mode_from_toc(toc), m);
        assert_eq!(bandwidth_from_toc(toc), bw);
        assert_eq!(channels_from_toc(toc), 2);
        assert_eq!(frame_duration_ms_from_toc(toc), 1000 / rate);
    }
}

#[test]
fn only_opus_durations_have_a_frame_rate() {
    assert_eq!(frame_rate_from_params(48_000, 960), Some(50));
    assert_eq!(frame_rate_from_params(48_000, 2880), Some(16));
    assert_eq!(frame_rate_from_params(48_000, 120), Some(400));
    assert_eq!(frame_rate_from_params(48_000, 961), None);
    assert_eq!(frame_rate_from_params(48_000, 0), None);
}

#[test]
fn end_bands_follow_the_bandwidth() {
    assert_eq!(celt_endband_for_bandwidth(Bandwidth::Narrowband), 13);
    assert_eq!(celt_endband_for_bandwidth(Bandwidth::Wideband), 17);
    assert_eq!(celt_endband_for_bandwidth(Bandwidth::Superwideband), 19);
    assert_eq!(celt_endband_for_bandwidth(Bandwidth::Fullband), 21);
}

#[test]
fn a_packet_tells_its_mode_and_bandwidth() {
    assert_eq!(mode(&[0x60]).unwrap(), OpusMode::Hybrid);
    assert_eq!(bandwidth(&[0x60]).unwrap(), Bandwidth::Superwideband);
    assert_eq!(samples_per_frame(&[0x18], 16_000).unwrap(), 960);
    assert!(matches!(mode(&[]), Err(Error::InvalidPacket(_))));
    assert!(matches!(bandwidth(&[]), Err(Error::InvalidPacket(_))));
    assert!(matches!(
        samples_per_frame(&[0x18], 44_100),
        Err(Error::InvalidArgument(_))
    ));
}

#[test]
fn settings_have_their_codes() {
    assert_eq!(Application::Voip.code(), 2048);
    assert_eq!(Application::RestrictedLowDelay.code(), 2051);
    assert!(RateControl::Cbr.is_cbr());
    assert!(!RateControl::Vbr.is_cbr());
}

#[test]
fn the_lowest_transform_packets_are_narrowband() {
    for toc in [0x80u8, 0x88, 0x90, 0x98, 0x84] {
        assert_eq!(bandwidth_from_toc(toc), Bandwidth::Narrowband);
        assert_eq!(bandwidth(&[toc]).unwrap(), Bandwidth::Narrowband);
    }
    let toc = gen_toc(OpusMode::CeltOnly, 400, Bandwidth::Mediumband, 1);
    assert_eq!(toc, 0x80);
    assert_eq!(bandwidth_from_toc(toc), Bandwidth::Narrowband);
}
