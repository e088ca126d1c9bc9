//! What a packet says of itself.

use opus_pure::packet::{channels, frame_count, samples, samples_48k};

fn toc(config: u8, stereo: bool, code: u8) -> u8 {
    (config << 3) | ((stereo as u8) << 2) | code
}

#[test]
fn durations_match_the_toc() {
    for (config, ms10) in [(16u8, 25i32), (17, 50), (18, 100), (19, 200)] {
        let p = [toc(config, false, 0)];
        assert_eq!(
            samples_48k(&p).unwrap(),
            (48_000 * ms10 / 10_000) as usize,
            "config {config}"
        );
    }
    for (config, ms) in [(0u8, 10i32), (1, 20), (2, 40), (3, 60)] {
        let p = [toc(config, false, 0)];
        assert_eq!(
            samples_48k(&p).unwrap(),
            (48 * ms) as usize,
            "config {config}"
        );
    }
}

#[test]
fn frame_packing_codes_multiply_the_duration() {
    let one = [toc(19, false, 0)];
    assert_eq!(samples_48k(&one).unwrap(), 960);
    for code in [1u8, 2] {
        let two = [toc(19, false, code)];
        assert_eq!(samples_48k(&two).unwrap(), 1920, "code {code}");
    }
    let three = [toc(19, false, 3), 3];
    assert_eq!(samples_48k(&three).unwrap(), 2880);
}

#[test]
fn rates_scale_the_answer() {
    let p = [toc(19, false, 0)];
    for (rate, expect) in [
        (8_000, 160),
        (12_000, 240),
        (16_000, 320),
        (24_000, 480),
        (48_000, 960),
    ] {
        assert_eq!(samples(&p, rate).unwrap(), expect, "{rate} Hz");
    }
    assert!(samples(&p, 44_100).is_err(), "44.1 kHz is not an Opus rate");
}

#[test]
fn channels_come_from_the_toc() {
    assert_eq!(channels(&[toc(19, false, 0)]).unwrap(), 1);
    assert_eq!(channels(&[toc(19, true, 0)]).unwrap(), 2);
}

#[test]
fn malformed_packets_are_rejected() {
    assert!(samples_48k(&[]).is_err(), "empty packet");
    assert!(frame_count(&[]).is_err(), "empty packet");
    assert!(samples_48k(&[toc(19, false, 3)]).is_err());
    assert!(samples_48k(&[toc(19, false, 3), 0]).is_err());
    assert!(samples_48k(&[toc(19, false, 3), 48]).is_err());
    assert_eq!(samples_48k(&[toc(19, false, 3), 6]).unwrap(), 5760);
}
