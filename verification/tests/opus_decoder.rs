//! The decoder's decisions.

use opus_pure::config::OpusMode;
use opus_pure::decoder::{
    celt_end_band_from_toc, Concealment, LayerStep, OpusDecoder, PacketWork, Redundancy, Work,
};
use opus_pure::error::Error;
use opus_pure::range_coder::RangeCoder;

fn decoder(rate: i32, channels: usize) -> OpusDecoder {
    OpusDecoder::new(rate, channels).unwrap()
}

fn opened(d: &mut OpusDecoder, packet: &[u8]) -> PacketWork {
    match d.open_packet(packet, 5760, 5760 * 2).unwrap() {
        Work::Packet(w) => w,
        Work::Conceal => panic!("nothing to conceal"),
    }
}

const NONE: Redundancy = Redundancy {
    present: false,
    celt_to_silk: false,
    bytes: 0,
    main_len: 3,
};

#[test]
fn only_opus_rates_and_one_or_two_channels() {
    assert!(matches!(
        OpusDecoder::new(44_100, 2),
        Err(Error::InvalidArgument("Invalid sampling rate"))
    ));
    assert!(matches!(
        OpusDecoder::new(48_000, 3),
        Err(Error::InvalidArgument("Invalid number of channels"))
    ));
    let d = decoder(48_000, 2);
    assert_eq!(d.sample_rate(), 48_000);
    assert_eq!(d.channels(), 2);
    assert_eq!(d.final_range(), 0);
    assert_eq!(d.last_packet_duration(), 0);
}

#[test]
fn a_packet_must_fit_the_room() {
    let mut d = decoder(48_000, 2);
    assert!(matches!(
        d.open_packet(&[0xfc, 1, 2], 960, 1919),
        Err(Error::BufferTooSmall {
            needed: 1920,
            available: 1919
        })
    ));
    assert!(matches!(
        d.open_packet(&[0xfd, 1, 2], 960, 1920),
        Err(Error::BufferTooSmall {
            needed: 1920,
            available: 960
        })
    ));
    assert!(matches!(
        d.open_packet(&[0xff, 0], 960, 1920),
        Err(Error::InvalidPacket(_))
    ));
    assert!(matches!(d.open_packet(&[], 960, 1920), Ok(Work::Conceal)));
    assert_eq!(d.last_packet_duration(), 0);
}

#[test]
fn a_speech_packet_is_read() {
    let mut d = decoder(48_000, 2);
    // Mediumband, 60 ms, stereo.
    let w = opened(&mut d, &[0x3c, 1, 2, 3]);
    assert_eq!(w.mode, OpusMode::SilkOnly);
    assert_eq!(w.packet_channels, 2);
    assert_eq!(w.frames, vec![(1, 3)]);
    assert_eq!(w.frame_ms, 60);
    assert_eq!(w.sub_frame_size, 2880);
    assert_eq!(w.internal_rate, 12_000);
    assert_eq!(w.n_silk, 3);
    assert_eq!(w.internal_sub, 240);
    assert!(w.silk_lr);
    assert!(!w.transition);
    assert_eq!(d.last_packet_duration(), 2880);
    assert_eq!(d.stream_channels, 2);
    assert_eq!(d.silk_dec.n_channels_internal, 2);
    assert!(d.silk_dec.produce_lr);
}

#[test]
fn end_bands_of_packets() {
    assert_eq!(celt_end_band_from_toc(0x80), 13);
    assert_eq!(celt_end_band_from_toc(0xa0), 17);
    assert_eq!(celt_end_band_from_toc(0xc0), 19);
    assert_eq!(celt_end_band_from_toc(0xfc), 21);
    assert_eq!(celt_end_band_from_toc(0x60), 19);
    assert_eq!(celt_end_band_from_toc(0x70), 21);
    assert_eq!(celt_end_band_from_toc(0x08), 21);
}

#[test]
fn a_switch_to_the_transform_layer_fades_and_starts_over() {
    let mut d = decoder(48_000, 1);
    d.prev_mode = Some(OpusMode::SilkOnly);
    let w = opened(&mut d, &[0xf8, 1, 2, 3]);
    assert!(w.transition && w.reset_celt);
    let steps = d.layer_steps(&w, 0, &NONE);
    assert_eq!(
        steps,
        vec![
            LayerStep::ConcealTransition {
                samples: 240,
                end_band: 21
            },
            LayerStep::Decode {
                reset: true,
                channels: 1,
                total_bits: 24,
                samples: 960,
                start_band: 0,
                end_band: 21
            },
            LayerStep::BlendTransition {
                head: 120,
                fade: 120,
                window_step: 1
            },
        ]
    );
    d.close_frame(&w, 0, &NONE, 0x1234, 0);
    assert_eq!(d.final_range(), 0x1234);
    assert_eq!(d.prev_mode, Some(OpusMode::CeltOnly));
}

#[test]
fn a_redundant_frame_replaces_the_fade() {
    let mut d = decoder(48_000, 1);
    d.prev_mode = Some(OpusMode::CeltOnly);
    let w = opened(&mut d, &[0x48, 1, 2, 3]);
    assert!(w.transition);
    let red = Redundancy {
        present: true,
        celt_to_silk: true,
        bytes: 2,
        main_len: 3,
    };
    let steps = d.layer_steps(&w, 0, &red);
    assert_eq!(
        steps,
        vec![
            LayerStep::Redundant {
                reset: false,
                bytes: 2,
                channels: 1,
                samples: 240,
                end_band: 17
            },
            LayerStep::FadeFromRedundant { samples: 120 },
        ]
    );
    d.close_frame(&w, 0, &red, 0xff, 0x0f);
    assert_eq!(d.final_range(), 0xf0);
    assert!(!d.prev_redundancy);
}

#[test]
fn a_redundant_frame_behind_readies_the_transform_layer() {
    let mut d = decoder(48_000, 1);
    let w = opened(&mut d, &[0x68, 1, 2, 3]);
    let red = Redundancy {
        present: true,
        celt_to_silk: false,
        bytes: 2,
        main_len: 1,
    };
    let steps = d.layer_steps(&w, 0, &red);
    assert_eq!(
        steps,
        vec![
            LayerStep::Decode {
                reset: false,
                channels: 1,
                total_bits: 8,
                samples: 960,
                start_band: 17,
                end_band: 19
            },
            LayerStep::Redundant {
                reset: true,
                bytes: 2,
                channels: 1,
                samples: 240,
                end_band: 19
            },
            LayerStep::FadeIntoRedundant { samples: 120 },
        ]
    );
    d.close_frame(&w, 0, &red, 1, 2);
    assert!(d.prev_redundancy);
    assert_eq!(d.final_range(), 3);
    let w = opened(&mut d, &[0xf8, 1, 2, 3]);
    assert!(!w.transition && !w.reset_celt);
    assert!(!d.prev_redundancy);
}

#[test]
fn the_transform_layer_fades_out_behind_hybrid() {
    let mut d = decoder(48_000, 1);
    d.prev_mode = Some(OpusMode::Hybrid);
    let w = opened(&mut d, &[0x48, 1, 2, 3]);
    assert_eq!(
        d.layer_steps(&w, 0, &NONE),
        vec![LayerStep::FadeOut {
            channels: 1,
            samples: 120,
            end_band: 17
        }]
    );
}

#[test]
fn redundancy_is_what_is_left_of_a_speech_frame() {
    let d = decoder(48_000, 1);
    let data = [0u8; 10];
    let mut rc = RangeCoder::new_decoder(&data);
    let red = d.read_redundancy(OpusMode::SilkOnly, &mut rc, data.len());
    assert!(red.present);
    assert_eq!(red.bytes, 9);
    let low = decoder(16_000, 1);
    let mut rc = RangeCoder::new_decoder(&data);
    assert!(!low.read_redundancy(OpusMode::SilkOnly, &mut rc, data.len()).present);
    let mut rc = RangeCoder::new_decoder(&data[..2]);
    assert!(!d.read_redundancy(OpusMode::SilkOnly, &mut rc, 2).present);
    let mut rc = RangeCoder::new_decoder(&data);
    assert!(!d.read_redundancy(OpusMode::CeltOnly, &mut rc, data.len()).present);
    assert_eq!(rc.tell(), 1);
}

#[test]
fn redundancy_of_a_hybrid_frame_is_flagged() {
    let d = decoder(48_000, 1);
    let mut rc = RangeCoder::new_decoder(&[0u8; 40]);
    let red = d.read_redundancy(OpusMode::Hybrid, &mut rc, 40);
    assert!(!red.present);
    assert_eq!(red.main_len, 40);
    let mut rc = RangeCoder::new_decoder(&[0xff; 300]);
    let red = d.read_redundancy(OpusMode::Hybrid, &mut rc, 300);
    assert!(red.present && red.celt_to_silk);
    assert_eq!(red.bytes + red.main_len, 300);
    assert_eq!(rc.storage as usize, red.main_len);
    let mut rc = RangeCoder::new_decoder(&[0xff; 6]);
    let red = d.read_redundancy(OpusMode::Hybrid, &mut rc, 6);
    assert!(!red.present);
    assert_eq!(rc.storage, 6);
}

#[test]
fn concealment_goes_on_in_the_last_mode() {
    let mut d = decoder(48_000, 2);
    assert_eq!(d.open_concealment(960), Concealment::Silence);
    d.prev_mode = Some(OpusMode::CeltOnly);
    assert_eq!(d.open_concealment(960), Concealment::Celt { end_band: 21 });
    d.prev_mode = Some(OpusMode::Hybrid);
    assert_eq!(
        d.open_concealment(240),
        Concealment::Silk {
            frame_ms: 10,
            n_silk: 1,
            internal_sub: 160,
            samples: 480,
            silk_lr: true,
            high_bands: Some(21),
        }
    );
    assert_eq!(d.prev_internal_rate, 16_000);
    d.prev_redundancy = true;
    assert_eq!(d.open_concealment(240), Concealment::Celt { end_band: 21 });
    assert_eq!(d.prev_mode, Some(OpusMode::CeltOnly));
}

#[test]
fn a_long_loss_is_concealed_in_stretches_of_20_ms() {
    let d = decoder(48_000, 1);
    assert_eq!(
        d.conceal_stretches(2400),
        vec![(0, 960), (960, 960), (1920, 480)]
    );
    assert_eq!(d.conceal_stretches(960), vec![(0, 960)]);
    assert_eq!(d.conceal_stretches(0), vec![(0, 0)]);
}

#[test]
fn a_transition_leaves_no_trace() {
    let mut d = decoder(48_000, 1);
    d.prev_mode = Some(OpusMode::SilkOnly);
    d.celt_end_band = 17;
    let kept = d.enter_transition(13);
    assert_eq!(d.celt_end_band, 13);
    d.open_concealment(240);
    d.leave_transition(&kept);
    assert_eq!(d.prev_mode, Some(OpusMode::SilkOnly));
    assert_eq!(d.celt_end_band, 17);
}

#[test]
fn recovery_needs_a_speech_layer_and_room_for_a_whole_frame() {
    let mut d = decoder(48_000, 2);
    // Wideband, 20 ms, stereo.
    let packet = [0x4c, 1, 2, 3];
    assert_eq!(d.recovery_lead(&packet, 2880, 5760).unwrap(), Some(1920));
    assert_eq!(d.recovery_lead(&packet, 480, 960).unwrap(), None);
    assert_eq!(d.recovery_lead(&[0xfc, 1], 960, 1920).unwrap(), None);
    assert_eq!(d.recovery_lead(&[], 960, 1920).unwrap(), None);
    assert!(matches!(
        d.recovery_lead(&packet, 960, 1919),
        Err(Error::BufferTooSmall { .. })
    ));
    let w = d.open_recovery(&packet).unwrap();
    assert_eq!(w.frame, (1, 3));
    assert_eq!(w.samples, 960);
    assert_eq!(w.internal_rate, 16_000);
    assert!(w.silk_lr);
    assert_eq!(w.high_bands, None);
    d.close_recovery(&w);
    assert_eq!(d.prev_mode, Some(OpusMode::SilkOnly));
    assert_eq!(d.last_packet_duration(), 0);
    d.prev_mode = Some(OpusMode::CeltOnly);
    assert_eq!(d.recovery_lead(&packet, 2880, 5760).unwrap(), None);
    d.prev_mode = None;
    assert!(d.open_recovery(&[0x4f]).is_err());
}

#[test]
fn a_speech_frame_is_delayed_and_interleaved() {
    let mut d = decoder(16_000, 2);
    opened(&mut d, &[0x48, 1, 2, 3]);
    let mut pcm = [0i16; 322];
    for (i, v) in pcm.iter_mut().enumerate() {
        *v = i as i16;
    }
    assert_eq!(d.take_silk_frame(&pcm, 320, "failed").unwrap(), 320);
    assert_eq!(d.silk_s_mid, [320, 321]);
    let mut out = vec![-1i16; 640];
    assert_eq!(d.render_silk_frame(&mut out, 0, &pcm, 320, false, 16_000), 320);
    // Twelve samples of delay at equal rates, then the frame from its second
    // sample on, in both channels.
    assert_eq!(out[..24], [0; 24]);
    assert_eq!(out[24..30], [1, 1, 2, 2, 3, 3]);
    assert_eq!(out[638..], [308, 308]);
    assert!(matches!(
        d.take_silk_frame(&pcm, -1, "failed"),
        Err(Error::Internal("failed"))
    ));
}

#[test]
fn a_speech_frame_that_does_not_fit_is_cut() {
    let mut d = decoder(48_000, 1);
    opened(&mut d, &[0x40, 1, 2, 3]);
    let pcm = [1000i16; 162];
    let mut out = vec![7i16; 500];
    assert_eq!(d.render_silk_frame(&mut out, 100, &pcm, 160, false, 16_000), 480);
    assert_eq!(out[..100], [7; 100]);
    assert!(out[400..].iter().all(|&v| v > 900));
}

#[test]
fn resetting_keeps_the_settings_alone() {
    let mut d = decoder(24_000, 2);
    d.gain_q8 = 77;
    opened(&mut d, &[0x48, 1, 2, 3]);
    d.prev_mode = Some(OpusMode::SilkOnly);
    d.reset_state().unwrap();
    assert_eq!(d.gain_q8, 77);
    assert_eq!(d.sample_rate(), 24_000);
    assert_eq!(d.last_packet_duration(), 0);
    assert_eq!(d.prev_mode, None);
    assert_eq!(d.prev_internal_rate, 0);
}

#[test]
fn speech_starts_over_behind_the_transform_layer() {
    let mut d = decoder(48_000, 1);
    opened(&mut d, &[0x48, 1, 2, 3]);
    d.silk_s_mid = [5, 6];
    d.silk_dec.channel_state[0].loss_cnt = 3;
    d.prev_mode = Some(OpusMode::SilkOnly);
    opened(&mut d, &[0x48, 1, 2, 3]);
    assert_eq!(d.silk_s_mid, [5, 6]);
    d.prev_mode = Some(OpusMode::CeltOnly);
    opened(&mut d, &[0x48, 1, 2, 3]);
    assert_eq!(d.silk_s_mid, [0, 0]);
    assert_eq!(d.silk_dec.channel_state[0].loss_cnt, 0);
}

#[test]
fn every_step_fits_its_frame() {
    for config in 0..32u8 {
        for prev in [None, Some(OpusMode::SilkOnly), Some(OpusMode::CeltOnly)] {
            for celt_to_silk in [false, true] {
                let mut d = decoder(48_000, 1);
                d.prev_mode = prev;
                let w = opened(&mut d, &[config << 3, 1, 2, 3]);
                let red = Redundancy {
                    present: w.mode != OpusMode::CeltOnly,
                    celt_to_silk,
                    bytes: 2,
                    main_len: 1,
                };
                for step in d.layer_steps(&w, 0, &red) {
                    let end = match step {
                        LayerStep::ConcealTransition { samples, .. } => samples,
                        LayerStep::Redundant { samples, .. } => 2 * samples,
                        LayerStep::FadeOut { samples, .. } => samples,
                        LayerStep::Decode { samples, .. } => samples,
                        LayerStep::FadeFromRedundant { samples } => 2 * samples,
                        LayerStep::FadeIntoRedundant { samples } => samples,
                        LayerStep::BlendTransition { head, fade, .. } => head + fade,
                    };
                    assert!(end <= w.sub_frame_size);
                }
            }
        }
    }
}

#[test]
fn recovery_goes_on_from_what_the_speech_layer_has() {
    let mut d = decoder(48_000, 1);
    d.prev_mode = Some(OpusMode::SilkOnly);
    d.prev_redundancy = true;
    let packet = [0x48, 1, 2, 3];
    assert_eq!(d.recovery_lead(&packet, 2880, 2880).unwrap(), Some(1920));
    // The frame before ended in the transform layer, which conceals the lead.
    assert_eq!(d.open_concealment(1920), Concealment::Celt { end_band: 21 });
    assert_eq!(d.prev_mode, Some(OpusMode::CeltOnly));
    d.silk_s_mid = [5, 6];
    d.silk_dec.s_stereo_mid = [7, 8];
    let w = d.open_recovery(&packet).unwrap();
    assert_eq!(w.samples, 960);
    assert_eq!(d.silk_s_mid, [5, 6]);
    assert_eq!(d.silk_dec.s_stereo_mid, [7, 8]);
}

#[test]
fn a_packet_decodes_to_its_samples() {
    let mut d = decoder(24_000, 1);
    let packet = [0x49, 1, 2];
    opened(&mut d, &packet);
    assert_eq!(d.last_packet_duration(), 960);
    assert_eq!(opus_pure::packet::samples(&packet, 24_000).unwrap(), 960);
    assert!(matches!(d.open_packet(&[], 480, 480), Ok(Work::Conceal)));
    assert_eq!(d.last_packet_duration(), 960);
}

#[test]
fn the_lowest_transform_packets_are_concealed_as_narrowband() {
    let mut d = decoder(48_000, 1);
    let w = opened(&mut d, &[0x98, 1, 2, 3]);
    assert_eq!(w.end_band, 13);
    assert_eq!(d.celt_end_band, 13);
}

#[test]
fn a_loss_of_no_samples_still_conceals_ten_milliseconds_of_speech() {
    let mut d = decoder(48_000, 1);
    d.prev_mode = Some(OpusMode::SilkOnly);
    for (at, n) in d.conceal_stretches(0) {
        assert_eq!((at, n), (0, 0));
        assert!(matches!(
            d.open_concealment(n),
            Concealment::Silk {
                frame_ms: 10,
                n_silk: 1,
                samples: 480,
                ..
            }
        ));
    }
}
