//! The speech layer.

use opus_pure::range_coder::RangeCoder;
use opus_pure::silk::dec_api::{
    codebooks_are_valid, input_is_valid, Codebooks, DecodeNeed, DecodeRun, SilkDecoder,
};
use opus_pure::silk::decode_frame::{FrameInput, FLAG_DECODE_NORMAL, FLAG_PACKET_LOST};
use opus_pure::silk::decoder_structs::{SilkDecoderControl, SilkDecoderState};
use opus_pure::silk::init_decoder::{silk_decoder_set_fs, silk_init_decoder};
use opus_pure::silk::macros::{
    silk_add_sat16, silk_add_sat32, silk_clz32, silk_lshift_sat32, silk_rand, silk_rshift_round,
    silk_sat16, silk_smlabb, silk_smlawb, silk_smmul, silk_smulbb, silk_smulwb, silk_smulww,
};
use opus_pure::silk::resampler::{
    silk_resampler_down2, silk_resampler_down2_3, silk_resampler_private_ar2,
    silk_resampler_private_up2_hq, SilkDownFirResampler, SilkEncoderResampler,
    SilkResampler,
};
use opus_pure::silk::sigproc_fix::{
    silk_bwexpander, silk_div32_varq, silk_inner_prod_aligned_scale, silk_inverse32_varq,
    silk_lpc_analysis_filter, silk_sqrt_approx, silk_sum_sqr_shift,
};
use opus_pure::silk::stereo::{silk_stereo_lr_to_ms, stereo_pred_level_q13};
use opus_pure::silk::structs::{NLSFCodebook, SilkStereoState};

const ONE_VECTOR: [u8; 2] = [0, 0];
const RESIDUALS: [u8; 72] = [
    200, 180, 160, 140, 120, 100, 50, 20, 0, 200, 180, 160, 140, 120, 100, 50, 20, 0, 200, 180, 160,
    140, 120, 100, 50, 20, 0, 200, 180, 160, 140, 120, 100, 50, 20, 0, 200, 180, 160, 140, 120, 100,
    50, 20, 0, 200, 180, 160, 140, 120, 100, 50, 20, 0, 200, 180, 160, 140, 120, 100, 50, 20, 0, 200,
    180, 160, 140, 120, 100, 50, 20, 0,
];
const SELECT: [u8; 8] = [0; 8];
const FREQUENCIES: [u8; 16] = [0; 16];
const WEIGHTS: [i16; 17] = [0; 17];

fn book(order: i16) -> NLSFCodebook {
    NLSFCodebook {
        n_vectors: 1,
        order,
        quant_step_size_q16: 11796,
        inv_quant_step_size_q6: 356,
        cb1_nlsf_q8: &FREQUENCIES,
        cb1_wght_q9: &WEIGHTS,
        cb1_icdf: &ONE_VECTOR,
        pred_q8: &FREQUENCIES,
        ec_sel: &SELECT,
        ec_icdf: &RESIDUALS,
        ec_rates_q5: &RESIDUALS,
        delta_min_q15: &WEIGHTS,
    }
}

fn books() -> Codebooks {
    Codebooks {
        nb_mb: book(10),
        wb: book(16),
    }
}

fn nothing() -> FrameInput {
    let mut ctrl = SilkDecoderControl::new();
    ctrl.gains_q16 = [1 << 16; 4];
    ctrl.pitch_l = [100; 4];
    FrameInput {
        pulses: [0; 320],
        ctrl,
        prev_nlsf_q15: [1000; 16],
        last_gain_index: 17,
        nlsf_interp_coef_q2: 4,
        a_q12: [0; 16],
        inv_gain_q30: 1 << 30,
    }
}

fn run(
    dec: &mut SilkDecoder,
    rc: &mut RangeCoder,
    out: &mut [i16],
    flag: i32,
    ms: i32,
    rate: i32,
) -> i32 {
    let mut run = DecodeRun::new(flag);
    loop {
        match dec.decode(&mut run, rc, &books(), &nothing(), out, true, ms, rate) {
            DecodeNeed::Done(n) => return n,
            DecodeNeed::Pulses(_) | DecodeNeed::Frame(_) => {}
        }
    }
}

#[test]
fn a_lost_frame_on_a_fresh_decoder_is_silent() {
    let mut dec = SilkDecoder::new();
    assert_eq!(dec.init(16_000, 1), 0);
    let mut out = [7i16; 320];
    let mut rc = RangeCoder::new_decoder(&[]);
    let n = run(&mut dec, &mut rc, &mut out, FLAG_PACKET_LOST, 20, 16_000);
    assert_eq!(n, 320);
    assert_eq!(out, [0; 320]);
    assert_eq!(dec.channel_state[0].loss_cnt, 1);
}

#[test]
fn a_coded_frame_is_decoded_and_counted() {
    let mut dec = SilkDecoder::new();
    assert_eq!(dec.init(8_000, 1), 0);
    let mut out = [0i16; 320];
    let data = [0x55u8; 40];
    let mut rc = RangeCoder::new_decoder(&data);
    let n = run(&mut dec, &mut rc, &mut out, FLAG_DECODE_NORMAL, 10, 8_000);
    assert_eq!(n, 80);
    assert_eq!(dec.channel_state[0].loss_cnt, 0);
    assert_eq!(dec.channel_state[0].n_frames_decoded, 1);
    assert_eq!(dec.s_stereo_mid, [out[78], out[79]]);
    assert!(rc.tell() > 10);
}

#[test]
fn rates_and_durations_that_do_not_exist_are_refused() {
    let mut dec = SilkDecoder::new();
    assert_eq!(dec.init(24_000, 1), -1);
    assert_eq!(dec.init(-1, 1), -1);
    assert_eq!(dec.init(16_000, 2), 0);
    let mut out = [0i16; 320];
    let mut rc = RangeCoder::new_decoder(&[]);
    assert_eq!(run(&mut dec, &mut rc, &mut out, FLAG_PACKET_LOST, 15, 16_000), -1);
    assert_eq!(run(&mut dec, &mut rc, &mut out, FLAG_PACKET_LOST, 20, 44_100), -1);
    let mut d = SilkDecoderState::default();
    assert_eq!(silk_decoder_set_fs(&mut d, 24, 48_000), -1);
    d.nb_subfr = 2;
    assert_eq!(silk_decoder_set_fs(&mut d, 12, 48_000), 0);
    assert_eq!((d.frame_length, d.subfr_length, d.lpc_order), (120, 60, 10));
    silk_init_decoder(&mut d);
    assert_eq!(d.nb_subfr, 4);
    assert_eq!(d.fs_khz, 12);
}

#[test]
fn fixed_point_products_and_shifts() {
    assert_eq!(silk_smulwb(65_536, 100), 100);
    assert_eq!(silk_smulwb(-1, 1), -1);
    assert_eq!(silk_smlawb(5, 65_536, 100), 105);
    assert_eq!(silk_smulbb(0x1_0003, 0x1_0005), 15);
    assert_eq!(silk_smlabb(1, 3, 5), 16);
    assert_eq!(silk_smulww(65_536, 70_000), 70_000);
    assert_eq!(silk_smmul(1 << 30, 8), 2);
    assert_eq!(silk_rshift_round(5, 1), 3);
    assert_eq!(silk_rshift_round(-5, 1), -2);
    assert_eq!(silk_clz32(1), 31);
    assert_eq!(silk_clz32(0), 32);
    assert_eq!(silk_sat16(40_000), 32_767);
    assert_eq!(silk_add_sat16(-30_000, -30_000), -32_768);
    assert_eq!(silk_add_sat32(i32::MAX, 1), i32::MAX);
    assert_eq!(silk_lshift_sat32(1 << 30, 2), 0x7fff_fffc);
    assert_eq!(silk_rand(0), 907_633_515);
}

#[test]
fn approximations_have_their_known_values() {
    assert_eq!(silk_sqrt_approx(10_000), 98);
    assert_eq!(silk_sqrt_approx(0), 0);
    assert_eq!(silk_inverse32_varq(3, 16), 21_845);
    assert_eq!(silk_div32_varq(1, 2, 10), 511);
    assert_eq!(silk_sum_sqr_shift(&[3, 4, 0, 0], 4), (25, 0));
    assert_eq!(silk_inner_prod_aligned_scale(&[2, 4], &[8, 16], 2, 2), 20);
    let mut one = [0i16; 16];
    one[0] = 4096;
    assert_eq!(silk_bwexpander(&one, 2, 65_536)[0], 4096);
    assert_eq!(silk_bwexpander(&one, 2, 32_768)[0], 2048);
}

#[test]
fn an_analysis_filter_takes_its_prediction_off() {
    let mut b = [0i16; 16];
    b[0] = 4096;
    let x = [10i16, 20, 30, 40, 50, 60, 70, 80, 90, 100, 110, 120];
    let r = silk_lpc_analysis_filter(&x, &b, 12, 10);
    assert_eq!(r[..10], [0; 10]);
    assert_eq!(r[10..12], [10, 10]);
}

#[test]
fn stereo_levels_rise() {
    let mut last = i32::MIN;
    for i in 0..15 {
        for j in 0..5 {
            let l = stereo_pred_level_q13(i, j);
            assert!(l > last);
            last = l;
        }
    }
}

#[test]
fn resampling_up_keeps_the_duration() {
    for (from, to) in [(8_000, 16_000), (12_000, 48_000), (16_000, 24_000), (16_000, 16_000)] {
        let mut r = SilkResampler::default();
        assert_eq!(r.output_len(100), None);
        assert_eq!(r.init(from, to), 0);
        let n = (from / 50) as usize;
        let want = (to / 50) as usize;
        assert_eq!(r.output_len(n as i32), Some(want));
        let input = vec![1000i16; n];
        let mut out = vec![-1i16; want];
        for _ in 0..3 {
            assert_eq!(r.process(&mut out, &input, n as i32), 0);
        }
        assert!(out.iter().all(|&v| (v - 1000).abs() < 30), "{from} to {to}");
        assert_eq!(r.process(&mut out[..want - 1], &input, n as i32), -1);
    }
    let mut r = SilkResampler::default();
    assert_eq!(r.process(&mut [0; 960], &[0; 320], 320), -1);
    assert_eq!(r.init(24_000, 48_000), -1);
}

#[test]
fn resampling_down_keeps_the_duration() {
    let mut r = SilkEncoderResampler::new(48_000, 16_000).unwrap();
    let input = vec![1000i16; 960];
    let mut out = vec![0i16; 320];
    for _ in 0..3 {
        r.process(&mut out, &input);
    }
    assert!(out.iter().all(|&v| (v - 1000).abs() < 30));
    assert!(SilkDownFirResampler::new(44_100, 16_000).is_none());
    assert!(SilkEncoderResampler::new(44_100, 16_000).is_none());
    let mut p = SilkEncoderResampler::new(16_000, 16_000).unwrap();
    let ramp: Vec<i16> = (0..320).collect();
    let mut same = vec![-1i16; 320];
    p.process(&mut same, &ramp);
    let delay = same.iter().take_while(|&&v| v == 0).count() - 1;
    assert_eq!(same[delay + 5], 5);
}

#[test]
fn filters_keep_silence_silent() {
    let mut six = [0i32; 6];
    let mut out = [5i16; 16];
    silk_resampler_private_up2_hq(&mut six, &mut out, &[0; 8], 8);
    assert_eq!(out, [0; 16]);
    let mut two = [0i32; 2];
    let mut half = [5i16; 4];
    silk_resampler_down2(&mut two, &mut half, &[0; 8], 8);
    assert_eq!(half, [0; 4]);
    let mut third = [5i16; 8];
    silk_resampler_down2_3(&mut six, &mut third, &[0; 12], 12);
    assert_eq!(third, [0; 8]);
    let mut q8 = [5i32; 8];
    silk_resampler_private_ar2(&mut two, &mut q8, &[0; 8], &[100, -100], 8);
    assert_eq!(q8, [0; 8]);
}

#[test]
fn a_delay_has_no_seams() {
    let ramp: Vec<i16> = (1..641).collect();
    let mut whole = SilkEncoderResampler::new(16_000, 16_000).unwrap();
    let mut at_once = vec![0i16; 640];
    whole.process(&mut at_once, &ramp);
    let mut halves = SilkEncoderResampler::new(16_000, 16_000).unwrap();
    let mut joined = vec![0i16; 640];
    halves.process(&mut joined[..320], &ramp[..320]);
    halves.process(&mut joined[320..480], &ramp[320..480]);
    halves.process(&mut joined[480..], &ramp[480..]);
    assert_eq!(joined, at_once);
}

#[test]
fn the_image_tapers_before_the_side_is_dropped() {
    let mut state = SilkStereoState::default();
    state.reset_for_stereo();
    state.width_prev_q14 = 1 << 14;
    let mut flags = Vec::new();
    for _ in 0..3 {
        let mut x1: Vec<i16> = (0..322).map(|i| (i % 50) * 100).collect();
        let mut x2 = x1.clone();
        let mut ix = [[0i8; 3]; 2];
        let mut mid_only = 0i8;
        let mut rates = [0i32; 2];
        silk_stereo_lr_to_ms(
            &mut state, &mut x1, &mut x2, &mut ix, &mut mid_only, &mut rates, 10_000, 200, false,
            16, 320,
        );
        assert_eq!(state.width_prev_q14, 0);
        if mid_only == 1 {
            assert!(x2[1..=320].iter().all(|&v| v == 0));
        }
        flags.push(mid_only);
    }
    assert_eq!(flags, [0, 1, 1]);
}

#[test]
fn a_coded_frame_leaves_its_spectrum_and_gain_behind() {
    let mut dec = SilkDecoder::new();
    assert_eq!(dec.init(8_000, 1), 0);
    let mut out = [0i16; 320];
    let data = [0x55u8; 40];
    let mut rc = RangeCoder::new_decoder(&data);
    run(&mut dec, &mut rc, &mut out, FLAG_DECODE_NORMAL, 10, 8_000);
    assert_eq!(dec.channel_state[0].prev_nlsf_q15, [1000; 16]);
    assert_eq!(dec.channel_state[0].last_gain_index, 17);
    assert_eq!(dec.channel_state[0].indices.nlsf_interp_coef_q2, 4);
    let mut rc = RangeCoder::new_decoder(&[]);
    run(&mut dec, &mut rc, &mut out, FLAG_PACKET_LOST, 10, 8_000);
    assert_eq!(dec.channel_state[0].prev_nlsf_q15, [1000; 16]);
    assert_eq!(dec.channel_state[0].last_gain_index, 10);
}

#[test]
fn comfort_noise_learns_the_spectrum_of_an_inactive_frame() {
    let mut dec = SilkDecoder::new();
    assert_eq!(dec.init(8_000, 1), 0);
    let mut out = [0i16; 320];
    // No voice activity.
    let data = [0x00u8; 40];
    let mut rc = RangeCoder::new_decoder(&data);
    run(&mut dec, &mut rc, &mut out, FLAG_DECODE_NORMAL, 10, 8_000);
    let d = &dec.channel_state[0];
    assert_eq!(d.prev_signal_type, 0);
    assert!(d.s_cng.cng_smth_nlsf_q15[0] > 0);
}

#[test]
fn a_frame_begins_with_a_silent_side_channel() {
    let mut dec = SilkDecoder::new();
    assert_eq!(dec.init(16_000, 2), 0);
    let mut out = [0i16; 320];
    let mut rc = RangeCoder::new_decoder(&[]);
    let mut run = DecodeRun::new(FLAG_PACKET_LOST);
    run.side = [7; 320];
    dec.decode(&mut run, &mut rc, &books(), &nothing(), &mut out, true, 20, 16_000);
    assert_eq!(run.side, [0; 320]);
}

#[test]
fn what_a_frame_is_decoded_from_can_be_tested() {
    let mut b = books();
    assert!(codebooks_are_valid(&b));
    b.wb.order = 12;
    assert!(!codebooks_are_valid(&b));
    b = books();
    b.nb_mb.ec_icdf = &RESIDUALS[..71];
    assert!(!codebooks_are_valid(&b));
    let mut dec = SilkDecoder::new();
    assert_eq!(dec.init(16_000, 1), 0);
    let mut d = dec.channel_state[0];
    d.nb_subfr = 4;
    assert_eq!(silk_decoder_set_fs(&mut d, 16, 16_000), 0);
    d.indices.signal_type = 2;
    let mut input = nothing();
    assert!(input_is_valid(&d, FLAG_DECODE_NORMAL, &input));
    input.ctrl.pitch_l[3] = 1;
    assert!(!input_is_valid(&d, FLAG_DECODE_NORMAL, &input));
    input.ctrl.pitch_l[3] = 302;
    assert!(!input_is_valid(&d, FLAG_DECODE_NORMAL, &input));
    input.ctrl.pitch_l[3] = 301;
    assert!(input_is_valid(&d, FLAG_DECODE_NORMAL, &input));
    input.ctrl.gains_q16[0] = 0;
    assert!(!input_is_valid(&d, FLAG_DECODE_NORMAL, &input));
    assert!(input_is_valid(&d, FLAG_PACKET_LOST, &input));
}

#[test]
fn the_rates_add_up() {
    for rate in [0, 700, 5_000, 12_000, 30_000, 64_000, 500_000] {
        let mut state = SilkStereoState::default();
        state.reset_for_stereo();
        for f in 0..4i32 {
            let mut x1: Vec<i16> = (0..322).map(|i| ((i * 37 + f * 11) % 400 - 200) as i16).collect();
            let mut x2: Vec<i16> = (0..322).map(|i| ((i * 91 + f * 7) % 300 - 150) as i16).collect();
            let mean: Vec<i16> = x1.iter().zip(&x2).map(|(a, b)| (a + b + 1) >> 1).collect();
            let tail = state.s_mid;
            let mut ix = [[0i8; 3]; 2];
            let mut mid_only = 0i8;
            let mut rates = [0i32; 2];
            silk_stereo_lr_to_ms(
                &mut state, &mut x1, &mut x2, &mut ix, &mut mid_only, &mut rates, rate, 200, false,
                16, 320,
            );
            assert_eq!(x1[..2], tail);
            assert_eq!(x1[2..], mean[2..]);
            let left = (rate - 600).max(1);
            if mid_only == 1 {
                assert_eq!(rates, [left, 0]);
            } else {
                assert!(rates[0] >= 1 && rates[1] >= 1);
                assert!(left < 2 || rates[0] + rates[1] == left);
            }
        }
    }
}
