//! The range coder.

use opus_pure::celt::pvq::{decode_pulses, encode_pulses};
use opus_pure::range_coder::RangeCoder;
use opus_pure::silk::decode_indices::silk_stereo_decode_mid_only;
use opus_pure::silk::stereo::silk_stereo_encode_mid_only;

const FOUR: [u8; 4] = [192, 100, 10, 0];

#[test]
fn symbols_come_back() {
    let symbols = [0, 1, 2, 3, 3, 3, 0, 0, 1, 2, 0, 3, 1, 1, 2, 0];
    let mut enc = RangeCoder::new_encoder(32);
    for s in symbols {
        enc.encode_icdf(s, &FOUR, 8);
    }
    let used = enc.tell();
    let range = enc.final_range();
    enc.done();
    let mut dec = RangeCoder::new_decoder(&enc.buf);
    for s in symbols {
        assert_eq!(dec.decode_icdf(&FOUR, 8), s);
    }
    assert_eq!(dec.tell(), used);
    assert_eq!(dec.final_range(), range);
}

#[test]
fn numbers_come_back_with_their_raw_bits() {
    let numbers = [(0u32, 2u32), (255, 256), (1000, 1001), (70_000, 100_000), (1, 3)];
    let mut enc = RangeCoder::new_encoder(32);
    for (v, ft) in numbers {
        enc.enc_uint(v, ft);
    }
    enc.done();
    let mut dec = RangeCoder::new_decoder(&enc.buf);
    for (v, ft) in numbers {
        assert_eq!(dec.dec_uint(ft), v);
    }
}

#[test]
fn a_fresh_coder_has_used_one_bit() {
    assert_eq!(RangeCoder::new_decoder(&[0; 8]).tell(), 1);
    assert_eq!(RangeCoder::new_encoder(8).tell(), 1);
}

#[test]
fn bits_follow_the_code() {
    // A code of ones lies at the bottom of the interval, where set bits are.
    assert!(RangeCoder::new_decoder(&[0xff; 8]).decode_bit_logp(1));
    assert!(!RangeCoder::new_decoder(&[0; 8]).decode_bit_logp(1));
    assert!(RangeCoder::new_decoder(&[0xff; 8]).decode_bit_logp(12));
}

#[test]
fn a_shrunk_decoder_reads_zeros_behind_its_end() {
    let mut whole = RangeCoder::new_decoder(&[0x5a, 0xa5, 0x12, 0x34, 0, 0, 0, 0]);
    let mut cut = RangeCoder::new_decoder(&[0x5a, 0xa5, 0x12, 0x34, 0xff, 0xff, 0xff, 0xff]);
    cut.shrink(4);
    for _ in 0..20 {
        assert_eq!(whole.decode_icdf(&FOUR, 8), cut.decode_icdf(&FOUR, 8));
    }
    assert_eq!(cut.storage, 4);
}

#[test]
fn the_mid_only_flag_comes_back() {
    for flag in [0i8, 1] {
        let mut enc = RangeCoder::new_encoder(8);
        silk_stereo_encode_mid_only(&mut enc, flag);
        enc.done();
        let mut dec = RangeCoder::new_decoder(&enc.buf);
        assert_eq!(silk_stereo_decode_mid_only(&mut dec), flag == 1);
    }
}

#[test]
fn pulse_vectors_come_back() {
    let mut enc = RangeCoder::new_encoder(32);
    let vectors = [[2, 0, -1, 0], [0, 0, 0, 3], [-1, 1, -1, 0]];
    for y in &vectors {
        encode_pulses(y, 4, 3, &mut enc);
    }
    encode_pulses(&[0; 4], 4, 0, &mut enc);
    enc.done();
    let mut dec = RangeCoder::new_decoder(&enc.buf);
    for y in &vectors {
        let mut got = [9; 4];
        decode_pulses(&mut got, 4, 3, &mut dec);
        assert_eq!(&got, y);
    }
    let mut none = [9; 5];
    decode_pulses(&mut none, 4, 0, &mut dec);
    assert_eq!(none, [0, 0, 0, 0, 9]);
}

#[test]
fn six_bytes_an_item_are_room_enough() {
    let numbers = [(u32::MAX - 1, u32::MAX); 4];
    let mut enc = RangeCoder::new_encoder(29);
    for (v, ft) in numbers {
        enc.enc_uint(v, ft);
    }
    enc.done();
    let mut dec = RangeCoder::new_decoder(&enc.buf);
    for (v, ft) in numbers {
        assert_eq!(dec.dec_uint(ft), v);
    }
}
