//! The speech decoder.

use opus_pure::silk::dec_api::SilkDecoder;

#[test]
fn test_decoder_creation() {
    let dec = SilkDecoder::new();
    assert_eq!(dec.n_channels_api, 1);
    assert_eq!(dec.n_channels_internal, 1);
}

#[test]
fn test_decoder_init() {
    let mut dec = SilkDecoder::new();

    let ret = dec.init(16000, 1);
    assert_eq!(ret, 0);
    assert_eq!(dec.channel_state[0].fs_khz * 1000, 16000);
}

#[test]
fn test_decoder_16khz() {
    let mut dec = SilkDecoder::new();
    let ret = dec.init(16000, 1);
    assert_eq!(ret, 0);
    assert_eq!(dec.channel_state[0].frame_length, 320);
}
