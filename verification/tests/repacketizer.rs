//! Splitting, merging and padding packets.

use opus_pure::repacketizer::{
    encode_size, pad_packet, parse_packet, unpad_packet, Repacketizer,
};

#[test]
fn split_merge_roundtrip() {
    let toc = 12u8 << 3;
    let mut pkt = vec![toc | 0x3, 3 | 0x80];
    let f0 = vec![0xAAu8; 3];
    let f1 = vec![0xBBu8; 5];
    let f2 = vec![0xCCu8; 4];
    encode_size(3, &mut pkt);
    encode_size(5, &mut pkt);
    pkt.extend_from_slice(&f0);
    pkt.extend_from_slice(&f1);
    pkt.extend_from_slice(&f2);

    let mut rp = Repacketizer::new();
    rp.cat(&pkt).unwrap();
    assert_eq!(rp.nb_frames(), 3);
    assert_eq!(rp.out().unwrap(), pkt);
    let s0 = rp.out_range(0, 1).unwrap();
    assert_eq!(s0[0] & 0x3, 0);
    assert_eq!(&s0[1..], &f0[..]);
    let s1 = rp.out_range(1, 2).unwrap();
    assert_eq!(&s1[1..], &f1[..]);
}

#[test]
fn pad_unpad_identity() {
    let toc = 8u8 << 3;
    let mut pkt = vec![toc];
    pkt.extend_from_slice(&[1, 2, 3, 4, 5]);
    let orig = pkt.clone();
    pad_packet(&mut pkt, orig.len() + 10).unwrap();
    assert_eq!(pkt.len(), orig.len() + 10);
    let back = unpad_packet(&pkt).unwrap();
    let (_t, f, _) = parse_packet(&back, false).unwrap();
    assert_eq!(&back[f[0].0..f[0].0 + f[0].1], &orig[1..]);
}

#[test]
fn cbr_merge_code1() {
    let toc = 8u8 << 3;
    let p = vec![toc, 9, 9, 9];
    let mut rp = Repacketizer::new();
    rp.cat(&p).unwrap();
    rp.cat(&p).unwrap();
    let out = rp.out().unwrap();
    assert_eq!(out[0] & 0x3, 1);
    assert_eq!(rp.nb_frames(), 2);
}

#[test]
fn self_delimited_roundtrip() {
    let toc = 12u8 << 3;
    let mut rp = Repacketizer::new();
    let mut p = vec![toc | 0x3, 3 | 0x80];
    encode_size(3, &mut p);
    encode_size(5, &mut p);
    p.extend_from_slice(&[1u8; 3]);
    p.extend_from_slice(&[2u8; 5]);
    p.extend_from_slice(&[3u8; 4]);
    rp.cat(&p).unwrap();
    let sd = rp.out_self_delimited().unwrap();
    let mut stream = sd.clone();
    stream.extend_from_slice(&[0xEE; 7]);
    let (t, frames, off) = parse_packet(&stream, true).unwrap();
    assert_eq!(t, toc | 0x3);
    assert_eq!(frames.len(), 3);
    assert_eq!(&stream[frames[0].0..frames[0].0 + frames[0].1], &[1, 1, 1]);
    assert_eq!(
        &stream[frames[2].0..frames[2].0 + frames[2].1],
        &[3, 3, 3, 3]
    );
    assert_eq!(off, sd.len());
}
