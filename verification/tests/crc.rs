//! The page checksum.

use opus_pure::ogg::crc::{crc32, Crc32};

fn crc32_bitwise(data: &[u8]) -> u32 {
    let mut crc: u32 = 0;
    for &b in data {
        crc ^= (b as u32) << 24;
        for _ in 0..8 {
            crc = if crc & 0x8000_0000 != 0 {
                (crc << 1) ^ 0x04c1_1db7
            } else {
                crc << 1
            };
        }
    }
    crc
}

#[test]
fn table_matches_bitwise_oracle() {
    let mut state = 0x1234_5678u32;
    for len in 0..300usize {
        let data: Vec<u8> = (0..len)
            .map(|_| {
                state = state.wrapping_mul(1_664_525).wrapping_add(1_013_904_223);
                (state >> 24) as u8
            })
            .collect();
        assert_eq!(crc32(&data), crc32_bitwise(&data), "len {len}");
    }
}

#[test]
fn empty_input_is_zero() {
    assert_eq!(crc32(&[]), 0);
}

#[test]
fn update_is_incremental() {
    let data: Vec<u8> = (0u8..=255).collect();
    for split in [0, 1, 17, 128, 255, 256] {
        let mut c = Crc32::new();
        c.update(&data[..split]);
        c.update(&data[split..]);
        assert_eq!(c.finish(), crc32(&data), "split at {split}");
    }
}

#[test]
fn update_zeros_matches_explicit_zero_bytes() {
    let mut a = Crc32::new();
    a.update(b"OggS");
    a.update_zeros(4);
    a.update(b"tail");

    let mut b = Crc32::new();
    b.update(b"OggS");
    b.update(&[0, 0, 0, 0]);
    b.update(b"tail");

    assert_eq!(a.finish(), b.finish());
}

#[test]
fn the_checksum_is_linear() {
    let a = b"one byte string";
    let b = b"the other \x00\xff is";
    let n = a.len();
    let x: Vec<u8> = a.iter().zip(&b[..n]).map(|(p, q)| p ^ q).collect();
    assert_eq!(crc32(&x), crc32(a) ^ crc32(&b[..n]));
}
