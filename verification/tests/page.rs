//! Ogg pages.

use opus_pure::error::Error;
use opus_pure::ogg::page::{
    lacing_values, verify_crc, write_page, HeaderType, PageHeader, HEADER_LEN,
};

#[test]
fn lacing_terminates_below_255() {
    for len in [0usize, 1, 254, 255, 256, 509, 510, 511, 65024] {
        let v: Vec<u8> = lacing_values(len);
        assert_eq!(
            v.iter().map(|&x| x as usize).sum::<usize>(),
            len,
            "len {len}"
        );
        assert!(*v.last().unwrap() < 255, "len {len} must end below 255");
        assert!(v[..v.len() - 1].iter().all(|&x| x == 255), "len {len}");
    }
}

#[test]
fn exact_multiples_get_a_zero_terminator() {
    assert_eq!(lacing_values(255), vec![255, 0]);
    assert_eq!(lacing_values(510), vec![255, 255, 0]);
    assert_eq!(lacing_values(0), vec![0]);
}

#[test]
fn header_round_trips() {
    let mut out = Vec::new();
    write_page(
        HeaderType::BOS | HeaderType::EOS,
        0x0123_4567_89ab_cdef,
        0xdead_beef,
        42,
        &[4, 0],
        b"data",
        &mut out,
    );
    let raw: [u8; HEADER_LEN] = out[..HEADER_LEN].try_into().unwrap();
    let h = PageHeader::parse(&raw).unwrap();
    assert_eq!(h.header_type, HeaderType::BOS | HeaderType::EOS);
    assert_eq!(h.granule_position, 0x0123_4567_89ab_cdef);
    assert_eq!(h.serial, 0xdead_beef);
    assert_eq!(h.sequence, 42);
    assert_eq!(h.segment_count, 2);
    assert!(h.is_bos() && h.is_eos() && !h.is_continued());
    assert!(verify_crc(
        &raw,
        &out[HEADER_LEN..HEADER_LEN + 2],
        b"data",
        h.crc
    ));
}

#[test]
fn crc_rejects_a_flipped_payload_byte() {
    let mut out = Vec::new();
    write_page(0, 960, 1, 0, &[4, 0], b"data", &mut out);
    let raw: [u8; HEADER_LEN] = out[..HEADER_LEN].try_into().unwrap();
    let crc = PageHeader::parse(&raw).unwrap().crc;
    let mut payload = b"data".to_vec();
    payload[0] ^= 0x01;
    assert!(!verify_crc(
        &raw,
        &out[HEADER_LEN..HEADER_LEN + 2],
        &payload,
        crc
    ));
}

#[test]
fn rejects_bad_capture_pattern_and_version() {
    let mut buf = [0u8; HEADER_LEN];
    buf[0..4].copy_from_slice(b"OggZ");
    assert!(matches!(
        PageHeader::parse(&buf),
        Err(Error::InvalidStream(_))
    ));

    buf[0..4].copy_from_slice(b"OggS");
    buf[4] = 1;
    assert!(matches!(
        PageHeader::parse(&buf),
        Err(Error::InvalidStream(_))
    ));
}
