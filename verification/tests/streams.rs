//! Whole Ogg streams.

use opus_pure::encoder_info::{ChannelLayout, EncoderInfo, MultistreamInfo};
use opus_pure::error::Error;
use opus_pure::ogg::crc::crc32;
use opus_pure::ogg::endian::{le16_at, le32_at, le64_at, push_le16, push_le32, push_le64};
use opus_pure::ogg::header::OpusHead;
use opus_pure::ogg::page::{verify_crc, PageHeader, HEADER_LEN};
use opus_pure::ogg::tags::OpusTags;
use opus_pure::ogg::writer::OggOpusWriter;

/// The pages of a stream: header, lacing values and payload of each.
fn pages(stream: &[u8]) -> Vec<(PageHeader, Vec<u8>, Vec<u8>)> {
    let mut at = 0;
    let mut found = Vec::new();
    while at < stream.len() {
        let raw: [u8; HEADER_LEN] = stream[at..at + HEADER_LEN].try_into().unwrap();
        let header = PageHeader::parse(&raw).unwrap();
        at += HEADER_LEN;
        let segments = stream[at..at + header.segment_count as usize].to_vec();
        at += segments.len();
        let len: usize = segments.iter().map(|&s| s as usize).sum();
        let payload = stream[at..at + len].to_vec();
        at += len;
        assert!(verify_crc(&raw, &segments, &payload, header.crc));
        found.push((header, segments, payload));
    }
    found
}

#[test]
fn the_checksum_has_its_known_values() {
    assert_eq!(crc32(b"OggS"), 0x5fb0_a94f);
    assert_eq!(crc32(b"123456789"), 0x89a1_897f);
}

#[test]
fn numbers_are_stored_low_byte_first() {
    let mut v = Vec::new();
    push_le16(0x1234, &mut v);
    push_le32(0x89ab_cdef, &mut v);
    push_le64(0x0102_0304_0506_0708, &mut v);
    assert_eq!(v[..6], [0x34, 0x12, 0xef, 0xcd, 0xab, 0x89]);
    assert_eq!(le16_at(&v, 0), 0x1234);
    assert_eq!(le32_at(&v, 2), 0x89ab_cdef);
    assert_eq!(le64_at(&v, 6), 0x0102_0304_0506_0708);
}

#[test]
fn a_stream_holds_its_headers_and_every_packet() {
    let head = OpusHead::new(2, 48_000).unwrap();
    let tags = OpusTags::new();
    let mut w = OggOpusWriter::with_serial(Vec::new(), head.clone(), tags.clone(), 7).unwrap();
    assert_eq!(w.serial(), 7);
    let first = vec![0xfc; 300];
    let second = vec![0xfc; 255];
    w.write_packet(&first).unwrap();
    w.write_packet(&second).unwrap();
    let stream = w.finish().unwrap();
    let p = pages(&stream);
    assert_eq!(p.len(), 3);
    assert!(p[0].0.is_bos() && p[2].0.is_eos());
    assert_eq!(p[0].2, head.to_packet());
    assert_eq!(p[1].2, tags.to_packet());
    assert_eq!(p[2].1, vec![255, 45, 255, 0]);
    assert_eq!(p[2].0.granule_position, 1920);
    assert_eq!(p[2].0.sequence, 2);
    let mut both = first;
    both.extend_from_slice(&second);
    assert_eq!(p[2].2, both);
}

#[test]
fn a_small_page_target_gives_each_packet_its_page() {
    let head = OpusHead::new(1, 48_000).unwrap();
    let mut w = OggOpusWriter::new(Vec::new(), head).unwrap();
    w.set_page_target(1);
    for _ in 0..3 {
        w.write_packet_with_duration(&[0xfc, 1], 960).unwrap();
    }
    let stream = w.finish().unwrap();
    let granules: Vec<i64> = pages(&stream)
        .iter()
        .map(|p| p.0.granule_position)
        .collect();
    assert_eq!(granules, vec![0, 0, 960, 1920, 2880]);
}

#[test]
fn a_long_packet_continues_on_the_next_page() {
    let head = OpusHead::new(1, 48_000).unwrap();
    let mut w = OggOpusWriter::new(Vec::new(), head).unwrap();
    let packet = vec![0xfc; 255 * 255 + 10];
    w.write_packet_with_duration(&packet, 960).unwrap();
    let stream = w.finish().unwrap();
    let p = pages(&stream);
    assert_eq!(p.len(), 4);
    assert_eq!(p[2].0.granule_position, -1);
    assert!(p[3].0.is_continued());
    assert_eq!(p[3].1, vec![10]);
}

#[test]
fn unfit_packets_are_refused() {
    let head = OpusHead::new(1, 48_000).unwrap();
    let mut w = OggOpusWriter::new(Vec::new(), head).unwrap();
    assert!(matches!(
        w.write_packet_with_duration(&[], 960),
        Err(Error::InvalidArgument(_))
    ));
    assert!(matches!(
        w.write_packet_with_duration(&[0xfc], 5761),
        Err(Error::InvalidArgument(_))
    ));
    assert!(matches!(w.write_packet(&[]), Err(Error::InvalidPacket(_))));
    w.finish_in_place();
    assert!(matches!(
        w.write_packet(&[0xfc]),
        Err(Error::InvalidArgument(_))
    ));
}

#[test]
fn the_serial_follows_the_headers_and_is_not_zero() {
    let a = OggOpusWriter::new(Vec::new(), OpusHead::new(1, 48_000).unwrap()).unwrap();
    let b = OggOpusWriter::new(Vec::new(), OpusHead::new(1, 48_000).unwrap()).unwrap();
    let c = OggOpusWriter::new(Vec::new(), OpusHead::new(2, 48_000).unwrap()).unwrap();
    assert_ne!(a.serial(), 0);
    assert_eq!(a.serial(), b.serial());
    assert_ne!(a.serial(), c.serial());
}

#[test]
fn text_that_is_not_utf8_is_mended() {
    let mut p = OpusTags::new().to_packet();
    let vendor = le32_at(&p, 8) as usize;
    p.truncate(12 + vendor);
    push_le32(1, &mut p);
    push_le32(4, &mut p);
    p.extend_from_slice(b"A=\xffb");
    let tags = OpusTags::parse(&p).unwrap();
    assert_eq!(tags.comments, vec!["A=\u{fffd}b".to_string()]);
    assert_eq!(tags.get("a"), Some("\u{fffd}b"));
}

#[test]
fn every_value_of_a_name_is_found() {
    let mut tags = OpusTags::new();
    tags.push("artist", "One").unwrap();
    tags.push("TITLE", "Song").unwrap();
    tags.push("ARTIST", "Two").unwrap();
    assert_eq!(tags.get_all("Artist"), vec!["One", "Two"]);
    assert_eq!(tags.get("artist"), Some("One"));
}

#[test]
fn a_head_follows_the_encoder() {
    let mono = EncoderInfo {
        channels: 1,
        sample_rate: 16_000,
        lookahead: 104,
    };
    let head = OpusHead::for_encoder(&mono, 44_100);
    assert_eq!(head.pre_skip, 312);
    assert_eq!(head.channel_count, 1);
    assert_eq!(head.input_sample_rate, 44_100);
    let layout = ChannelLayout {
        nb_channels: 3,
        nb_streams: 2,
        nb_coupled_streams: 1,
        mapping: vec![0, 2, 1],
        mapping_family: 1,
    };
    let surround = MultistreamInfo {
        layout: layout.clone(),
        first_stream: mono,
    };
    let head = OpusHead::for_ms_encoder(&surround, 48_000);
    assert_eq!(head.pre_skip, 312);
    assert_eq!(head.channel_mapping, vec![0, 2, 1]);
    assert_eq!(OpusHead::for_layout(&layout, 48_000).stream_count, 2);
}

#[test]
fn a_head_makes_its_decoder() {
    let mut head = OpusHead::new(2, 48_000).unwrap();
    head.output_gain_q8 = -256;
    let d = head.decoder(16_000).unwrap();
    assert_eq!(d.sample_rate(), 16_000);
    assert_eq!(d.channels(), 2);
    assert_eq!(d.gain_q8, -256);
    assert!(matches!(
        head.decoder(44_100),
        Err(Error::InvalidArgument("Invalid sampling rate"))
    ));
    head.mapping_family = 1;
    assert!(matches!(head.decoder(48_000), Err(Error::InvalidArgument(_))));
    assert!(OpusHead::new(0, 48_000).is_err());
    assert!(OpusHead::new(3, 48_000).is_err());
}

#[test]
fn foreign_comments_write_back_byte_for_byte() {
    let mut p = b"OpusTags".to_vec();
    push_le32(5, &mut p);
    p.extend_from_slice(b"other");
    push_le32(3, &mut p);
    for c in ["no separator", "=", "T\u{ef}tle=\u{266b}"] {
        push_le32(c.len() as u32, &mut p);
        p.extend_from_slice(c.as_bytes());
    }
    assert_eq!(OpusTags::parse(&p).unwrap().to_packet(), p);
    let read = p.clone();
    p.extend_from_slice(&[0, 1, 2]);
    assert_eq!(OpusTags::parse(&p).unwrap().to_packet(), read);
}

#[test]
fn equal_calls_write_equal_bytes() {
    let mut made = Vec::new();
    for _ in 0..2 {
        let head = OpusHead::new(1, 48_000).unwrap();
        let mut w = OggOpusWriter::with_tags(Vec::new(), head, OpusTags::new()).unwrap();
        for i in 0..300usize {
            let mut packet = vec![0xf8];
            packet.resize(1 + i * 3, i as u8);
            w.write_packet(&packet).unwrap();
        }
        made.push(w.finish().unwrap());
    }
    assert_eq!(made[0], made[1]);
    let p = pages(&made[0]);
    assert_eq!(p.last().unwrap().0.granule_position, 300 * 960);
    assert!(p.last().unwrap().0.header_type & 4 != 0);
    assert!(p[..p.len() - 1].iter().all(|x| x.0.header_type & 4 == 0));
}

#[test]
fn a_stream_without_audio_still_ends() {
    let head = OpusHead::new(1, 48_000).unwrap();
    let w = OggOpusWriter::new(Vec::new(), head).unwrap();
    let p = pages(&w.finish().unwrap());
    assert_eq!(p.len(), 3);
    assert_eq!(p[2].0.header_type, 4);
    assert_eq!(p[2].0.granule_position, -1);
    assert_eq!(p[2].1, vec![0]);
    assert!(p[2].2.is_empty());
}

#[test]
fn values_are_those_under_the_name() {
    let tags = OpusTags {
        vendor: String::new(),
        comments: ["no separator", "a=1=2", "=x", "A=", "ab=3", "a=1=2"]
            .iter()
            .map(|c| c.to_string())
            .collect(),
    };
    assert_eq!(tags.get_all("a"), vec!["1=2", "", "1=2"]);
    assert_eq!(tags.get_all(""), vec!["x"]);
    assert_eq!(tags.get("b"), None);
}

#[test]
fn every_page_has_the_samples_of_the_packets_that_end_by_it() {
    let head = OpusHead::new(1, 48_000).unwrap();
    let mut tags = OpusTags::new();
    // Comments too long for one page.
    tags.push("LONG", &"x".repeat(70_000)).unwrap();
    let mut w = OggOpusWriter::with_tags(Vec::new(), head, tags).unwrap();
    let mut lasted = vec![0i64, 0];
    for (len, samples) in [(300usize, 960u32), (140_000, 480), (10, 120), (66_000, 2880), (5, 0)] {
        assert!(w.has_room_for(len));
        w.write_packet_with_duration(&vec![0xf8; len], samples).unwrap();
        lasted.push(i64::from(samples));
    }
    let p = pages(&w.finish().unwrap());
    let mut ended = 0usize;
    for (header, segments, _) in &p {
        let here = segments.iter().filter(|&&s| s < 255).count();
        ended += here;
        let expected: i64 = if here == 0 {
            -1
        } else {
            lasted[..ended].iter().sum()
        };
        assert_eq!(header.granule_position, expected);
    }
    assert_eq!(ended, lasted.len());
    assert!(p.iter().any(|x| x.0.granule_position == -1));
}
