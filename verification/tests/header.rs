//! The two header packets of a stream.

use opus_pure::error::Error;
use opus_pure::ogg::header::OpusHead;
use opus_pure::ogg::tags::OpusTags;

#[test]
fn head_round_trips_family_0() {
    let head = OpusHead::new(2, 48_000).unwrap();
    assert_eq!(OpusHead::parse(&head.to_packet()).unwrap(), head);
}

#[test]
fn head_round_trips_family_1_surround() {
    let head = OpusHead {
        channel_count: 6,
        pre_skip: 312,
        input_sample_rate: 48_000,
        output_gain_q8: -512,
        mapping_family: 1,
        stream_count: 4,
        coupled_count: 2,
        channel_mapping: vec![0, 4, 1, 2, 3, 5],
    };
    let parsed = OpusHead::parse(&head.to_packet()).unwrap();
    assert_eq!(parsed, head);
    assert_eq!(f32::from(parsed.output_gain_q8) / 256.0, -2.0);
}

#[test]
fn head_rejects_malformed_input() {
    assert!(matches!(
        OpusHead::parse(b"nope"),
        Err(Error::InvalidStream(_))
    ));

    let mut p = OpusHead::new(2, 48_000).unwrap().to_packet();
    p[8] = 0x10;
    assert!(matches!(OpusHead::parse(&p), Err(Error::InvalidStream(_))));

    let mut p = OpusHead::new(2, 48_000).unwrap().to_packet();
    p[9] = 0;
    assert!(matches!(OpusHead::parse(&p), Err(Error::InvalidStream(_))));

    let mut p = OpusHead::new(2, 48_000).unwrap().to_packet();
    p[9] = 3;
    assert!(matches!(OpusHead::parse(&p), Err(Error::InvalidStream(_))));
}

#[test]
fn head_accepts_unknown_minor_version() {
    let mut p = OpusHead::new(1, 16_000).unwrap().to_packet();
    p[8] = 0x0f;
    assert!(OpusHead::parse(&p).is_ok());
}

#[test]
fn head_rejects_mapping_that_names_a_missing_stream() {
    let head = OpusHead {
        channel_count: 2,
        pre_skip: 312,
        input_sample_rate: 48_000,
        output_gain_q8: 0,
        mapping_family: 1,
        stream_count: 1,
        coupled_count: 0,
        channel_mapping: vec![0, 7],
    };
    assert!(matches!(
        OpusHead::parse(&head.to_packet()),
        Err(Error::InvalidStream(_))
    ));
}

#[test]
fn head_rejects_more_coupled_than_streams() {
    let head = OpusHead {
        channel_count: 2,
        pre_skip: 312,
        input_sample_rate: 48_000,
        output_gain_q8: 0,
        mapping_family: 1,
        stream_count: 1,
        coupled_count: 2,
        channel_mapping: vec![0, 1],
    };
    assert!(matches!(
        OpusHead::parse(&head.to_packet()),
        Err(Error::InvalidStream(_))
    ));
}

#[test]
fn tags_round_trip() {
    let mut tags = OpusTags::new();
    tags.push("TITLE", "A Song").unwrap();
    tags.push("ARTIST", "Someone").unwrap();
    let parsed = OpusTags::parse(&tags.to_packet()).unwrap();
    assert_eq!(parsed, tags);
    assert_eq!(parsed.get("title"), Some("A Song"));
    assert_eq!(parsed.get("MISSING"), None);
}

#[test]
fn tags_reject_invalid_names() {
    let mut tags = OpusTags::new();
    assert!(tags.push("BAD=NAME", "x").is_err());
    assert!(tags.push("", "x").is_err());
    assert!(tags.push("nul\0", "x").is_err());
    assert!(tags.push("Ünicode", "x").is_err());
    assert!(tags.comments.is_empty());
}

#[test]
fn tags_reject_oversized_lengths() {
    let mut p = OpusTags::new().to_packet();
    p[8..12].copy_from_slice(&u32::MAX.to_le_bytes());
    assert!(matches!(OpusTags::parse(&p), Err(Error::InvalidStream(_))));

    let mut p = OpusTags::new().to_packet();
    let vlen = u32::from_le_bytes(p[8..12].try_into().unwrap()) as usize;
    let at = 12 + vlen;
    p[at..at + 4].copy_from_slice(&1_000_000u32.to_le_bytes());
    assert!(matches!(OpusTags::parse(&p), Err(Error::InvalidStream(_))));
}

#[test]
fn tags_preserve_unknown_entries_verbatim() {
    let tags = OpusTags {
        vendor: "someone else".into(),
        comments: vec!["WEIRD".into(), "X=y=z".into(), "=empty-name".into()],
    };
    assert_eq!(OpusTags::parse(&tags.to_packet()).unwrap(), tags);
}

#[test]
fn later_minor_versions_read_alike() {
    let mut head = OpusHead::new(2, 44_100).unwrap();
    head.output_gain_q8 = -300;
    let mut p = head.to_packet();
    for version in 0..16u8 {
        p[8] = version;
        assert_eq!(OpusHead::parse(&p).unwrap(), head);
        p.push(version);
        assert_eq!(OpusHead::parse(&p).unwrap(), head);
    }
    p[8] = 16;
    assert!(OpusHead::parse(&p).is_err());
}
