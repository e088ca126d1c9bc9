//! Packets taken apart and put together.

use opus_pure::error::Error;
use opus_pure::repacketizer::{
    encode_size, pad_packet, parse_packet, parse_size, take_self_delimited,
    take_self_delimited_into, unpad_packet, Repacketizer,
};

#[test]
fn sizes_come_back() {
    for size in [0usize, 1, 251, 252, 253, 255, 1000, 1275] {
        let mut bytes = Vec::new();
        encode_size(size, &mut bytes);
        assert_eq!(parse_size(&bytes), Some((bytes.len(), size)));
    }
    let mut bytes = Vec::new();
    encode_size(1275, &mut bytes);
    assert_eq!(bytes, vec![255, 255]);
    assert_eq!(parse_size(&[]), None);
    assert_eq!(parse_size(&[252]), None);
}

#[test]
fn unpadding_twice_changes_nothing_more() {
    let mut p = vec![0x08, 1, 2, 3];
    pad_packet(&mut p, 300).unwrap();
    assert_eq!(p.len(), 300);
    let once = unpad_packet(&p).unwrap();
    assert_eq!(once, vec![0x08, 1, 2, 3]);
    assert_eq!(unpad_packet(&once).unwrap(), once);
}

#[test]
fn padding_cannot_shrink() {
    let mut p = vec![0x08, 1, 2, 3];
    assert!(matches!(
        pad_packet(&mut p, 2),
        Err(Error::InvalidArgument(_))
    ));
    assert!(matches!(unpad_packet(&[]), Err(Error::InvalidArgument(_))));
}

#[test]
fn split_packets_merge_to_what_they_were() {
    let mut whole = Repacketizer::new();
    for frame in [vec![0x08, 1, 2], vec![0x08, 3], vec![0x08, 4, 5, 6]] {
        whole.cat(&frame).unwrap();
    }
    let packet = whole.out().unwrap();
    let mut again = Repacketizer::new();
    again.cat(&whole.out_range(0, 1).unwrap()).unwrap();
    again.cat(&whole.out_range(1, 3).unwrap()).unwrap();
    assert_eq!(again.out().unwrap(), packet);
    let mut appended = Vec::new();
    again.out_into(&mut appended).unwrap();
    assert_eq!(appended, packet);
    again.clear();
    assert_eq!(again.nb_frames(), 0);
}

#[test]
fn only_like_frames_merge_and_only_up_to_120_ms() {
    let mut rp = Repacketizer::new();
    rp.cat(&[0x08, 1]).unwrap();
    assert!(matches!(rp.cat(&[0x10, 1]), Err(Error::InvalidPacket(_))));
    for _ in 0..5 {
        rp.cat(&[0x08, 1]).unwrap();
    }
    assert_eq!(rp.nb_frames(), 6);
    assert!(matches!(rp.cat(&[0x08, 1]), Err(Error::InvalidPacket(_))));
    assert!(rp.out_range(3, 3).is_err());
    assert!(rp.out_range(0, 7).is_err());
}

#[test]
fn self_delimited_framing_is_taken_off_again() {
    let mut rp = Repacketizer::new();
    rp.cat(&[0x08, 1, 2, 3]).unwrap();
    let mut stream = rp.out_self_delimited().unwrap();
    let used = stream.len();
    stream.extend_from_slice(&[9, 9, 9]);
    let (packet, taken) = take_self_delimited(&stream).unwrap();
    assert_eq!(packet, vec![0x08, 1, 2, 3]);
    assert_eq!(taken, used);
    let mut out = vec![7];
    assert_eq!(take_self_delimited_into(&stream, &mut out).unwrap(), used);
    assert!(take_self_delimited(&[]).is_err());
}

#[test]
fn malformed_layouts_are_refused() {
    for bad in [
        &[][..],
        &[0x09, 1][..],
        &[0x0a, 5, 1][..],
        &[0x0b][..],
        &[0x0b, 0][..],
        &[0x0b, 0x42, 200][..],
    ] {
        assert!(matches!(
            parse_packet(bad, false),
            Err(Error::InvalidPacket(_))
        ));
    }
    let mut long = vec![0x08];
    long.extend_from_slice(&[0; 1276]);
    assert!(parse_packet(&long, false).is_err());
    long.pop();
    assert_eq!(parse_packet(&long, false).unwrap().1, vec![(1, 1275)]);
}

#[test]
fn unpadding_gives_the_shortest_packet() {
    // Two equal frames, in every framing that can hold them.
    let packets = [
        vec![0x09, 1, 2],
        vec![0x0a, 1, 1, 2],
        vec![0x0b, 0x02, 1, 2],
        vec![0x0b, 0x82, 1, 1, 2],
        vec![0x0b, 0x42, 1, 1, 2, 0],
    ];
    for p in &packets {
        assert_eq!(unpad_packet(p).unwrap(), packets[0]);
    }
}
