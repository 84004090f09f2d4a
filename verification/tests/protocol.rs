use bytes::Bytes;
use irohsion::protocol::{
    decode_fec_frame, decode_packet, decode_repair_request, encode_fec_frame, encode_packet,
    encode_repair_request, DecodeError, FecDecodeError, FecFrame, PackedHeaderTail, PacketHeader,
    RepairDecodeError, RepairRequest, FEC_SEQUENCE, HEADER_LEN, MAX_MEDIA_SEQUENCE, MAX_SEQUENCE,
    REPAIR_ALL_FRAGMENTS_MASK,
};
use irohsion::receive::{parse_frame, FrameError, ReceivedFrame};
use irohsion::sequence::{next_sequence, sequence_after};

#[test]
fn roundtrip() {
    let header = PacketHeader {
        sequence: 42,
        fragment: 0,
        fragments: 1,
    };
    let payload = b"abc123";

    let encoded = encode_packet(header, payload);
    assert_eq!(encoded.len(), HEADER_LEN + payload.len());

    let decoded = decode_packet(&encoded).expect("packet decodes");
    assert_eq!(decoded.header, header);
    assert_eq!(&decoded.payload[..], payload);
}

#[test]
fn rejects_invalid_fragment_metadata() {
    let packet = PackedHeaderTail::new()
        .with_sequence(42)
        .with_fragment(1)
        .with_fragments(1)
        .into_bytes();

    assert!(decode_packet(&packet).is_err());
}

#[test]
fn repair_request_roundtrip() {
    let request = RepairRequest {
        sequence: 123,
        missing_mask: 0b0000_0101,
    };

    let encoded = encode_repair_request(request);
    assert_eq!(decode_repair_request(&encoded), Ok(request));
}

#[test]
fn repair_request_rejects_invalid_masks() {
    let zero_mask = [0, 0, 0, 0, 0];
    assert_eq!(
        decode_repair_request(&zero_mask),
        Err(RepairDecodeError::InvalidMissingMask { missing_mask: 0 })
    );

    let invalid_mask = [0, 0, 0, 0, REPAIR_ALL_FRAGMENTS_MASK << 1];
    assert!(matches!(
        decode_repair_request(&invalid_mask),
        Err(RepairDecodeError::InvalidMissingMask { .. })
    ));
}

#[test]
fn fec_frame_roundtrip() {
    let frame = FecFrame {
        base_sequence: 44,
        payload_lengths: vec![3, 5],
        parity: Bytes::from_static(b"abcde"),
    };

    let encoded = encode_fec_frame(&frame);
    assert_eq!(decode_fec_frame(&encoded), Ok(frame));
}

#[test]
fn header_packs_three_fields_into_four_bytes() {
    let packet = encode_packet(
        PacketHeader {
            sequence: 0x0102_0304 & MAX_SEQUENCE,
            fragment: 2,
            fragments: 5,
        },
        b"x",
    );
    let word = u32::from_le_bytes([packet[0], packet[1], packet[2], packet[3]]);
    assert_eq!(u64::from(word) & MAX_SEQUENCE, 0x0102_0304);
    assert_eq!((word >> 26) & 7, 2);
    assert_eq!(word >> 29, 5);
    assert_eq!(&packet[4..], b"x");
}

#[test]
fn short_packets_are_rejected_with_their_length() {
    assert_eq!(
        decode_packet(&[1, 2, 3]).map(|packet| packet.header),
        Err(DecodeError::TooShort { actual: 3 })
    );
    assert_eq!(
        decode_packet(&[]).unwrap_err().to_string(),
        DecodeError::TooShort { actual: 0 }.to_string()
    );
}

#[test]
fn fragment_beyond_its_count_is_rejected() {
    let bytes = PackedHeaderTail::new()
        .with_sequence(7)
        .with_fragment(3)
        .with_fragments(2)
        .into_bytes();
    assert_eq!(
        decode_packet(&bytes).map(|packet| packet.header),
        Err(DecodeError::InvalidFragment {
            fragment: 3,
            fragments: 2
        })
    );
}

#[test]
fn repair_request_has_an_exact_length_and_a_sequence_in_range() {
    assert_eq!(
        decode_repair_request(&[0, 0, 0]),
        Err(RepairDecodeError::InvalidLength { actual: 3 })
    );
    assert_eq!(
        decode_repair_request(&[0xff, 0xff, 0xff, 0xff, 1]),
        Err(RepairDecodeError::InvalidSequence {
            sequence: 0xffff_ffff
        })
    );
    assert_eq!(
        &encode_repair_request(RepairRequest {
            sequence: 0x0203,
            missing_mask: 9
        })[..],
        &[0x03, 0x02, 0, 0, 9]
    );
}

#[test]
fn fec_frames_are_told_from_media_packets() {
    let media = encode_packet(
        PacketHeader {
            sequence: 5,
            fragment: 0,
            fragments: 1,
        },
        b"payload",
    );
    assert!(matches!(
        decode_fec_frame(&media),
        Err(FecDecodeError::InvalidHeader(header)) if header.sequence == 5
    ));
    assert!(matches!(
        decode_fec_frame(&[1]),
        Err(FecDecodeError::InvalidPacket(DecodeError::TooShort { actual: 1 }))
    ));
}

#[test]
fn broken_fec_frames_are_rejected() {
    let frame = FecFrame {
        base_sequence: 3,
        payload_lengths: vec![1, 2],
        parity: Bytes::from_static(b"zz"),
    };
    let good = encode_fec_frame(&frame);
    assert!(decode_fec_frame(&good).is_ok());

    let truncated = &good[..HEADER_LEN + 2];
    assert!(matches!(
        decode_fec_frame(truncated),
        Err(FecDecodeError::TooShort { .. })
    ));

    let mut magic = good.to_vec();
    magic[HEADER_LEN] ^= 0xff;
    assert_eq!(decode_fec_frame(&magic), Err(FecDecodeError::InvalidMagic));
}

#[test]
fn frames_are_parsed_by_their_sequence() {
    let media = encode_packet(
        PacketHeader {
            sequence: 9,
            fragment: 1,
            fragments: 2,
        },
        b"half",
    );
    match parse_frame(&media, "peer".to_string(), 4) {
        Ok(ReceivedFrame::Packet(packet)) => {
            assert_eq!(packet.remote, "peer");
            assert_eq!(packet.connection_id, 4);
            assert_eq!(packet.header.sequence, 9);
            assert_eq!(packet.payload, b"half");
        }
        other => panic!("{other:?}"),
    }

    let fec = encode_fec_frame(&FecFrame {
        base_sequence: 1,
        payload_lengths: vec![2, 2],
        parity: Bytes::from_static(b"ab"),
    });
    assert_eq!(decode_packet(&fec).unwrap().header.sequence, FEC_SEQUENCE);
    assert!(matches!(
        parse_frame(&fec, "peer".to_string(), 4),
        Ok(ReceivedFrame::Fec(_))
    ));
    assert!(matches!(
        parse_frame(&[0], "peer".to_string(), 4),
        Err(FrameError::Packet(_))
    ));
}

#[test]
fn sequences_wrap_after_the_last_media_sequence() {
    assert_eq!(next_sequence(0), 1);
    assert_eq!(next_sequence(MAX_MEDIA_SEQUENCE), 0);
    assert_eq!(sequence_after(MAX_MEDIA_SEQUENCE - 1, 3), 1);
    assert_eq!(MAX_MEDIA_SEQUENCE + 1, FEC_SEQUENCE);
}
