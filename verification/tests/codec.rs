use packet_codec::{make_packet, parser, DecodeError, EncodeError};

#[test]
fn test_parser() {
    let packet: Vec<u8> = vec![
        0x45, 0xA5, 0x22, 0x32, 0xA5, 0x5A, 0x80, 0x04, 0xA0, 0x01, 0x23, 0xAB, 0xCD, 0x44, 0x04,
    ];
    let (main_data, head, tail) = parser(&packet, 0).unwrap();

    assert_eq!(main_data, vec![0x01, 0x23, 0xAB, 0xCD]);
    assert_eq!(head, 4);
    assert_eq!(tail, 14);
}

#[test]
fn make_packet_exact_frame_bytes() {
    let mut data: Vec<u8> = vec![0x01, 0x23, 0xAB, 0xCD];
    let frame = make_packet(&mut data).unwrap();
    assert_eq!(
        frame,
        vec![0xA5, 0x5A, 0x80, 0x04, 0xA0, 0x01, 0x23, 0xAB, 0xCD, 0x44, 0x04]
    );
    // The payload is only read, never consumed.
    assert_eq!(data, vec![0x01, 0x23, 0xAB, 0xCD]);
}

#[test]
fn round_trip_single_byte() {
    let mut data: Vec<u8> = vec![0x7E];
    let frame = make_packet(&mut data).unwrap();
    assert_eq!(frame.len(), 8);
    let (main_data, head, tail) = parser(&frame, 0).unwrap();
    assert_eq!(main_data, data);
    assert_eq!(head, 0);
    assert_eq!(tail, 7);
}

#[test]
fn round_trip_max_payload() {
    let mut data: Vec<u8> = (0..127).map(|i| (i * 3 + 1) as u8).collect();
    let frame = make_packet(&mut data).unwrap();
    assert_eq!(frame.len(), 134);
    let (main_data, head, tail) = parser(&frame, 0).unwrap();
    assert_eq!(main_data, data);
    assert_eq!(head, 0);
    assert_eq!(tail, 133);
}

#[test]
fn encode_empty_payload_fails() {
    let mut data: Vec<u8> = vec![];
    assert_eq!(make_packet(&mut data), Err(EncodeError::EmptyPayload));
}

#[test]
fn encode_oversized_payload_fails() {
    let mut data: Vec<u8> = vec![0xAA; 128];
    assert_eq!(make_packet(&mut data), Err(EncodeError::PayloadTooLarge));
    assert_eq!(data.len(), 128);
}

#[test]
fn encode_boundary_payload_succeeds() {
    let mut data: Vec<u8> = vec![0x55; 127];
    let frame = make_packet(&mut data).unwrap();
    assert_eq!(frame[2], 0x80);
    assert_eq!(frame[3], 127);
    // XOR of an odd count of equal bytes is that byte.
    assert_eq!(frame[5 + 127], 0x55);
    assert_eq!(frame[6 + 127], 0x04);
}

#[test]
fn noise_around_frame_is_skipped() {
    let mut data: Vec<u8> = vec![0x10, 0x20, 0x30];
    let frame = make_packet(&mut data).unwrap();
    let mut buffer: Vec<u8> = vec![0x45, 0xA5, 0x22, 0x32, 0xFF];
    let head_expected = buffer.len();
    buffer.extend_from_slice(&frame);
    buffer.extend_from_slice(&[0x00, 0xA5, 0x99]);
    let (main_data, head, tail) = parser(&buffer, 0).unwrap();
    assert_eq!(main_data, data);
    assert_eq!(head, head_expected);
    assert_eq!(tail, head_expected + frame.len() - 1);
}

#[test]
fn scan_resumes_past_consumed_frame() {
    let mut first: Vec<u8> = vec![0x11, 0x22];
    let mut second: Vec<u8> = vec![0x33];
    let mut buffer = make_packet(&mut first).unwrap();
    buffer.extend_from_slice(&make_packet(&mut second).unwrap());
    let (data1, head1, tail1) = parser(&buffer, 0).unwrap();
    assert_eq!(data1, first);
    assert_eq!(head1, 0);
    let (data2, head2, _) = parser(&buffer, tail1 + 1).unwrap();
    assert_eq!(data2, second);
    assert_eq!(head2, tail1 + 1);
}

#[test]
fn payload_bit_flips_break_checksum() {
    let mut data: Vec<u8> = vec![0x01, 0x23, 0xAB, 0xCD];
    let frame = make_packet(&mut data).unwrap();
    for byte_index in 0..data.len() {
        for bit in 0..8 {
            let mut corrupt = frame.clone();
            corrupt[5 + byte_index] ^= 1u8 << bit;
            assert_eq!(parser(&corrupt, 0), Err(DecodeError::ChecksumMismatch));
        }
    }
}

#[test]
fn truncated_frame_fails() {
    let mut data: Vec<u8> = vec![0x01, 0x23, 0xAB, 0xCD];
    let mut frame = make_packet(&mut data).unwrap();
    frame.pop();
    assert_eq!(parser(&frame, 0), Err(DecodeError::TruncatedPayload));

    // With a one-byte payload the truncated frame has only 7 bytes left,
    // which already falls at the minimum-size precheck.
    let mut tiny: Vec<u8> = vec![0x7F];
    let mut small_frame = make_packet(&mut tiny).unwrap();
    small_frame.pop();
    assert_eq!(parser(&small_frame, 0), Err(DecodeError::BufferTooShort));
}

#[test]
fn corrupt_footer_fails() {
    let mut data: Vec<u8> = vec![0x01, 0x23, 0xAB, 0xCD];
    let mut frame = make_packet(&mut data).unwrap();
    let last = frame.len() - 1;
    frame[last] = 0x05;
    assert_eq!(parser(&frame, 0), Err(DecodeError::MissingFooter));
}

#[test]
fn clear_length_flag_fails() {
    // A valid frame except that the length field's top bit is 0.
    let packet: Vec<u8> = vec![0xA5, 0x5A, 0x00, 0x01, 0xA0, 0x23, 0x23, 0x04];
    assert_eq!(parser(&packet, 0), Err(DecodeError::MissingLengthFlag));
}

#[test]
fn offset_out_of_range_fails() {
    let packet: Vec<u8> = vec![0xA5, 0x5A, 0x80, 0x01, 0xA0, 0x23, 0x23, 0x04];
    assert_eq!(parser(&packet, 8), Err(DecodeError::OffsetOutOfRange));
    assert_eq!(parser(&packet, 100), Err(DecodeError::OffsetOutOfRange));
    let empty: Vec<u8> = vec![];
    assert_eq!(parser(&empty, 0), Err(DecodeError::OffsetOutOfRange));
}

#[test]
fn short_buffer_fails() {
    // 7 bytes are one short of the smallest frame.
    let packet: Vec<u8> = vec![0xA5, 0x5A, 0x80, 0x01, 0xA0, 0x23, 0x23];
    assert_eq!(parser(&packet, 0), Err(DecodeError::BufferTooShort));
    // The same precheck applies to what remains after the offset.
    let longer: Vec<u8> = vec![0x00, 0xA5, 0x5A, 0x80, 0x01, 0xA0, 0x23, 0x23, 0x04, 0x00];
    assert_eq!(parser(&longer, 3), Err(DecodeError::BufferTooShort));
}

#[test]
fn header_not_found_fails() {
    let packet: Vec<u8> = vec![0x00, 0x11, 0x22, 0x33, 0x44, 0x55, 0x66, 0x77, 0x88];
    assert_eq!(parser(&packet, 0), Err(DecodeError::HeaderNotFound));
    // A lone first header byte at the very end is not a header.
    let trailing: Vec<u8> = vec![0x00, 0x11, 0x22, 0x33, 0x44, 0x55, 0x66, 0x77, 0xA5];
    assert_eq!(parser(&trailing, 0), Err(DecodeError::HeaderNotFound));
}

#[test]
fn header_near_end_is_truncated() {
    let packet: Vec<u8> = vec![0x00, 0x00, 0x00, 0x00, 0x00, 0x00, 0xA5, 0x5A, 0x80];
    assert_eq!(parser(&packet, 0), Err(DecodeError::TruncatedLengthOrMarker));
}

#[test]
fn zero_length_frame_fails() {
    let packet: Vec<u8> = vec![0xA5, 0x5A, 0x80, 0x00, 0xA0, 0x00, 0x00, 0x00, 0x00];
    assert_eq!(parser(&packet, 0), Err(DecodeError::EmptyPayload));
}

#[test]
fn wrong_marker_fails() {
    let packet: Vec<u8> = vec![0xA5, 0x5A, 0x80, 0x01, 0xA1, 0x23, 0x23, 0x04];
    assert_eq!(parser(&packet, 0), Err(DecodeError::MissingMarker));
}

#[test]
fn payload_beyond_buffer_fails() {
    // The length field claims 5 payload bytes, but only 3 bytes follow the marker.
    let packet: Vec<u8> = vec![0xA5, 0x5A, 0x80, 0x05, 0xA0, 0x01, 0x02, 0x03];
    assert_eq!(parser(&packet, 0), Err(DecodeError::TruncatedPayload));
}

#[test]
fn checksum_mismatch_on_stored_byte() {
    // The checksum byte itself disagrees with the payload.
    let packet: Vec<u8> = vec![0xA5, 0x5A, 0x80, 0x01, 0xA0, 0x23, 0x24, 0x04];
    assert_eq!(parser(&packet, 0), Err(DecodeError::ChecksumMismatch));
}
