use sensirion_hdlc::{decode, encode, HDLCError};

#[test]
fn encode_start_measumement() {
    let mosi_data = [0x00, 0x00, 0x02, 0x01, 0x03, 0xf9];
    let expected = [0x7e, 0x00, 0x00, 0x02, 0x01, 0x03, 0xf9, 0x7e];
    let encoded: Vec<u8> = encode(&mosi_data, 20).unwrap();
    assert_eq!(encoded[0..encoded.len()], expected);
}

#[test]
fn encode_test() {
    let mosi_data = [0x00, 0x01, 0x00, 0xfe];
    let expected = [0x7e, 0x00, 0x01, 0x00, 0xfe, 0x7e];
    let encoded: Vec<u8> = encode(&mosi_data, 15).unwrap();
    assert_eq!(encoded[0..encoded.len()], expected);
}

#[test]
fn decode_test() {
    let expected = [0x00, 0x01, 0x00, 0xfe];
    let mosi_data = [0x7e, 0x00, 0x01, 0x00, 0xfe, 0x7e];
    let encoded: Vec<u8> = decode(&mosi_data, 10).unwrap();
    assert_eq!(encoded[0..encoded.len()], expected);
}

#[test]
fn encode_escapes_escape_marker() {
    let encoded = encode(&[0x7d], 8).unwrap();
    assert_eq!(encoded, vec![0x7e, 0x7d, 0x5d, 0x7e]);
    let decoded = decode(&encoded, 8).unwrap();
    assert_eq!(decoded, vec![0x7d]);
}

#[test]
fn encode_escapes_boundary_marker() {
    let encoded = encode(&[0x7e], 8).unwrap();
    assert_eq!(encoded, vec![0x7e, 0x7d, 0x5e, 0x7e]);
    let decoded = decode(&encoded, 8).unwrap();
    assert_eq!(decoded, vec![0x7e]);
}

#[test]
fn encode_escapes_control_values() {
    let encoded = encode(&[0x11, 0x13], 12).unwrap();
    assert_eq!(encoded, vec![0x7e, 0x7d, 0x31, 0x7d, 0x33, 0x7e]);
    let decoded = decode(&encoded, 12).unwrap();
    assert_eq!(decoded, vec![0x11, 0x13]);
}

#[test]
fn round_trip_mixed_payload() {
    let payload = [0x01, 0x7d, 0x50, 0x7e, 0x11, 0x13, 0xff];
    let encoded = encode(&payload, 32).unwrap();
    let decoded = decode(&encoded, 32).unwrap();
    assert_eq!(decoded, payload.to_vec());
}

#[test]
fn encode_leaves_no_boundary_marker_inside() {
    let payload = [0x7e, 0x00, 0x7e, 0x7d, 0x13];
    let encoded = encode(&payload, 24).unwrap();
    assert_eq!(encoded[0], 0x7e);
    assert_eq!(encoded[encoded.len() - 1], 0x7e);
    for &b in &encoded[1..encoded.len() - 1] {
        assert_ne!(b, 0x7e);
    }
    // The first reserved byte's escape pair sits right after the opening marker.
    assert_eq!(&encoded[1..3], &[0x7d, 0x5e]);
}

#[test]
fn encode_empty_payload() {
    let encoded = encode(&[], 4).unwrap();
    assert_eq!(encoded, vec![0x7e, 0x7e]);
}

#[test]
fn decode_rejects_two_byte_frame() {
    // The decoder's four-byte floor rejects the empty-payload frame.
    assert_eq!(decode(&[0x7e, 0x7e], 10), Err(HDLCError::TooFewData));
}

#[test]
fn decode_rejects_short_input() {
    assert_eq!(decode(&[0x7e, 0x00, 0x7e], 10), Err(HDLCError::TooFewData));
    assert_eq!(decode(&[], 10), Err(HDLCError::TooFewData));
}

#[test]
fn decode_rejects_missing_first_fend() {
    assert_eq!(
        decode(&[0x00, 0x01, 0x02, 0x7e], 10),
        Err(HDLCError::MissingFirstFend)
    );
}

#[test]
fn decode_rejects_missing_final_fend() {
    assert_eq!(
        decode(&[0x7e, 0x01, 0x02, 0x03], 10),
        Err(HDLCError::MissingFinalFend)
    );
}

#[test]
fn decode_rejects_dangling_escape() {
    assert_eq!(
        decode(&[0x7e, 0x01, 0x7d, 0x7e], 10),
        Err(HDLCError::MissingTradeChar)
    );
}

#[test]
fn decode_rejects_invalid_substitute() {
    assert_eq!(
        decode(&[0x7e, 0x7d, 0xff, 0x7e], 10),
        Err(HDLCError::FendCharInData)
    );
}

#[test]
fn encode_rejects_oversized_payload() {
    // capacity 16 admits at most 16 / 2 - 2 = 6 payload bytes.
    let payload = [0u8; 7];
    assert_eq!(encode(&payload, 16), Err(HDLCError::TooMuchData));
    assert!(encode(&payload[..6], 16).is_ok());
}

#[test]
fn encode_rejects_tiny_capacity() {
    assert_eq!(encode(&[], 3), Err(HDLCError::TooMuchData));
    assert_eq!(encode(&[0x01], 0), Err(HDLCError::TooMuchData));
}

#[test]
fn decode_rejects_overflowing_output() {
    let frame = [0x7e, 0x01, 0x02, 0x03, 0x04, 0x7e];
    assert_eq!(decode(&frame, 2), Err(HDLCError::TooMuchDecodedData));
    assert_eq!(decode(&frame, 4), Ok(vec![0x01, 0x02, 0x03, 0x04]));
}

#[test]
fn decode_passes_interior_boundary_bytes_through() {
    // Only the very first and last bytes are checked as boundary markers; a
    // raw 0x7E strictly inside the interior passes through unchanged.
    assert_eq!(decode(&[0x7e, 0x7e, 0x7e, 0x7e], 10), Ok(vec![0x7e, 0x7e]));
}

#[test]
fn reserved_error_variants_are_declarable() {
    // Never produced by the codec, but kept for a wrapping protocol layer.
    let checksum = HDLCError::InvalidChecksum;
    let duplicate = HDLCError::DuplicateSpecialChar;
    assert_ne!(checksum, duplicate);
    assert_eq!(checksum.clone(), HDLCError::InvalidChecksum);
}
