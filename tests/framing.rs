use snapfaas::message::{decode_frame, encode_frame, WireError, MAX_FRAME_LEN};

#[test]
fn frame_has_big_endian_length() {
    let f = encode_frame(&vec![7u8; 258]).unwrap();
    assert_eq!(&f[..4], &[0, 0, 1, 2]);
    assert_eq!(f.len(), 262);
    assert_eq!(encode_frame(&vec![]).unwrap(), vec![0, 0, 0, 0]);
}

#[test]
fn frame_round_trip_with_trailing_bytes() {
    let payload = b"hello world".to_vec();
    let mut buf = encode_frame(&payload).unwrap();
    buf.extend_from_slice(&[9, 9, 9]);
    let (p, used) = decode_frame(&buf).unwrap();
    assert_eq!(p, payload);
    assert_eq!(used, 15);
}

#[test]
fn short_input_is_short_read() {
    assert_eq!(decode_frame(&[0, 0, 1]), Err(WireError::ShortRead));
    assert_eq!(decode_frame(&[0, 0, 0, 3, 1, 2]), Err(WireError::ShortRead));
}

#[test]
fn oversized_length_is_refused() {
    assert_eq!(decode_frame(&[1, 0, 0, 1]), Err(WireError::TooLong));
    assert_eq!(decode_frame(&[1, 0, 0, 0]).unwrap_err(), WireError::ShortRead);
    assert_eq!(encode_frame(&vec![0u8; MAX_FRAME_LEN + 1]), Err(WireError::TooLong));
    assert!(encode_frame(&vec![0u8; MAX_FRAME_LEN]).is_ok());
}
