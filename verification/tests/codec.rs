use chrommydoggymommy::checkpoint_file::{
    decode_checkpoint_file, encode_checkpoint_file, CheckpointFileError, CHECKPOINT_VERSION,
};
use chrommydoggymommy::frame::{decode_frame, encode_frame, payload_len, FrameError};

#[test]
fn frame_header_is_little_endian_length() {
    let payload = vec![7u8; 300];
    let frame = encode_frame(&payload);
    assert_eq!(&frame[..4], &[0x2c, 0x01, 0x00, 0x00]);
    assert_eq!(&frame[4..], payload.as_slice());
    assert_eq!(payload_len(&frame), 300);
}

#[test]
fn frame_of_empty_payload() {
    let frame = encode_frame(&[]);
    assert_eq!(frame, vec![0, 0, 0, 0]);
    assert_eq!(decode_frame(&frame), Ok((vec![], 4)));
}

#[test]
fn frame_roundtrip_with_trailing_bytes() {
    let payload = b"hello child".to_vec();
    let mut bytes = encode_frame(&payload);
    bytes.extend_from_slice(&[9, 9, 9]);
    let (back, used) = decode_frame(&bytes).unwrap();
    assert_eq!(back, payload);
    assert_eq!(used, payload.len() + 4);
    assert_eq!(&bytes[used..], &[9, 9, 9]);
}

#[test]
fn frame_missing_header() {
    assert_eq!(decode_frame(&[1, 0, 0]), Err(FrameError::MissingHeader));
    assert_eq!(decode_frame(&[]), Err(FrameError::MissingHeader));
}

#[test]
fn frame_missing_payload() {
    assert_eq!(
        decode_frame(&[5, 0, 0, 0, 1, 2]),
        Err(FrameError::MissingPayload { expected: 5 })
    );
}

#[test]
fn checkpoint_file_starts_with_version() {
    let bytes = encode_checkpoint_file(&[0xaa, 0xbb]);
    assert_eq!(bytes, vec![1, 0, 0, 0, 0, 0, 0, 0, 0xaa, 0xbb]);
    assert_eq!(CHECKPOINT_VERSION, 1);
}

#[test]
fn checkpoint_file_roundtrip() {
    let body: Vec<u8> = (0..=255u8).collect();
    let bytes = encode_checkpoint_file(&body);
    assert_eq!(decode_checkpoint_file(&bytes), Ok(body));
}

#[test]
fn checkpoint_file_truncated() {
    assert_eq!(
        decode_checkpoint_file(&[1, 0, 0, 0, 0, 0, 0]),
        Err(CheckpointFileError::Truncated)
    );
}

#[test]
fn checkpoint_file_version_mismatch() {
    assert_eq!(
        decode_checkpoint_file(&[2, 1, 0, 0, 0, 0, 0, 0, 5]),
        Err(CheckpointFileError::VersionMismatch { expected: 1, got: 258 })
    );
}

#[test]
fn checkpoint_file_with_empty_body() {
    assert_eq!(decode_checkpoint_file(&[1, 0, 0, 0, 0, 0, 0, 0]), Ok(vec![]));
}
