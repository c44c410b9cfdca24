use finick::ipc::{
    decode_envelope, decode_response_stream, encode_data_envelope, encode_data_frame,
    encode_end_frame, encode_frame, encode_response_stream, read_frame, StreamResponse,
};

#[test]
fn frame_layout() {
    let body = vec![9u8, 8, 7];
    let f = encode_frame(&body);
    assert_eq!(f, vec![3u8, 0, 0, 0, 9, 8, 7]);
}

#[test]
fn frame_round_trip() {
    let body = vec![1u8, 2, 3, 4, 5];
    let f = encode_frame(&body);
    let got = read_frame(&f, 0);
    assert!(got.is_some());
    let (b, pos) = got.unwrap();
    assert_eq!(b, body);
    assert_eq!(pos, f.len());
}

#[test]
fn read_frame_short_length_prefix() {
    assert!(read_frame(&vec![1u8, 0], 0).is_none());
}

#[test]
fn read_frame_truncated_body() {
    // Announces 5 bytes, carries 2.
    assert!(read_frame(&vec![5u8, 0, 0, 0, 1, 2], 0).is_none());
}

#[test]
fn envelope_tags() {
    let data = encode_data_envelope(&vec![42u8]);
    assert_eq!(data, vec![0u8, 0, 0, 0, 42]);
    match decode_envelope(&data) {
        Some(StreamResponse::Data(p)) => assert_eq!(p, vec![42u8]),
        _ => panic!("expected a data envelope"),
    }
    let end = vec![1u8, 0, 0, 0];
    assert!(matches!(decode_envelope(&end), Some(StreamResponse::EndOfStream)));
}

#[test]
fn envelope_unknown_tag_is_malformed() {
    assert!(decode_envelope(&vec![7u8, 0, 0, 0, 1]).is_none());
    assert!(decode_envelope(&vec![0u8, 0, 0]).is_none());
}

#[test]
fn stream_round_trip() {
    // The sequence of Data envelopes observed equals the sequence sent,
    // in order, terminated by exactly one EndOfStream.
    let payloads = vec![vec![1u8, 2], vec![], vec![255u8, 0, 255]];
    let bytes = encode_response_stream(&payloads);
    let got = decode_response_stream(&bytes);
    assert_eq!(got, Some(payloads));
}

#[test]
fn empty_stream_is_one_end_frame() {
    let bytes = encode_response_stream(&Vec::new());
    assert_eq!(bytes, vec![4u8, 0, 0, 0, 1, 0, 0, 0]);
    assert_eq!(decode_response_stream(&bytes), Some(Vec::new()));
}

#[test]
fn stream_without_end_mark_is_rejected() {
    let mut bytes = encode_data_frame(&vec![1u8]);
    // No EndOfStream frame follows.
    assert_eq!(decode_response_stream(&bytes), None);
    bytes.extend(encode_end_frame());
    assert_eq!(decode_response_stream(&bytes), Some(vec![vec![1u8]]));
}

#[test]
fn stream_frames_concatenate() {
    let payloads = vec![vec![10u8], vec![20u8, 21]];
    let mut by_hand = encode_data_frame(&payloads[0]);
    by_hand.extend(encode_data_frame(&payloads[1]));
    by_hand.extend(encode_end_frame());
    assert_eq!(by_hand, encode_response_stream(&payloads));
}

#[test]
fn read_frame_walks_positions() {
    let payloads = vec![vec![10u8], vec![20u8, 21]];
    let bytes = encode_response_stream(&payloads);
    let (b1, p1) = read_frame(&bytes, 0).unwrap();
    assert_eq!(b1, vec![0u8, 0, 0, 0, 10]);
    let (b2, p2) = read_frame(&bytes, p1).unwrap();
    assert_eq!(b2, vec![0u8, 0, 0, 0, 20, 21]);
    let (b3, p3) = read_frame(&bytes, p2).unwrap();
    assert_eq!(b3, vec![1u8, 0, 0, 0]);
    assert_eq!(p3, bytes.len());
    assert!(read_frame(&bytes, p3).is_none());
}
