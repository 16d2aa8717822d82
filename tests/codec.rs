use bytes::BytesMut;
use uvi_codec::buf::{buffered_len, empty_buffer};
use uvi_codec::{CodecError, UviCodec};

fn frame_of(payload: &[u8]) -> BytesMut {
    let mut dst = BytesMut::new();
    UviCodec.encode(payload, &mut dst).unwrap();
    dst
}

#[test]
fn encodes_short_payload() {
    let dst = frame_of(&[0x41, 0x42, 0x43]);
    assert_eq!(&dst[..], &[0x03, 0x41, 0x42, 0x43]);
}

#[test]
fn partial_frame_then_rest() {
    let mut codec = UviCodec::default();
    let mut src = BytesMut::from(&[0x03u8, 0x41][..]);
    assert_eq!(codec.decode(&mut src), Ok(None));
    assert_eq!(&src[..], &[0x03, 0x41]);
    src.extend_from_slice(&[0x42, 0x43]);
    let payload = codec.decode(&mut src).unwrap().unwrap();
    assert_eq!(&payload[..], &[0x41, 0x42, 0x43]);
    assert!(src.is_empty());
}

#[test]
fn multi_byte_length() {
    let payload: Vec<u8> = (0..300u32).map(|i| (i % 251) as u8).collect();
    let mut src = frame_of(&payload);
    assert_eq!(src.len(), 302);
    assert_eq!(&src[..2], &[0xAC, 0x02]);
    let back = UviCodec.decode(&mut src).unwrap().unwrap();
    assert_eq!(back.len(), 300);
    assert_eq!(&back[..], &payload[..]);
    assert!(src.is_empty());
}

#[test]
fn length_at_group_boundary() {
    let payload = vec![7u8; 128];
    let src = frame_of(&payload);
    assert_eq!(&src[..2], &[0x80, 0x01]);
    let payload = vec![7u8; 127];
    let src = frame_of(&payload);
    assert_eq!(src[0], 0x7F);
    assert_eq!(src.len(), 128);
}

#[test]
fn empty_payload_round_trip() {
    let mut src = frame_of(&[]);
    assert_eq!(&src[..], &[0x00]);
    let back = UviCodec.decode(&mut src).unwrap().unwrap();
    assert!(back.is_empty());
    assert!(src.is_empty());
}

#[test]
fn encode_appends_to_existing_bytes() {
    let mut dst = BytesMut::from(&[0xFFu8][..]);
    UviCodec.encode(&[0x01, 0x02], &mut dst).unwrap();
    assert_eq!(&dst[..], &[0xFF, 0x02, 0x01, 0x02]);
}

#[test]
fn consumes_exactly_one_frame() {
    let mut src = frame_of(&[0x0A, 0x0B]);
    src.extend_from_slice(&frame_of(&[0x0C])[..]);
    src.extend_from_slice(&[0x05]);
    let first = UviCodec.decode(&mut src).unwrap().unwrap();
    assert_eq!(&first[..], &[0x0A, 0x0B]);
    assert_eq!(&src[..], &[0x01, 0x0C, 0x05]);
    let second = UviCodec.decode(&mut src).unwrap().unwrap();
    assert_eq!(&second[..], &[0x0C]);
    assert_eq!(&src[..], &[0x05]);
    assert_eq!(UviCodec.decode(&mut src), Ok(None));
    assert_eq!(&src[..], &[0x05]);
}

#[test]
fn byte_by_byte_delivery() {
    let payload: Vec<u8> = (0..200u32).map(|i| i as u8).collect();
    let wire = frame_of(&payload);
    let mut src = BytesMut::new();
    let mut frames = Vec::new();
    for (i, b) in wire.iter().enumerate() {
        src.extend_from_slice(&[*b]);
        match UviCodec.decode(&mut src).unwrap() {
            Some(p) => frames.push((i, p)),
            None => assert_eq!(src.len(), i + 1),
        }
    }
    assert_eq!(frames.len(), 1);
    assert_eq!(frames[0].0, wire.len() - 1);
    assert_eq!(&frames[0].1[..], &payload[..]);
    assert!(src.is_empty());
}

#[test]
fn uneven_chunks_delivery() {
    let payload = vec![0x5Au8; 300];
    let wire = frame_of(&payload);
    let cuts = [1usize, 2, 150, 301, 302];
    let mut src = BytesMut::new();
    let mut start = 0;
    for (n, end) in cuts.iter().enumerate() {
        src.extend_from_slice(&wire[start..*end]);
        start = *end;
        let got = UviCodec.decode(&mut src).unwrap();
        if n + 1 < cuts.len() {
            assert_eq!(got, None);
            assert_eq!(src.len(), *end);
        } else {
            assert_eq!(&got.unwrap()[..], &payload[..]);
            assert!(src.is_empty());
        }
    }
}

#[test]
fn repeated_decode_on_short_buffer() {
    let mut src = BytesMut::from(&[0x80u8, 0x80][..]);
    for _ in 0..3 {
        assert_eq!(UviCodec.decode(&mut src), Ok(None));
        assert_eq!(&src[..], &[0x80, 0x80]);
    }
    let mut src = BytesMut::from(&[0x05u8, 0x01, 0x02][..]);
    for _ in 0..3 {
        assert_eq!(UviCodec.decode(&mut src), Ok(None));
        assert_eq!(&src[..], &[0x05, 0x01, 0x02]);
    }
}

#[test]
fn nine_continuation_bytes_wait() {
    let mut src = BytesMut::from(&[0x80u8; 9][..]);
    assert_eq!(UviCodec.decode(&mut src), Ok(None));
    assert_eq!(src.len(), 9);
}

#[test]
fn ten_continuation_bytes_rejected() {
    let mut src = BytesMut::from(&[0x80u8; 10][..]);
    assert_eq!(UviCodec.decode(&mut src), Err(CodecError::Overflow));
    let mut src = BytesMut::from(&[0xFFu8; 12][..]);
    assert_eq!(UviCodec.decode(&mut src), Err(CodecError::Overflow));
}

#[test]
fn value_beyond_64_bits_rejected() {
    let mut bytes = vec![0x80u8; 9];
    bytes.push(0x02);
    let mut src = BytesMut::from(&bytes[..]);
    assert_eq!(UviCodec.decode(&mut src), Err(CodecError::Overflow));
}

#[test]
fn largest_ten_byte_prefix_accepted() {
    let mut bytes = vec![0xFFu8; 9];
    bytes.push(0x01);
    let mut src = BytesMut::from(&bytes[..]);
    assert_eq!(UviCodec.decode(&mut src), Ok(None));
    assert_eq!(src.len(), 10);
}

#[test]
fn trailing_zero_rejected() {
    let mut src = BytesMut::from(&[0x81u8, 0x00, 0x41][..]);
    assert_eq!(UviCodec.decode(&mut src), Err(CodecError::NotMinimal));
}

#[test]
fn empty_buffer_waits() {
    let mut src = BytesMut::new();
    assert_eq!(UviCodec.decode(&mut src), Ok(None));
    assert!(src.is_empty());
}

#[test]
fn buffer_helpers() {
    let mut dst = empty_buffer();
    assert_eq!(buffered_len(&dst), 0);
    UviCodec.encode(&[0x09; 5], &mut dst).unwrap();
    assert_eq!(buffered_len(&dst), 6);
    assert_eq!(&dst[..], &[0x05, 0x09, 0x09, 0x09, 0x09, 0x09]);
}
