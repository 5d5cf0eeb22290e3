use kvs::frame::{decode_frame, encode_frame, Frame, MAX_FRAME_LEN};
use kvs::KvsError;

#[test]
fn encodes_length_big_endian() {
    assert_eq!(encode_frame(&b"abc".to_vec()), Ok(vec![0, 0, 0, 3, b'a', b'b', b'c']));
    assert_eq!(encode_frame(&Vec::new()), Ok(vec![0, 0, 0, 0]));
    let long = vec![7u8; 0x0102];
    let f = encode_frame(&long).unwrap();
    assert_eq!(&f[..4], &[0, 0, 1, 2]);
    assert_eq!(f.len(), 4 + 0x0102);
}

#[test]
fn refuses_oversized_payload() {
    let big = vec![0u8; MAX_FRAME_LEN as usize + 1];
    assert!(matches!(encode_frame(&big), Err(KvsError::OtherError(_))));
    let max = vec![0u8; MAX_FRAME_LEN as usize];
    assert!(encode_frame(&max).is_ok());
}

#[test]
fn decodes_whole_frame_and_leaves_the_rest() {
    let mut buf = encode_frame(&b"{\"Get\":null}".to_vec()).unwrap();
    buf.extend_from_slice(&[0, 0]);
    match decode_frame(&buf) {
        Frame::Complete { payload, consumed } => {
            assert_eq!(payload, b"{\"Get\":null}".to_vec());
            assert_eq!(consumed, 16);
        }
        _ => panic!("expected a whole frame"),
    }
}

#[test]
fn waits_for_more_bytes() {
    assert!(matches!(decode_frame(&vec![0, 0, 0]), Frame::Incomplete));
    assert!(matches!(decode_frame(&vec![0, 0, 0, 5, 1, 2]), Frame::Incomplete));
    assert!(matches!(decode_frame(&Vec::new()), Frame::Incomplete));
}

#[test]
fn refuses_oversized_header() {
    assert!(matches!(decode_frame(&vec![0, 0x80, 0, 1]), Frame::TooLong));
    assert!(matches!(decode_frame(&vec![0xff, 0xff, 0xff, 0xff]), Frame::TooLong));
}

#[test]
fn frame_round_trip() {
    for payload in [Vec::new(), b"x".to_vec(), vec![0xffu8; 300]] {
        let mut buf = encode_frame(&payload).unwrap();
        buf.push(9);
        match decode_frame(&buf) {
            Frame::Complete { payload: p, consumed } => {
                assert_eq!(p, payload);
                assert_eq!(consumed, 4 + payload.len());
            }
            _ => panic!("expected a whole frame"),
        }
    }
}
