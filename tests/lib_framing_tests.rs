use bytes::BytesMut;
use redis_proto_parse::resp::{value, DecodeError, RespCodec};

#[test]
fn test_missing_frame_terminator() {
    let mut rx = BytesMut::from(&vec![0x2b, 0x50, 0x4f, 0x4e, 0x47][..]);

    let mut codec = RespCodec::default();

    match codec.decode(&mut rx) {
        Ok(Some(_)) => {
            // no value should return, test data has no CRLF
            panic!("unexpected value");
        }
        Ok(None) => {
            // the tag is taken, "PONG" stays while the codec waits for CRLF
            assert_eq!(rx.len(), 4 as usize);
        }
        Err(e) => {
            panic!("An error occurred: {:?}", e);
        }
    }
}

#[test]
fn test_bad_op() {
    let skip = vec![b'+', b'-', b':', b'$', b'*'];

    // each byte 0..=255 but the five tags
    for i in 0..=255u8 {
        if skip.contains(&i) {
            continue;
        }
        let mut data = BytesMut::from(&vec![i, 0x50, 0x4f, 0x4e, 0x47][..]);
        let mut codec = RespCodec::default();
        match codec.decode(&mut data) {
            Ok(Some(_)) => {
                panic!("expected error because of invalid op (some)")
            }
            Ok(None) => {
                panic!("expected error because of invalid op (none)")
            }
            Err(e) => {
                assert_eq!(e, DecodeError::InvalidPrefix(i));
            }
        }
    }
}

#[test]
fn test_remaining_buffer_len() {
    let mut rx = BytesMut::from(
        &vec![b'$', b'4', b'\r', b'\n', b'T', b'E', b'S', b'T', b'\r', b'\n', b'$'][..],
    );

    let mut codec = RespCodec::default();

    match codec.decode(&mut rx) {
        Ok(Some(v)) => {
            assert_eq!(v, value::bulk("TEST"));
            assert_eq!(rx.len(), 1 as usize);
        }
        Ok(None) => {
            assert!(false, "Decode returned None, but a value was expected.");
        }
        Err(e) => {
            assert!(false, "An error occurred while decoding: {:?}", e);
        }
    }
}
