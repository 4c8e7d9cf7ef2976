use bytes::BytesMut;
use redis_proto_parse::resp::value::RespValue;
use redis_proto_parse::resp::{value, RespCodec};

fn decode_one(bytes: &[u8], expected: RespValue) {
    let mut rx = BytesMut::from(bytes);
    let mut codec = RespCodec::default();
    match codec.decode(&mut rx) {
        Ok(Some(v)) => {
            assert_eq!(v, expected);
        }
        Ok(None) => {
            assert!(false, "Decode returned None, but a value was expected.");
        }
        Err(e) => {
            assert!(false, "An error occurred while decoding: {:?}", e);
        }
    }
}

#[test]
fn test_op_simplestring() {
    decode_one(&[b'+', b'T', b'E', b'S', b'T', b'\r', b'\n'], value::simple("TEST"));
}

#[test]
fn test_op_error() {
    decode_one(&[b'-', b'T', b'E', b'S', b'T', b'\r', b'\n'], value::err("TEST"));
}

#[test]
fn test_op_int() {
    decode_one(&[b':', b'4', b'2', b'\r', b'\n'], value::integer(42));
}

#[test]
fn test_op_bulkstring() {
    decode_one(
        &[b'$', b'4', b'\r', b'\n', b'T', b'E', b'S', b'T', b'\r', b'\n'],
        value::bulk("TEST"),
    );
}

#[test]
fn test_op_array() {
    decode_one(
        &[
            b'*', b'1', b'\r', b'\n', b'$', b'4', b'\r', b'\n', b'T', b'E', b'S', b'T', b'\r',
            b'\n',
        ],
        value::array(vec![value::bulk("TEST")]),
    );
}
