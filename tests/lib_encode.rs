use bytes::BytesMut;
use redis_proto_parse::resp::value::RespValue;
use redis_proto_parse::resp::{encoder, value, RespCodec};

fn encode_then_decode(input: RespValue, expected: &str) {
    let mut data = BytesMut::new();
    encoder::resp_encode(input.clone(), &mut data);
    assert_eq!(data, BytesMut::from(expected));

    let mut codec = RespCodec::default();
    match codec.decode(&mut data) {
        Ok(Some(resp_value)) => {
            assert_eq!(resp_value, input.clone());
        }
        Ok(None) => {
            panic!("Unexpected EOF: {:?} expecting {:?}", input.clone(), expected);
        }
        Err(e) => {
            panic!("An error occurred: {:?} for {:?} expecting {:?}", e, input.clone(), expected);
        }
    }
}

#[test]
fn test_simple_encode_value_bulk() {
    encode_then_decode(value::bulk("bulk"), "$4\r\nbulk\r\n")
}

#[test]
fn test_simple_encode_value_int() {
    encode_then_decode(value::integer(42), ":42\r\n")
}

#[test]
fn test_simple_encode_value_simple() {
    encode_then_decode(value::simple("pass"), "+pass\r\n")
}

#[test]
fn test_simple_encode_value_err() {
    encode_then_decode(value::err("fail"), "-fail\r\n")
}

#[test]
fn test_simple_encode_value_array() {
    encode_then_decode(value::array(vec![]), "*0\r\n")
}
