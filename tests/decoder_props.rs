use bytes::BytesMut;
use redis_proto_parse::resp::decimal::{format_decimal, format_length, parse_i64};
use redis_proto_parse::resp::value::RespValue;
use redis_proto_parse::resp::{encoder, value, DecodeError, RespCodec, RespDecoder};

fn decode_all_at_once(bytes: &[u8]) -> Result<Option<RespValue>, DecodeError> {
    let mut buf = BytesMut::from(bytes);
    RespCodec::default().decode(&mut buf)
}

fn encoded(v: &RespValue) -> BytesMut {
    let mut buf = BytesMut::new();
    encoder::resp_encode(v.clone(), &mut buf);
    buf
}

#[test]
fn null_and_empty_array_differ() {
    let null = decode_all_at_once(b"*-1\r\n").unwrap().unwrap();
    let empty = decode_all_at_once(b"*0\r\n").unwrap().unwrap();
    assert_eq!(null, RespValue::Array(None));
    assert_eq!(empty, RespValue::Array(Some(vec![])));
    assert_ne!(null, empty);
}

#[test]
fn null_and_empty_bulk_string_differ() {
    let null = decode_all_at_once(b"$-1\r\n").unwrap().unwrap();
    let empty = decode_all_at_once(b"$0\r\n\r\n").unwrap().unwrap();
    assert_eq!(null, RespValue::BulkString(None));
    assert_eq!(empty, RespValue::BulkString(Some(vec![])));
    assert_ne!(null, empty);
}

#[test]
fn nested_arrays_decode() {
    let v = decode_all_at_once(b"*2\r\n*1\r\n:1\r\n$3\r\nfoo\r\n").unwrap().unwrap();
    assert_eq!(
        v,
        value::array(vec![value::array(vec![value::integer(1)]), value::bulk("foo")])
    );
}

#[test]
fn round_trip_of_mixed_values() {
    let values = vec![
        value::simple("OK"),
        value::err("ERR unknown"),
        value::integer(i64::MIN),
        value::integer(i64::MAX),
        value::integer(0),
        RespValue::BulkString(None),
        RespValue::BulkString(Some(vec![0, 13, 10, 255])),
        RespValue::Array(None),
        value::array(vec![
            value::array(vec![]),
            RespValue::Array(None),
            value::array(vec![value::bulk("x"), value::integer(-7)]),
        ]),
    ];
    for v in values {
        let mut buf = encoded(&v);
        let mut codec = RespCodec::default();
        assert_eq!(codec.decode(&mut buf), Ok(Some(v.clone())));
        assert_eq!(buf.len(), 0);
    }
}

#[test]
fn encoded_bytes_are_exact() {
    assert_eq!(encoded(&value::integer(-42)), BytesMut::from(":-42\r\n"));
    assert_eq!(encoded(&RespValue::BulkString(None)), BytesMut::from("$-1\r\n"));
    assert_eq!(encoded(&RespValue::Array(None)), BytesMut::from("*-1\r\n"));
    assert_eq!(
        encoded(&value::array(vec![value::bulk("a"), value::simple("b")])),
        BytesMut::from("*2\r\n$1\r\na\r\n+b\r\n")
    );
    assert_eq!(encoded(&value::simple("héllo")), BytesMut::from("+héllo\r\n"));
}

#[test]
fn fed_one_byte_at_a_time() {
    let frame = b"*3\r\n$7\r\nmessage\r\n$2\r\nch\r\n*2\r\n:5\r\n+ok\r\n";
    let whole = decode_all_at_once(frame).unwrap().unwrap();
    let mut codec = RespCodec::default();
    let mut buf = BytesMut::new();
    let mut result = None;
    for (i, b) in frame.iter().enumerate() {
        buf.extend_from_slice(&[*b]);
        match codec.decode(&mut buf) {
            Ok(None) => assert!(i + 1 < frame.len(), "incomplete after the whole frame"),
            Ok(Some(v)) => {
                assert_eq!(i + 1, frame.len(), "a value before the frame was complete");
                result = Some(v);
            }
            Err(e) => panic!("error {:?} at byte {}", e, i),
        }
    }
    assert_eq!(result, Some(whole));
    assert_eq!(buf.len(), 0);
}

#[test]
fn fed_in_two_pieces_with_cached_length() {
    let mut codec = RespCodec::default();
    let mut buf = BytesMut::from("$5\r\nhel");
    assert_eq!(codec.decode(&mut buf), Ok(None));
    buf.extend_from_slice(b"lo\r\n:1\r\n");
    assert_eq!(codec.decode(&mut buf), Ok(Some(value::bulk("hello"))));
    assert_eq!(codec.decode(&mut buf), Ok(Some(value::integer(1))));
    assert_eq!(codec.decode(&mut buf), Ok(None));
}

#[test]
fn two_values_in_one_buffer() {
    let mut buf = BytesMut::from("+a\r\n+b\r\n");
    let mut decoder = RespDecoder::default();
    assert_eq!(decoder.decode(&mut buf), Ok(Some(value::simple("a"))));
    assert_eq!(decoder.decode(&mut buf), Ok(Some(value::simple("b"))));
    assert_eq!(buf.len(), 0);
}

#[test]
fn empty_buffer_needs_more() {
    assert_eq!(decode_all_at_once(b""), Ok(None));
}

#[test]
fn bulk_payload_is_not_trimmed() {
    let v = decode_all_at_once(b"$3\r\n a \r\n").unwrap().unwrap();
    assert_eq!(v, value::bulk(" a "));
}

#[test]
fn invalid_utf8_in_simple_string() {
    assert_eq!(decode_all_at_once(b"+\xff\r\n"), Err(DecodeError::InvalidUtf8));
}

#[test]
fn invalid_integer_text() {
    assert_eq!(decode_all_at_once(b":12a\r\n"), Err(DecodeError::InvalidInteger));
    assert_eq!(decode_all_at_once(b":\r\n"), Err(DecodeError::InvalidInteger));
    assert_eq!(
        decode_all_at_once(b":9223372036854775808\r\n"),
        Err(DecodeError::InvalidInteger)
    );
    assert_eq!(decode_all_at_once(b"$x\r\n"), Err(DecodeError::InvalidInteger));
}

#[test]
fn invalid_negative_length() {
    assert_eq!(decode_all_at_once(b"$-2\r\n"), Err(DecodeError::InvalidLength(-2)));
    assert_eq!(decode_all_at_once(b"*-5\r\n"), Err(DecodeError::InvalidLength(-5)));
}

#[test]
fn invalid_prefix_inside_an_array() {
    assert_eq!(decode_all_at_once(b"*1\r\n?\r\n"), Err(DecodeError::InvalidPrefix(b'?')));
}

#[test]
fn decimal_text_both_ways() {
    assert_eq!(format_decimal(-9223372036854775808), b"-9223372036854775808".to_vec());
    assert_eq!(format_decimal(0), b"0".to_vec());
    assert_eq!(format_length(1234), b"1234".to_vec());
    assert_eq!(parse_i64(b"+17"), Some(17));
    assert_eq!(parse_i64(b"-0"), Some(0));
    assert_eq!(parse_i64(b"-9223372036854775808"), Some(i64::MIN));
    assert_eq!(parse_i64(b"-"), None);
    assert_eq!(parse_i64(b" 1"), None);
}

#[test]
fn text_of_values() {
    assert_eq!(value::bulk("abc").as_str(), Some("abc"));
    assert_eq!(RespValue::BulkString(Some(vec![0xff])).as_str(), None);
    assert_eq!(value::err("e").as_str(), Some("e"));
    assert_eq!(value::integer(3).as_str(), None);
    assert_eq!(value::simple("s").as_buf(), None);
}

#[test]
fn debug_text_of_each_kind() {
    assert_eq!(RespValue::BulkString(None).debug_text(), "BulkString(None)");
    assert_eq!(RespValue::Array(None).debug_text(), "Array(None)");
    assert_eq!(value::integer(-5).debug_text(), "Integer(-5)");
    assert_eq!(value::simple("a\"b").debug_text(), "SimpleString(\"a\\\"b\")");
    assert_eq!(
        RespValue::BulkString(Some(vec![b'o', 0xff])).debug_text(),
        "BulkString(\"o\u{fffd}\")"
    );
    assert_eq!(value::array(vec![]).debug_text(), "Array<0>([]))");
}
