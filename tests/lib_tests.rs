use bytes::BytesMut;
use redis_proto_parse::resp::value::RespValue;
use redis_proto_parse::resp::{value, RespCodec};

fn test_generic(data: &mut BytesMut, expected_resp_value: RespValue) {
    let mut codec = RespCodec::default();

    match codec.decode(data) {
        Ok(Some(resp_value)) => {
            assert_eq!(resp_value, expected_resp_value);
        }
        Ok(None) => {
            panic!("Unexpected EOF");
        }
        Err(e) => {
            panic!("An error occurred: {:?}", e);
        }
    }
}

fn test_generic_multiple(data: &mut BytesMut, expected: Vec<RespValue>) {
    for expected_resp_value in expected {
        test_generic(data, expected_resp_value)
    }
}

#[test]
fn test_ping_simple() {
    let mut rx = BytesMut::from("+PONG\r\n");
    let mut tx = BytesMut::from("*1\r\n$4\r\nping\r\n");

    test_generic(&mut rx, value::simple("PONG"));

    test_generic(&mut tx, value::array(vec![value::bulk("ping")]));
}

#[test]
fn test_ping_bulk() {
    let mut rx = BytesMut::from("$11\r\nhello world\r\n");
    let mut tx = BytesMut::from("*2\r\n$4\r\nping\r\n$11\r\nhello world\r\n");

    test_generic(&mut rx, value::bulk("hello world"));

    test_generic(
        &mut tx,
        value::array(vec![value::bulk("ping"), value::bulk("hello world")]),
    );
}

#[test]
fn test_subscribe_single_channel() {
    let mut rx = BytesMut::from("*3\r\n$9\r\nsubscribe\r\n$14\r\ntest_channel_1\r\n:1\r\n");
    let mut tx = BytesMut::from("*2\r\n$9\r\nsubscribe\r\n$14\r\ntest_channel_1\r\n");

    test_generic(
        &mut rx,
        value::array(vec![
            value::bulk("subscribe"),
            value::bulk("test_channel_1"),
            value::integer(1),
        ]),
    );

    test_generic(
        &mut tx,
        value::array(vec![value::bulk("subscribe"), value::bulk("test_channel_1")]),
    );
}

#[test]
fn test_subscribe_multiple_channels() {
    let mut rx = BytesMut::from(
        "*3\r\n$9\r\nsubscribe\r\n$14\r\ntest_channel_1\r\n:1\r\n\
         *3\r\n$9\r\nsubscribe\r\n$14\r\ntest_channel_2\r\n:2\r\n\
         *3\r\n$9\r\nsubscribe\r\n$14\r\ntest_channel_3\r\n:3\r\n",
    );
    let mut tx = BytesMut::from(
        "*4\r\n$9\r\nsubscribe\r\n$14\r\ntest_channel_1\r\n$14\r\ntest_channel_2\r\n$14\r\ntest_channel_3\r\n",
    );

    test_generic_multiple(
        &mut rx,
        vec![
            value::array(vec![
                value::bulk("subscribe"),
                value::bulk("test_channel_1"),
                value::integer(1),
            ]),
            value::array(vec![
                value::bulk("subscribe"),
                value::bulk("test_channel_2"),
                value::integer(2),
            ]),
            value::array(vec![
                value::bulk("subscribe"),
                value::bulk("test_channel_3"),
                value::integer(3),
            ]),
        ],
    );

    test_generic_multiple(
        &mut tx,
        vec![value::array(vec![
            value::bulk("subscribe"),
            value::bulk("test_channel_1"),
            value::bulk("test_channel_2"),
            value::bulk("test_channel_3"),
        ])],
    );
}

#[test]
fn test_debug_fmt() {
    let v = value::array(vec![
        value::bulk("subscribe"),
        value::bulk("test_channel_1"),
        value::integer(1),
        value::simple("foo"),
        value::err("bar"),
    ]);

    assert_eq!(v.debug_text(), "Array<5>([BulkString(\"subscribe\"), BulkString(\"test_channel_1\"), Integer(1), SimpleString(\"foo\"), SimpleError(\"bar\")]))")
}
