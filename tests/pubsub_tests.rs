use bytes::BytesMut;
use redis_proto_parse::pubsub::{
    classify, ping_command, psubscribe_command, publish_command, publish_reply,
    punsubscribe_command, subscribe_command, unsubscribe_command, ClientError, Keepalive,
    PubSubEvent,
};
use redis_proto_parse::resp::value::RespValue;
use redis_proto_parse::resp::{encoder, value, RespCodec};

fn frame(bytes: &[u8]) -> RespValue {
    let mut buf = BytesMut::from(bytes);
    RespCodec::default().decode(&mut buf).unwrap().unwrap()
}

fn bytes_of(v: RespValue) -> BytesMut {
    let mut buf = BytesMut::new();
    encoder::resp_encode(v, &mut buf);
    buf
}

#[test]
fn message_is_extracted() {
    let f = frame(b"*3\r\n$7\r\nmessage\r\n$2\r\nch\r\n$5\r\nhello\r\n");
    let mut k = Keepalive::new();
    match k.on_frame(&f) {
        Ok(Some(m)) => {
            assert_eq!(m.channel_name, "ch");
            assert_eq!(m.data, "hello");
            assert_eq!(m.channel_pattern, None);
        }
        _ => panic!("expected a message"),
    }
}

#[test]
fn pattern_message_is_extracted() {
    let f = frame(b"*4\r\n$8\r\npmessage\r\n$4\r\np::*\r\n$4\r\np::1\r\n$2\r\nhi\r\n");
    match classify(&f) {
        Ok(PubSubEvent::Message(m)) => {
            assert_eq!(m.channel_name, "p::1");
            assert_eq!(m.data, "hi");
            assert_eq!(m.channel_pattern, Some("p::*".to_string()));
        }
        _ => panic!("expected a message"),
    }
}

#[test]
fn subscribe_ack_is_swallowed() {
    let f = frame(b"*3\r\n$9\r\nsubscribe\r\n$4\r\nchan\r\n:1\r\n");
    let mut k = Keepalive::new();
    assert!(matches!(k.on_frame(&f), Ok(None)));
    assert!(matches!(classify(&f), Ok(PubSubEvent::Ack)));
    for word in ["unsubscribe", "psubscribe", "punsubscribe"] {
        let ack = value::array(vec![value::bulk(word), value::bulk("c"), value::integer(0)]);
        assert!(matches!(classify(&ack), Ok(PubSubEvent::Ack)));
    }
}

#[test]
fn pong_is_swallowed_and_recorded() {
    let mut k = Keepalive::new();
    assert!(k.on_tick().is_ok());
    assert!(!k.pong_received);
    assert!(matches!(k.on_frame(&value::simple("PONG")), Ok(None)));
    assert!(k.pong_received);
    let mut k2 = Keepalive { pong_received: false };
    assert!(matches!(k2.on_frame(&value::bulk("echo")), Ok(None)));
    assert!(k2.pong_received);
}

#[test]
fn keepalive_times_out_on_second_tick() {
    let mut k = Keepalive::new();
    assert!(k.on_tick().is_ok());
    let ack = frame(b"*3\r\n$9\r\nsubscribe\r\n$4\r\nchan\r\n:1\r\n");
    assert!(matches!(k.on_frame(&ack), Ok(None)));
    assert!(matches!(k.on_tick(), Err(ClientError::Timeout)));
}

#[test]
fn keepalive_survives_when_answered() {
    let mut k = Keepalive::new();
    assert!(k.on_tick().is_ok());
    assert!(matches!(k.on_frame(&value::simple("PONG")), Ok(None)));
    assert!(k.on_tick().is_ok());
}

#[test]
fn other_frames_are_mismatches() {
    for f in [
        value::simple("OK"),
        value::integer(1),
        value::array(vec![]),
        value::array(vec![value::bulk("message"), value::bulk("ch")]),
        value::array(vec![value::bulk("other"), value::bulk("x"), value::bulk("y")]),
        RespValue::Array(None),
        RespValue::BulkString(None),
    ] {
        assert!(matches!(classify(&f), Err(ClientError::ProtocolMismatch)));
    }
}

#[test]
fn commands_have_exact_bytes() {
    assert_eq!(
        bytes_of(publish_command("ch", "hi")),
        BytesMut::from("*3\r\n$7\r\nPUBLISH\r\n$2\r\nch\r\n$2\r\nhi\r\n")
    );
    assert_eq!(
        bytes_of(subscribe_command("a")),
        BytesMut::from("*2\r\n$9\r\nSUBSCRIBE\r\n$1\r\na\r\n")
    );
    assert_eq!(
        bytes_of(unsubscribe_command(None)),
        BytesMut::from("*1\r\n$11\r\nUNSUBSCRIBE\r\n")
    );
    assert_eq!(
        bytes_of(unsubscribe_command(Some("a"))),
        BytesMut::from("*2\r\n$11\r\nUNSUBSCRIBE\r\n$1\r\na\r\n")
    );
    assert_eq!(
        bytes_of(psubscribe_command("p*")),
        BytesMut::from("*2\r\n$10\r\nPSUBSCRIBE\r\n$2\r\np*\r\n")
    );
    assert_eq!(
        bytes_of(punsubscribe_command(None)),
        BytesMut::from("*1\r\n$12\r\nPUNSUBSCRIBE\r\n")
    );
    assert_eq!(bytes_of(ping_command()), BytesMut::from("*1\r\n$4\r\nPING\r\n"));
}

#[test]
fn publish_replies() {
    assert_eq!(publish_reply(value::integer(3)).unwrap(), 3);
    match publish_reply(value::err("ERR no")) {
        Err(ClientError::Server(m)) => assert_eq!(m, "ERR no"),
        _ => panic!("expected a server error"),
    }
    assert!(matches!(publish_reply(value::simple("OK")), Err(ClientError::ProtocolMismatch)));
}
