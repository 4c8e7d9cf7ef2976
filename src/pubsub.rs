//! The publish/subscribe protocol over decoded values: the commands that are
//! sent, what a reply or a pushed frame means, and the keepalive rule of the
//! receive loop. The caller owns the connections and the timer; these
//! functions decide.
use vstd::prelude::*;

use crate::resp::grammar::DecodeError;
use crate::resp::value::{bulk, lemma_view_items, text_of, view_items, RespValue, WireValue};
use vstd::utf8::encode_utf8;

verus! {

broadcast use vstd::std_specs::vec::group_vec_axioms;

/// Why a publish/subscribe operation failed.
#[derive(Debug)]
pub enum ClientError {
    /// The server rejected the command with this error text; the connection
    /// stays usable.
    Server(String),
    /// A reply or frame of a shape that the protocol does not have here.
    ProtocolMismatch,
    /// The connection closed or broke.
    Connection,
    /// No pong came between two keepalive ticks: the peer is presumed dead.
    Timeout,
    /// The incoming bytes are not the wire format.
    Format(DecodeError),
}

/// A message pushed to a subscriber: the channel it was published on, the
/// pattern it matched for a pattern subscription, and its payload.
pub struct PubSubMessage {
    pub channel_name: String,
    pub channel_pattern: Option<String>,
    pub data: String,
}

/// What a frame on a subscribed connection is.
pub enum PubSubEvent {
    /// The answer to a keepalive ping.
    Pong,
    /// The acknowledgement of a subscribe or unsubscribe command.
    Ack,
    /// A published message.
    Message(PubSubMessage),
}

/// The model of what a frame is: a pong, an acknowledgement, a message (its
/// channel, pattern and payload), or a shape that does not belong here.
pub enum FrameKind {
    Pong,
    Ack,
    Message(Seq<char>, Option<Seq<char>>, Seq<char>),
    Mismatch,
}

pub open spec fn bulk_text(s: Seq<char>) -> WireValue {
    WireValue::BulkString(Some(encode_utf8(s)))
}

/// A command: an array of bulk strings, one for each word.
pub open spec fn command(words: Seq<Seq<char>>) -> WireValue {
    WireValue::Array(Some(words.map_values(|w: Seq<char>| bulk_text(w))))
}

pub open spec fn is_ack_word(w: Seq<char>) -> bool {
    w == "subscribe"@ || w == "unsubscribe"@ || w == "psubscribe"@ || w == "punsubscribe"@
}

pub open spec fn frame_kind(v: WireValue) -> FrameKind {
    match v {
        WireValue::SimpleString(s) => if s == "PONG"@ {
            FrameKind::Pong
        } else {
            FrameKind::Mismatch
        },
        WireValue::BulkString(Some(_)) => FrameKind::Pong,
        WireValue::Array(Some(items)) => if items.len() == 0 || text_of(items[0]) is None {
            FrameKind::Mismatch
        } else {
            let w = text_of(items[0])->0;
            if w == "message"@ {
                if items.len() >= 3 && text_of(items[1]) is Some && text_of(items[2]) is Some {
                    FrameKind::Message(text_of(items[1])->0, None, text_of(items[2])->0)
                } else {
                    FrameKind::Mismatch
                }
            } else if w == "pmessage"@ {
                if items.len() >= 4 && text_of(items[1]) is Some && text_of(items[2]) is Some
                    && text_of(items[3]) is Some {
                    FrameKind::Message(
                        text_of(items[2])->0,
                        Some(text_of(items[1])->0),
                        text_of(items[3])->0,
                    )
                } else {
                    FrameKind::Mismatch
                }
            } else if is_ack_word(w) {
                FrameKind::Ack
            } else {
                FrameKind::Mismatch
            }
        },
        _ => FrameKind::Mismatch,
    }
}

/// The model of a message: channel, pattern and payload.
pub open spec fn message_view(m: PubSubMessage) -> (Seq<char>, Option<Seq<char>>, Seq<char>) {
    (
        m.channel_name@,
        match m.channel_pattern {
            Some(p) => Some(p@),
            None => None,
        },
        m.data@,
    )
}

fn text_eq(a: &str, b: &str) -> (r: bool)
    ensures
        r == (a@ == b@),
{
    let x: String = a.to_owned();
    let y: String = b.to_owned();
    x == y
}

/// The command that publishes `message` on `channel`.
pub fn publish_command(channel: &str, message: &str) -> (r: RespValue)
    ensures
        r@ == command(seq!["PUBLISH"@, channel@, message@]),
{
    let words = vec![bulk("PUBLISH"), bulk(channel), bulk(message)];
    proof {
        lemma_view_items(words@);
        assert(view_items(words@) =~= seq!["PUBLISH"@, channel@, message@].map_values(
            |w: Seq<char>| bulk_text(w),
        ));
    }
    RespValue::Array(Some(words))
}

/// A command of one word and one argument.
fn command_with(word: &str, arg: &str) -> (r: RespValue)
    ensures
        r@ == command(seq![word@, arg@]),
{
    let words = vec![bulk(word), bulk(arg)];
    proof {
        lemma_view_items(words@);
        assert(view_items(words@) =~= seq![word@, arg@].map_values(|w: Seq<char>| bulk_text(w)));
    }
    RespValue::Array(Some(words))
}

/// A command of one word.
fn command_alone(word: &str) -> (r: RespValue)
    ensures
        r@ == command(seq![word@]),
{
    let words = vec![bulk(word)];
    proof {
        lemma_view_items(words@);
        assert(view_items(words@) =~= seq![word@].map_values(|w: Seq<char>| bulk_text(w)));
    }
    RespValue::Array(Some(words))
}

/// The command that subscribes to `channel`.
pub fn subscribe_command(channel: &str) -> (r: RespValue)
    ensures
        r@ == command(seq!["SUBSCRIBE"@, channel@]),
{
    command_with("SUBSCRIBE", channel)
}

/// The command that unsubscribes from `channel`, or from every channel.
pub fn unsubscribe_command(channel: Option<&str>) -> (r: RespValue)
    ensures
        channel matches Some(c) ==> r@ == command(seq!["UNSUBSCRIBE"@, c@]),
        channel is None ==> r@ == command(seq!["UNSUBSCRIBE"@]),
{
    match channel {
        Some(c) => command_with("UNSUBSCRIBE", c),
        None => command_alone("UNSUBSCRIBE"),
    }
}

/// The command that subscribes to the channels matching `pattern`.
pub fn psubscribe_command(pattern: &str) -> (r: RespValue)
    ensures
        r@ == command(seq!["PSUBSCRIBE"@, pattern@]),
{
    command_with("PSUBSCRIBE", pattern)
}

/// The command that drops the subscription to `pattern`, or every pattern
/// subscription.
pub fn punsubscribe_command(pattern: Option<&str>) -> (r: RespValue)
    ensures
        pattern matches Some(p) ==> r@ == command(seq!["PUNSUBSCRIBE"@, p@]),
        pattern is None ==> r@ == command(seq!["PUNSUBSCRIBE"@]),
{
    match pattern {
        Some(p) => command_with("PUNSUBSCRIBE", p),
        None => command_alone("PUNSUBSCRIBE"),
    }
}

/// The keepalive ping.
pub fn ping_command() -> (r: RespValue)
    ensures
        r@ == command(seq!["PING"@]),
{
    command_alone("PING")
}

/// What the reply to a publish means: the number of subscribers that got the
/// message, the server's rejection, or a reply of the wrong shape.
pub fn publish_reply(reply: RespValue) -> (r: Result<i64, ClientError>)
    ensures
        reply@ matches WireValue::Integer(n) ==> r == Ok::<i64, ClientError>(n as i64),
        reply@ matches WireValue::SimpleError(s) ==> (r matches Err(ClientError::Server(m)) && m@
            == s),
        !(reply@ is Integer) && !(reply@ is SimpleError) ==> (r matches Err(
            ClientError::ProtocolMismatch,
        )),
{
    match reply {
        RespValue::Integer(n) => Ok(n),
        RespValue::SimpleError(s) => Err(ClientError::Server(s)),
        _ => Err(ClientError::ProtocolMismatch),
    }
}

/// The text of an element, as its own string.
fn owned_text(v: &RespValue) -> (r: Option<String>)
    ensures
        r matches Some(t) ==> text_of(v@) == Some(t@),
        r is None ==> text_of(v@) is None,
{
    match v.as_str() {
        Some(t) => Some(t.to_owned()),
        None => None,
    }
}

/// What a frame on a subscribed connection is (see `frame_kind`).
pub fn classify(frame: &RespValue) -> (r: Result<PubSubEvent, ClientError>)
    ensures
        match frame_kind(frame@) {
            FrameKind::Pong => r matches Ok(PubSubEvent::Pong),
            FrameKind::Ack => r matches Ok(PubSubEvent::Ack),
            FrameKind::Message(c, p, d) => r matches Ok(PubSubEvent::Message(m)) && message_view(
                m,
            ) == (c, p, d),
            FrameKind::Mismatch => r matches Err(ClientError::ProtocolMismatch),
        },
{
    match frame {
        RespValue::SimpleString(s) => {
            if text_eq(s.as_str(), "PONG") {
                Ok(PubSubEvent::Pong)
            } else {
                Err(ClientError::ProtocolMismatch)
            }
        },
        RespValue::BulkString(Some(_)) => Ok(PubSubEvent::Pong),
        RespValue::Array(Some(items)) => {
            proof {
                lemma_view_items(items@);
            }
            if items.len() == 0 {
                return Err(ClientError::ProtocolMismatch);
            }
            let kind = match items[0].as_str() {
                Some(w) => w,
                None => return Err(ClientError::ProtocolMismatch),
            };
            if text_eq(kind, "message") {
                if items.len() < 3 {
                    return Err(ClientError::ProtocolMismatch);
                }
                match (owned_text(&items[1]), owned_text(&items[2])) {
                    (Some(c), Some(d)) => Ok(
                        PubSubEvent::Message(
                            PubSubMessage { channel_name: c, channel_pattern: None, data: d },
                        ),
                    ),
                    _ => Err(ClientError::ProtocolMismatch),
                }
            } else if text_eq(kind, "pmessage") {
                if items.len() < 4 {
                    return Err(ClientError::ProtocolMismatch);
                }
                match (owned_text(&items[1]), owned_text(&items[2]), owned_text(&items[3])) {
                    (Some(p), Some(c), Some(d)) => Ok(
                        PubSubEvent::Message(
                            PubSubMessage { channel_name: c, channel_pattern: Some(p), data: d },
                        ),
                    ),
                    _ => Err(ClientError::ProtocolMismatch),
                }
            } else if text_eq(kind, "subscribe") || text_eq(kind, "unsubscribe") || text_eq(
                kind,
                "psubscribe",
            ) || text_eq(kind, "punsubscribe") {
                Ok(PubSubEvent::Ack)
            } else {
                Err(ClientError::ProtocolMismatch)
            }
        },
        _ => Err(ClientError::ProtocolMismatch),
    }
}

/// Whether the pong state after these frames, from `pong`, records a pong:
/// a pong frame records one, other frames leave the state as it was.
pub open spec fn pong_after(pong: bool, frames: Seq<WireValue>) -> bool
    decreases frames.len(),
{
    if frames.len() == 0 {
        pong
    } else {
        pong_after(pong, frames.drop_last()) || frame_kind(frames.last()) is Pong
    }
}

/// A keepalive tick fails exactly when the previous ping got no pong.
pub open spec fn tick_fails(pong: bool) -> bool {
    !pong
}

/// The keepalive state of a receive loop: whether the last ping has been
/// answered. Every so often a tick fires: with the answer in, a new ping goes
/// out; without it, the connection is presumed dead.
pub struct Keepalive {
    pub pong_received: bool,
}

impl Keepalive {
    /// A loop that has sent no ping yet.
    pub fn new() -> (r: Keepalive)
        ensures
            r.pong_received,
    {
        Keepalive { pong_received: true }
    }

    /// The keepalive timer fired: `Ok` means that a ping is to be sent now.
    pub fn on_tick(&mut self) -> (r: Result<(), ClientError>)
        ensures
            tick_fails(old(self).pong_received) ==> (r matches Err(ClientError::Timeout))
                && final(self).pong_received == old(self).pong_received,
            !tick_fails(old(self).pong_received) ==> r is Ok && !final(self).pong_received,
    {
        if !self.pong_received {
            return Err(ClientError::Timeout);
        }
        self.pong_received = false;
        Ok(())
    }

    /// A frame came: a pong or an acknowledgement is taken in silence, a
    /// message is handed out, any other frame is an error.
    pub fn on_frame(&mut self, frame: &RespValue) -> (r: Result<Option<PubSubMessage>, ClientError>)
        ensures
            final(self).pong_received == pong_after(old(self).pong_received, seq![frame@]),
            match frame_kind(frame@) {
                FrameKind::Pong => r matches Ok(None),
                FrameKind::Ack => r matches Ok(None),
                FrameKind::Message(c, p, d) => r matches Ok(Some(m)) && message_view(m) == (
                    c,
                    p,
                    d,
                ),
                FrameKind::Mismatch => r matches Err(ClientError::ProtocolMismatch),
            },
    {
        let ghost before = self.pong_received;
        assert(seq![frame@].drop_last() =~= Seq::<WireValue>::empty());
        assert(seq![frame@].last() == frame@);
        assert(pong_after(before, Seq::<WireValue>::empty()) == before);
        assert(pong_after(before, seq![frame@]) == (before || frame_kind(frame@) is Pong));
        match classify(frame) {
            Ok(PubSubEvent::Pong) => {
                self.pong_received = true;
                Ok(None)
            },
            Ok(PubSubEvent::Ack) => Ok(None),
            Ok(PubSubEvent::Message(m)) => Ok(Some(m)),
            Err(e) => Err(e),
        }
    }
}

/// Keepalive timeout: with the last ping answered, a tick does not fail (a
/// ping goes out and the answer is awaited); if none of the frames that come
/// before the next tick is a pong, that next tick fails.
pub proof fn lemma_keepalive_timeout(frames: Seq<WireValue>)
    requires
        forall|i: int| 0 <= i < frames.len() ==> !(#[trigger] frame_kind(frames[i]) is Pong),
    ensures
        !tick_fails(true),
        tick_fails(pong_after(false, frames)),
    decreases frames.len(),
{
    if frames.len() > 0 {
        let rest = frames.drop_last();
        assert forall|i: int| 0 <= i < rest.len() implies !(#[trigger] frame_kind(rest[i]) is Pong) by {
            assert(rest[i] == frames[i]);
        }
        lemma_keepalive_timeout(rest);
        assert(!(frame_kind(frames[frames.len() - 1]) is Pong));
    }
}

} // verus!
