//! Framing of RESP values over a byte stream.
use vstd::prelude::*;

pub use self::decoder::RespDecoder;
pub use self::grammar::DecodeError;
pub use self::value::RespValue;

use self::buffer::buffered;
use self::encoder::{encode, resp_encode};
use self::grammar::{parse, Parsed};
use bytes::BytesMut;

pub mod buffer;
pub mod debug_text;
pub mod decimal;
pub mod grammar;
pub mod laws;
pub mod value;
mod utf8;
pub mod decoder;
pub mod encoder;

verus! {

/// The decoder and the encoder of one connection, as one duplex framing: bytes
/// in to values, values out to bytes.
pub struct RespCodec {
    dec: RespDecoder,
}

impl RespCodec {
    /// See `RespDecoder::wf`.
    pub closed spec fn wf(&self) -> bool {
        self.dec.wf()
    }

    /// See `RespDecoder::consumed`.
    pub closed spec fn consumed(&self) -> Seq<u8> {
        self.dec.consumed()
    }

    /// See `RespDecoder::pending`.
    pub closed spec fn pending(&self) -> Seq<u8> {
        self.dec.pending()
    }

    /// A codec that has read nothing.
    pub fn new() -> (r: RespCodec)
        ensures
            r.wf(),
            r.consumed() == Seq::<u8>::empty(),
            r.pending() == Seq::<u8>::empty(),
    {
        RespCodec { dec: RespDecoder::new() }
    }

    /// Decodes the next value from `src`, as `RespDecoder::decode` does.
    pub fn decode(&mut self, src: &mut BytesMut) -> (r: Result<Option<RespValue>, DecodeError>)
        requires
            old(self).wf(),
            old(self).pending().is_prefix_of(buffered(*old(src))),
        ensures
            final(self).wf(),
            ({
                let input = old(self).consumed() + buffered(*old(src));
                match parse(input) {
                    Parsed::Done(v, k) => {
                        &&& r matches Ok(Some(x)) && x@ == v
                        &&& buffered(*final(src)) == input.skip(k as int)
                        &&& final(self).consumed() == Seq::<u8>::empty()
                        &&& final(self).pending() == Seq::<u8>::empty()
                    },
                    Parsed::Incomplete => {
                        &&& r matches Ok(None)
                        &&& final(self).consumed() + buffered(*final(src)) == input
                        &&& final(self).pending() == buffered(*final(src))
                    },
                    Parsed::Failed(e) => {
                        &&& r == Err::<Option<RespValue>, DecodeError>(e)
                        &&& final(self).consumed() == Seq::<u8>::empty()
                        &&& final(self).pending() == Seq::<u8>::empty()
                    },
                }
            }),
    {
        self.dec.decode(src)
    }

    /// Appends the bytes of `item` to `dst`.
    pub fn encode(&mut self, item: RespValue, dst: &mut BytesMut)
        requires
            buffered(*old(dst)).len() + encode(item@).len() <= isize::MAX,
        ensures
            buffered(*final(dst)) == buffered(*old(dst)) + encode(item@),
            *final(self) == *old(self),
    {
        resp_encode(item, dst)
    }
}

impl Default for RespCodec {
    fn default() -> (r: RespCodec)
        ensures
            r.wf(),
            r.consumed() == Seq::<u8>::empty(),
            r.pending() == Seq::<u8>::empty(),
    {
        RespCodec::new()
    }
}

impl Default for RespDecoder {
    fn default() -> (r: RespDecoder)
        ensures
            r.wf(),
            r.consumed() == Seq::<u8>::empty(),
            r.pending() == Seq::<u8>::empty(),
    {
        RespDecoder::new()
    }
}

} // verus!
