//! The value model of the wire format.
use vstd::prelude::*;

use super::utf8::utf8_str;
use vstd::utf8::{decode_utf8, encode_utf8, valid_utf8};

verus! {

broadcast use vstd::std_specs::vec::group_vec_axioms;

/// The mathematical model of a wire value: texts are character sequences, bulk
/// strings are byte sequences, and integers are unbounded mathematical integers.
pub enum WireValue {
    SimpleString(Seq<char>),
    SimpleError(Seq<char>),
    Integer(int),
    BulkString(Option<Seq<u8>>),
    Array(Option<Seq<WireValue>>),
}

/// A value of the wire format. A bulk string or an array may be null (`None`),
/// which is a state of its own, distinct from the empty one.
#[derive(PartialEq, Eq, Debug)]
pub enum RespValue {
    SimpleString(String),
    SimpleError(String),
    Integer(i64),
    BulkString(Option<Vec<u8>>),
    Array(Option<Vec<RespValue>>),
}

impl View for RespValue {
    type V = WireValue;

    open spec fn view(&self) -> WireValue {
        model_of(*self)
    }
}

/// The model of one value.
pub open spec fn model_of(v: RespValue) -> WireValue
    decreases v,
{
    match v {
        RespValue::SimpleString(s) => WireValue::SimpleString(s@),
        RespValue::SimpleError(s) => WireValue::SimpleError(s@),
        RespValue::Integer(n) => WireValue::Integer(n as int),
        RespValue::BulkString(None) => WireValue::BulkString(None),
        RespValue::BulkString(Some(b)) => WireValue::BulkString(Some(b@)),
        RespValue::Array(None) => WireValue::Array(None),
        RespValue::Array(Some(items)) => WireValue::Array(Some(view_items(items@))),
    }
}

/// The models of a sequence of values, in order.
pub open spec fn view_items(items: Seq<RespValue>) -> Seq<WireValue>
    decreases items,
{
    if items.len() == 0 {
        Seq::empty()
    } else {
        view_items(items.drop_last()).push(model_of(items.last()))
    }
}

pub proof fn lemma_view_items(items: Seq<RespValue>)
    ensures
        view_items(items).len() == items.len(),
        forall|i: int| 0 <= i < items.len() ==> #[trigger] view_items(items)[i] == items[i]@,
    decreases items.len(),
{
    if items.len() > 0 {
        lemma_view_items(items.drop_last());
    }
}

impl Clone for RespValue {
    /// A deep copy, with the same model as `self`.
    fn clone(&self) -> (r: RespValue)
        ensures
            r@ == self@,
        decreases self,
    {
        match self {
            RespValue::SimpleString(s) => {
                let c = s.clone();
                assert(c@ == s@);
                RespValue::SimpleString(c)
            },
            RespValue::SimpleError(s) => RespValue::SimpleError(s.clone()),
            RespValue::Integer(n) => RespValue::Integer(*n),
            RespValue::BulkString(None) => RespValue::BulkString(None),
            RespValue::BulkString(Some(b)) => RespValue::BulkString(Some(b.clone())),
            RespValue::Array(None) => RespValue::Array(None),
            RespValue::Array(Some(items)) => {
                assert(decreases_to!(*self => *items));
                let mut copy: Vec<RespValue> = Vec::new();
                let mut i: usize = 0;
                while i < items.len()
                    invariant
                        i <= items.len(),
                        copy.len() == i,
                        decreases_to!(*self => *items),
                        forall|j: int| 0 <= j < i ==> #[trigger] model_of(copy@[j]) == model_of(items@[j]),
                    decreases items.len() - i,
                {
                    assert(decreases_to!(*items => items[i as int]));
                    copy.push(items[i].clone());
                    i += 1;
                }
                proof {
                    lemma_view_items(copy@);
                    lemma_view_items(items@);
                    assert(view_items(copy@) =~= view_items(items@));
                }
                RespValue::Array(Some(copy))
            },
        }
    }
}

/// The text that a value carries: that of a simple string or error, or the
/// payload of a bulk string that is valid UTF-8.
pub open spec fn text_of(v: WireValue) -> Option<Seq<char>> {
    match v {
        WireValue::SimpleString(s) => Some(s),
        WireValue::SimpleError(s) => Some(s),
        WireValue::BulkString(Some(b)) => if valid_utf8(b) {
            Some(decode_utf8(b))
        } else {
            None
        },
        _ => None,
    }
}

impl RespValue {
    /// The text that the value carries, if any (see `text_of`).
    pub fn as_str(&self) -> (r: Option<&str>)
        ensures
            r matches Some(t) ==> text_of(self@) == Some(t@),
            r is None ==> text_of(self@) is None,
    {
        match self {
            RespValue::BulkString(Some(buf)) => utf8_str(buf.as_slice()),
            RespValue::SimpleString(val) => Some(val.as_str()),
            RespValue::SimpleError(val) => Some(val.as_str()),
            _ => None,
        }
    }

    /// No value lends out its bytes as text: always `None`.
    pub fn as_buf(&self) -> (r: Option<&str>)
        ensures
            r is None,
    {
        None
    }
}

/// An array of the given values.
pub fn array(values: Vec<RespValue>) -> (r: RespValue)
    ensures
        r@ == WireValue::Array(Some(view_items(values@))),
{
    RespValue::Array(Some(values))
}

/// A simple string.
pub fn simple(s: &str) -> (r: RespValue)
    ensures
        r@ == WireValue::SimpleString(s@),
{
    RespValue::SimpleString(s.to_owned())
}

/// A simple error.
pub fn err(s: &str) -> (r: RespValue)
    ensures
        r@ == WireValue::SimpleError(s@),
{
    RespValue::SimpleError(s.to_owned())
}

/// An integer.
pub fn integer(n: i64) -> (r: RespValue)
    ensures
        r@ == WireValue::Integer(n as int),
{
    RespValue::Integer(n)
}

/// A bulk string holding the UTF-8 bytes of `s`.
pub fn bulk(s: &str) -> (r: RespValue)
    ensures
        r@ == WireValue::BulkString(Some(encode_utf8(s@))),
{
    RespValue::BulkString(Some(vstd::slice::slice_to_vec(s.as_bytes())))
}

} // verus!
