//! The encoder: a value out as the bytes of the wire format.
use vstd::prelude::*;

use super::buffer::{buf_put_slice, buffered};
use super::decimal::{decimal_of, format_decimal, format_length};
use super::grammar::{ARRAY_TAG, BULK_TAG, CR, ERROR_TAG, INTEGER_TAG, LF, SIMPLE_TAG};
use super::value::{lemma_view_items, view_items, RespValue, WireValue};
use bytes::BytesMut;
use vstd::utf8::encode_utf8;

verus! {

broadcast use vstd::std_specs::vec::group_vec_axioms;

pub open spec fn crlf() -> Seq<u8> {
    seq![CR, LF]
}

/// The bytes of a value in the wire format.
pub open spec fn encode(v: WireValue) -> Seq<u8>
    decreases v,
{
    match v {
        WireValue::SimpleString(s) => seq![SIMPLE_TAG] + encode_utf8(s) + crlf(),
        WireValue::SimpleError(s) => seq![ERROR_TAG] + encode_utf8(s) + crlf(),
        WireValue::Integer(n) => seq![INTEGER_TAG] + decimal_of(n) + crlf(),
        WireValue::BulkString(None) => seq![BULK_TAG] + decimal_of(-1) + crlf(),
        WireValue::BulkString(Some(b)) => seq![BULK_TAG] + decimal_of(b.len() as int) + crlf() + b
            + crlf(),
        WireValue::Array(None) => seq![ARRAY_TAG] + decimal_of(-1) + crlf(),
        WireValue::Array(Some(items)) => seq![ARRAY_TAG] + decimal_of(items.len() as int) + crlf()
            + encode_all(items),
    }
}

/// The bytes of values one after another.
pub open spec fn encode_all(items: Seq<WireValue>) -> Seq<u8>
    decreases items,
{
    if items.len() == 0 {
        Seq::empty()
    } else {
        encode(items[0]) + encode_all(items.skip(1))
    }
}

pub proof fn lemma_encode_all_push(items: Seq<WireValue>, x: WireValue)
    ensures
        encode_all(items.push(x)) == encode_all(items) + encode(x),
    decreases items.len(),
{
    if items.len() == 0 {
        assert(items.push(x).skip(1) =~= Seq::<WireValue>::empty());
        assert(items.push(x)[0] == x);
        assert(encode_all(Seq::<WireValue>::empty()) =~= Seq::<u8>::empty());
        assert(encode_all(items) =~= Seq::<u8>::empty());
        assert(encode_all(items.push(x)) =~= encode(x));
    } else {
        assert(items.push(x).skip(1) =~= items.skip(1).push(x));
        lemma_encode_all_push(items.skip(1), x);
        assert(encode_all(items.push(x)) =~= encode_all(items) + encode(x));
    }
}

proof fn lemma_encode_all_prefix(items: Seq<WireValue>, i: int)
    requires
        0 <= i <= items.len(),
    ensures
        encode_all(items.take(i)).len() <= encode_all(items).len(),
    decreases items.len() - i,
{
    if i < items.len() {
        lemma_encode_all_prefix(items, i + 1);
        assert(items.take(i + 1) =~= items.take(i).push(items[i]));
        lemma_encode_all_push(items.take(i), items[i]);
    } else {
        assert(items.take(i) =~= items);
    }
}

fn put_crlf(dst: &mut BytesMut)
    requires
        buffered(*old(dst)).len() + 2 <= isize::MAX,
    ensures
        buffered(*final(dst)) == buffered(*old(dst)) + crlf(),
{
    let end: Vec<u8> = vec![CR, LF];
    buf_put_slice(dst, end.as_slice());
    assert(end@ =~= crlf());
}

fn put_tag(dst: &mut BytesMut, tag: u8)
    requires
        buffered(*old(dst)).len() + 1 <= isize::MAX,
    ensures
        buffered(*final(dst)) == buffered(*old(dst)) + seq![tag],
{
    let b: Vec<u8> = vec![tag];
    buf_put_slice(dst, b.as_slice());
    assert(b@ =~= seq![tag]);
}

/// Appends the bytes of `item` to `dst`.
fn encode_into(item: &RespValue, dst: &mut BytesMut)
    requires
        buffered(*old(dst)).len() + encode(item@).len() <= isize::MAX,
    ensures
        buffered(*final(dst)) == buffered(*old(dst)) + encode(item@),
    decreases item,
{
    let ghost start = buffered(*dst);
    match item {
        RespValue::SimpleString(s) => {
            put_tag(dst, SIMPLE_TAG);
            buf_put_slice(dst, s.as_str().as_bytes());
            put_crlf(dst);
        },
        RespValue::SimpleError(s) => {
            put_tag(dst, ERROR_TAG);
            buf_put_slice(dst, s.as_str().as_bytes());
            put_crlf(dst);
        },
        RespValue::Integer(n) => {
            put_tag(dst, INTEGER_TAG);
            let text = format_decimal(*n);
            buf_put_slice(dst, text.as_slice());
            put_crlf(dst);
        },
        RespValue::BulkString(None) => {
            put_tag(dst, BULK_TAG);
            let text = format_decimal(-1);
            buf_put_slice(dst, text.as_slice());
            put_crlf(dst);
        },
        RespValue::BulkString(Some(b)) => {
            put_tag(dst, BULK_TAG);
            let text = format_length(b.len());
            buf_put_slice(dst, text.as_slice());
            put_crlf(dst);
            buf_put_slice(dst, b.as_slice());
            put_crlf(dst);
        },
        RespValue::Array(None) => {
            put_tag(dst, ARRAY_TAG);
            let text = format_decimal(-1);
            buf_put_slice(dst, text.as_slice());
            put_crlf(dst);
        },
        RespValue::Array(Some(items)) => {
            let ghost models = view_items(items@);
            proof {
                lemma_view_items(items@);
            }
            put_tag(dst, ARRAY_TAG);
            let text = format_length(items.len());
            buf_put_slice(dst, text.as_slice());
            put_crlf(dst);
            let ghost head = buffered(*dst);
            let mut i: usize = 0;
            assert(models.take(0) =~= Seq::<WireValue>::empty());
            while i < items.len()
                invariant
                    i <= items.len(),
                    models == view_items(items@),
                    models.len() == items@.len(),
                    forall|j: int| 0 <= j < items.len() ==> #[trigger] models[j] == items[j]@,
                    decreases_to!(*item => *items),
                    head + encode_all(models) == start + encode(item@),
                    buffered(*dst) == head + encode_all(models.take(i as int)),
                    start.len() + encode(item@).len() <= isize::MAX,
                decreases items.len() - i,
            {
                proof {
                    lemma_encode_all_prefix(models, i + 1);
                    assert(models.take(i + 1) =~= models.take(i as int).push(models[i as int]));
                    lemma_encode_all_push(models.take(i as int), models[i as int]);
                    assert(decreases_to!(*items => items[i as int]));
                    assert(models[i as int] == items[i as int]@);
                    assert(encode_all(models.take(i + 1)).len() == encode_all(
                        models.take(i as int),
                    ).len() + encode(items[i as int]@).len());
                    assert((head + encode_all(models)).len() == head.len() + encode_all(
                        models,
                    ).len());
                }
                encode_into(&items[i], dst);
                i += 1;
            }
            assert(models.take(i as int) =~= models);
        },
    }
    assert(buffered(*dst) =~= start + encode(item@));
}

/// Appends the bytes of `item` in the wire format to `dst`.
pub fn resp_encode(item: RespValue, dst: &mut BytesMut)
    requires
        buffered(*old(dst)).len() + encode(item@).len() <= isize::MAX,
    ensures
        buffered(*final(dst)) == buffered(*old(dst)) + encode(item@),
{
    encode_into(&item, dst);
}

} // verus!
