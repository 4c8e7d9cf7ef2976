//! What holds of the encoder and the decoder together.
use vstd::prelude::*;

use super::decimal::{decimal_of, lemma_decimal_text, lemma_parse_decimal_of};
use super::encoder::{crlf, encode, encode_all};
use super::grammar::{
    crlf_at, first_crlf, is_tag, lemma_line_end_at, lemma_parse_bounds, lemma_parse_failed_stable,
    lemma_parse_stable, line_end, parse,
    parse_items, DecodeError, ItemsParsed, LineEnd, Parsed, CR, LF, SCAN_LIMIT,
};
use super::value::WireValue;
use vstd::utf8::encode_utf8;

verus! {

broadcast use vstd::utf8::encode_utf8_valid_utf8, vstd::utf8::encode_utf8_decode_utf8;

/// Bytes that can stand as a line: no CR LF inside, and short enough for the
/// decoder's scan.
pub open spec fn plain_line(b: Seq<u8>) -> bool {
    &&& b.len() <= SCAN_LIMIT
    &&& forall|i: int| !#[trigger] crlf_at(b, i)
}

/// A value that the wire format can carry: texts of simple strings and errors
/// are plain lines, integers fit in 64 bits, and lengths and counts fit in a
/// signed 64-bit integer.
pub open spec fn encodable(v: WireValue) -> bool
    decreases v,
{
    match v {
        WireValue::SimpleString(s) => plain_line(encode_utf8(s)),
        WireValue::SimpleError(s) => plain_line(encode_utf8(s)),
        WireValue::Integer(n) => i64::MIN <= n <= i64::MAX,
        WireValue::BulkString(Some(b)) => b.len() <= i64::MAX,
        WireValue::BulkString(None) => true,
        WireValue::Array(Some(items)) => items.len() <= i64::MAX && all_encodable(items),
        WireValue::Array(None) => true,
    }
}

pub open spec fn all_encodable(items: Seq<WireValue>) -> bool
    decreases items,
{
    items.len() > 0 ==> encodable(items[0]) && all_encodable(items.skip(1))
}

/// A plain line followed by CR LF ends there.
proof fn lemma_plain_line(b: Seq<u8>, rest: Seq<u8>)
    requires
        plain_line(b),
    ensures
        line_end(b + crlf() + rest) == LineEnd::At(b.len()),
        (b + crlf() + rest).take(b.len() as int) == b,
        (b + crlf() + rest).skip(b.len() + 2int) == rest,
{
    let s = b + crlf() + rest;
    let n = b.len() as int;
    assert(s[n] == CR && s[n + 1] == LF);
    assert forall|j: int| 0 <= j < n implies !#[trigger] crlf_at(s, j) by {
        if j + 1 < n {
            assert(!crlf_at(b, j));
            assert(s[j] == b[j] && s[j + 1] == b[j + 1]);
        } else {
            assert(s[j + 1] == CR);
        }
    }
    assert(first_crlf(s, n));
    lemma_line_end_at(s, n);
    assert(s.take(n) =~= b);
    assert(s.skip(n + 2) =~= rest);
}

proof fn lemma_decimal_line(n: int)
    requires
        i64::MIN <= n <= i64::MAX,
    ensures
        plain_line(decimal_of(n)),
        super::decimal::parse_decimal(decimal_of(n)) == Some(n),
{
    lemma_decimal_text(n);
    lemma_parse_decimal_of(n);
    let d = decimal_of(n);
    assert forall|i: int| !#[trigger] crlf_at(d, i) by {
        if 0 <= i < d.len() {
            assert(d[i] != CR);
        }
    }
}

/// Decoding the bytes of an encodable value, whatever follows them, gives back
/// the value and takes exactly its bytes.
#[verifier::rlimit(60)]
pub proof fn lemma_round_trip(v: WireValue, rest: Seq<u8>)
    requires
        encodable(v),
    ensures
        parse(encode(v) + rest) == Parsed::Done(v, encode(v).len()),
    decreases v,
{
    let e = encode(v);
    let s = e + rest;
    let body = s.skip(1);
    assert(is_tag(s[0]));
    match v {
        WireValue::SimpleString(t) => {
            assert(body =~= encode_utf8(t) + crlf() + rest);
            lemma_plain_line(encode_utf8(t), rest);
        },
        WireValue::SimpleError(t) => {
            assert(body =~= encode_utf8(t) + crlf() + rest);
            lemma_plain_line(encode_utf8(t), rest);
        },
        WireValue::Integer(n) => {
            lemma_decimal_line(n);
            assert(body =~= decimal_of(n) + crlf() + rest);
            lemma_plain_line(decimal_of(n), rest);
        },
        WireValue::BulkString(None) => {
            lemma_decimal_line(-1);
            assert(body =~= decimal_of(-1) + crlf() + rest);
            lemma_plain_line(decimal_of(-1), rest);
        },
        WireValue::BulkString(Some(b)) => {
            let n = b.len() as int;
            lemma_decimal_line(n);
            let after_line = b + crlf() + rest;
            assert(body =~= decimal_of(n) + crlf() + after_line);
            lemma_plain_line(decimal_of(n), after_line);
            assert(after_line.take(n) =~= b);
        },
        WireValue::Array(None) => {
            lemma_decimal_line(-1);
            assert(body =~= decimal_of(-1) + crlf() + rest);
            lemma_plain_line(decimal_of(-1), rest);
        },
        WireValue::Array(Some(items)) => {
            let n = items.len() as int;
            lemma_decimal_line(n);
            let after_line = encode_all(items) + rest;
            assert(body =~= decimal_of(n) + crlf() + after_line);
            lemma_plain_line(decimal_of(n), after_line);
            lemma_items_round_trip(items, rest);
            assert(Seq::<WireValue>::empty() + items =~= items);
        },
    }
}

/// Decoding the bytes of encodable values one after another gives them back.
pub proof fn lemma_items_round_trip(items: Seq<WireValue>, rest: Seq<u8>)
    requires
        all_encodable(items),
    ensures
        parse_items(encode_all(items) + rest, items.len()) == ItemsParsed::Done(
            items,
            encode_all(items).len(),
        ),
    decreases items,
{
    if items.len() == 0 {
        assert(items =~= Seq::<WireValue>::empty());
    } else {
        let first = encode(items[0]);
        let tail = items.skip(1);
        let s = encode_all(items) + rest;
        assert(s =~= first + (encode_all(tail) + rest));
        lemma_round_trip(items[0], encode_all(tail) + rest);
        lemma_parse_bounds(first + (encode_all(tail) + rest));
        assert(s.skip(first.len() as int) =~= encode_all(tail) + rest);
        lemma_items_round_trip(tail, rest);
        assert(seq![items[0]] + tail =~= items);
    }
}

/// A complete frame decodes the same however it is cut: every proper prefix
/// of it needs more bytes, and the frame, with anything after it, gives its
/// value. The decoder's result depends only on the bytes given since the last
/// value, so feeding a frame in any number of pieces gives `Ok(None)` until
/// the last piece and then the frame's value.
pub proof fn lemma_fragmentation(frame: Seq<u8>, more: Seq<u8>)
    requires
        parse(frame) matches Parsed::Done(v, k) && k == frame.len(),
    ensures
        forall|j: int| 0 <= j < frame.len() ==> #[trigger] parse(frame.take(j)) == Parsed::Incomplete,
        parse(frame + more) == parse(frame),
{
    let k = frame.len() as int;
    lemma_parse_stable(frame, more);
    assert(frame.take(k) =~= frame);
    assert forall|j: int| 0 <= j < frame.len() implies #[trigger] parse(frame.take(j))
        == Parsed::Incomplete by {
        let p = frame.take(j);
        let tail = frame.skip(j);
        assert(p + tail =~= frame);
        lemma_parse_failed_stable(p, tail);
        lemma_parse_bounds(p);
        if let Parsed::Done(w, m) = parse(p) {
            lemma_parse_stable(p, p.skip(m as int) + tail);
            assert(p.take(m as int) + (p.skip(m as int) + tail) =~= frame);
        }
    }
}

/// A byte that is none of the five tags, at the start of the input, is an
/// error at once, whatever follows.
pub proof fn lemma_invalid_prefix(b: u8, rest: Seq<u8>)
    requires
        !is_tag(b),
    ensures
        parse(seq![b] + rest) == Parsed::Failed(DecodeError::InvalidPrefix(b)),
{
    assert((seq![b] + rest)[0] == b);
}

} // verus!
