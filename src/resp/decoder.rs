//! The resumable decoder: bytes in, one value out once all of its bytes are
//! there, however they were split across calls.
use vstd::prelude::*;

use super::buffer::{buf_advance, buf_byte, buf_len, buf_split_front, buffered};
use super::decimal::{parse_decimal, parse_i64};
use super::grammar::{
    after, array_body, array_of, bulk_payload, crlf_at, first_crlf, is_tag, line_end, parse, parse_body,
    parse_items, lemma_line_end_at, lemma_line_kept, lemma_parse_bounds, lemma_parse_body_bounds, lemma_parse_body_stable, lemma_parse_items_bounds, DecodeError, ItemsParsed,
    LineEnd, Parsed, ARRAY_TAG, BULK_TAG, CR, ERROR_TAG, INTEGER_TAG,
    LF, SCAN_LIMIT, SIMPLE_TAG,
};
use super::value::{lemma_view_items, view_items, RespValue, WireValue};
use super::utf8::utf8_to_string;
use bytes::BytesMut;
use vstd::utf8::{decode_utf8, valid_utf8};

verus! {

broadcast use vstd::std_specs::vec::group_vec_axioms;

/// The kind of value whose bytes are being read.
#[derive(Clone, Copy)]
enum Op {
    SimpleString,
    Error,
    Integer,
    BulkString,
    Array,
}

spec fn tag_of(op: Op) -> u8 {
    match op {
        Op::SimpleString => SIMPLE_TAG,
        Op::Error => ERROR_TAG,
        Op::Integer => INTEGER_TAG,
        Op::BulkString => BULK_TAG,
        Op::Array => ARRAY_TAG,
    }
}

/// An array whose elements are being read: how many are still to come, and
/// those read so far.
struct ArrayContext {
    rem: i64,
    items: Vec<RespValue>,
}

impl ArrayContext {
    fn new(len: i64) -> (r: ArrayContext)
        ensures
            r.rem == len,
            r.items@.len() == 0,
    {
        ArrayContext { rem: len, items: Vec::new() }
    }

    fn push(&mut self, item: RespValue)
        requires
            old(self).rem >= 1,
        ensures
            final(self).rem == old(self).rem - 1,
            final(self).items@ == old(self).items@.push(item),
    {
        self.items.push(item);
        self.rem = self.rem - 1;
    }

    fn is_complete(&self) -> (r: bool)
        ensures
            r == (self.rem == 0),
    {
        self.rem == 0
    }

    fn items(self) -> (r: Vec<RespValue>)
        ensures
            r == self.items,
    {
        self.items
    }
}

spec fn frame_of(c: ArrayContext) -> (int, Seq<WireValue>) {
    (c.rem as int, view_items(c.items@))
}

/// Finishes a result through the arrays that are open around it, innermost
/// last in `frames` (each: elements still to come, elements read so far); `r`
/// is the input that the result was read from.
pub open spec fn close(frames: Seq<(int, Seq<WireValue>)>, res: Parsed, r: Seq<u8>) -> Parsed
    decreases frames.len(),
{
    if frames.len() == 0 {
        res
    } else {
        let rem = frames.last().0;
        let items = frames.last().1;
        let outer = frames.drop_last();
        match res {
            Parsed::Done(v, k) => if rem <= 1 {
                close(outer, Parsed::Done(WireValue::Array(Some(items.push(v))), k), r)
            } else {
                match array_of(items.push(v), parse_items(r.skip(k as int), (rem - 1) as nat)) {
                    Parsed::Done(w, k2) => close(outer, Parsed::Done(w, k + k2), r),
                    other => other,
                }
            },
            _ => res,
        }
    }
}

/// A result that the arrays around it pass through unchanged.
proof fn lemma_close_not_done(frames: Seq<(int, Seq<WireValue>)>, res: Parsed, r: Seq<u8>)
    requires
        !(res is Done),
    ensures
        close(frames, res, r) == res,
{
}

/// Moving a result along the input moves what the open arrays make of it.
proof fn lemma_close_after(
    frames: Seq<(int, Seq<WireValue>)>,
    x: Parsed,
    p: Seq<u8>,
    r: Seq<u8>,
)
    requires
        x matches Parsed::Done(v, k) ==> k <= r.len(),
    ensures
        close(frames, after(x, p.len()), p + r) == after(close(frames, x, r), p.len()),
    decreases frames.len(),
{
    if frames.len() > 0 {
        if let Parsed::Done(v, k) = x {
            let rem = frames.last().0;
            let items = frames.last().1;
            let outer = frames.drop_last();
            if rem <= 1 {
                lemma_close_after(
                    outer,
                    Parsed::Done(WireValue::Array(Some(items.push(v))), k),
                    p,
                    r,
                );
            } else {
                assert((p + r).skip((k + p.len()) as int) =~= r.skip(k as int));
                let rest = array_of(items.push(v), parse_items(r.skip(k as int), (rem - 1) as nat));
                lemma_parse_items_bounds(r.skip(k as int), (rem - 1) as nat);
                if let Parsed::Done(w, k2) = rest {
                    lemma_close_after(outer, Parsed::Done(w, k + k2), p, r);
                }
            }
        }
    }
}

/// Opening an array of `m` elements, of which `its` are read: what follows is
/// read as its remaining elements.
proof fn lemma_close_open(
    g: Seq<(int, Seq<WireValue>)>,
    m: int,
    its: Seq<WireValue>,
    r: Seq<u8>,
)
    requires
        m >= 1,
    ensures
        close(g.push((m, its)), parse(r), r) == close(g, array_of(its, parse_items(r, m as nat)), r),
{
    let f = g.push((m, its));
    assert(f.drop_last() =~= g);
    lemma_parse_bounds(r);
    match parse(r) {
        Parsed::Done(v, k) => {
            if m == 1 {
                assert(parse_items(r.skip(k as int), 0) == ItemsParsed::Done(Seq::empty(), 0));
                assert(its.push(v) =~= its + (seq![v] + Seq::empty()));
            } else {
                let tail = parse_items(r.skip(k as int), (m - 1) as nat);
                if let ItemsParsed::Done(vs, k2) = tail {
                    assert(its.push(v) + vs =~= its + (seq![v] + vs));
                } else {
                    lemma_close_not_done(g, array_of(its, parse_items(r, m as nat)), r);
                }
            }
        },
        _ => {
            lemma_close_not_done(g, array_of(its, parse_items(r, m as nat)), r);
        },
    }
}

/// The next element of an array that is not yet full, read from `r`.
proof fn lemma_close_continue(
    g: Seq<(int, Seq<WireValue>)>,
    rem: int,
    items: Seq<WireValue>,
    v: WireValue,
    r: Seq<u8>,
)
    requires
        rem >= 2,
    ensures
        close(g.push((rem, items)), Parsed::Done(v, 0), r) == close(
            g.push((rem - 1, items.push(v))),
            parse(r),
            r,
        ),
{
    let f = g.push((rem, items));
    assert(f.drop_last() =~= g);
    assert(r.skip(0) =~= r);
    lemma_close_open(g, rem - 1, items.push(v), r);
    let rest = array_of(items.push(v), parse_items(r, (rem - 1) as nat));
    if !(rest is Done) {
        lemma_close_not_done(g, rest, r);
    }
}

/// Taking the bytes `p` past a state whose element is read by `el` gives a
/// state whose element is read by `el2`.
proof fn lemma_take(
    frames: Seq<(int, Seq<WireValue>)>,
    c: Seq<u8>,
    p: Seq<u8>,
    el: spec_fn(Seq<u8>) -> Parsed,
    el2: spec_fn(Seq<u8>) -> Parsed,
)
    requires
        forall|r: Seq<u8>| #[trigger] parse(c + r) == after(close(frames, el(r), r), c.len()),
        forall|r: Seq<u8>| #[trigger] el(p + r) == after(el2(r), p.len()),
        forall|r: Seq<u8>| (#[trigger] el2(r)) matches Parsed::Done(v, k) ==> k <= r.len(),
    ensures
        forall|r: Seq<u8>| #[trigger]
            parse((c + p) + r) == after(close(frames, el2(r), r), (c + p).len()),
{
    assert forall|r: Seq<u8>| #[trigger]
        parse((c + p) + r) == after(close(frames, el2(r), r), (c + p).len()) by {
        let r0 = p + r;
        assert((c + p) + r =~= c + r0);
        assert(parse(c + r0) == after(close(frames, el(r0), r0), c.len()));
        assert(el(r0) == after(el2(r), p.len()));
        lemma_close_after(frames, el2(r), p, r);
    }
}

/// The start of an array: a value at once, or elements to read.
enum ArrayStart {
    Value(RespValue),
    Open(ArrayContext),
}

/// How far reading an element got.
enum Step {
    /// A value is done.
    Value(RespValue),
    /// An array was opened; its elements come next.
    Opened,
}

/// The decoder's state, kept between calls: the scan position in the current
/// line, the declared length of a bulk string whose payload is awaited, the
/// kind of value being read, and the arrays being filled.
pub struct RespDecoder {
    ptr: usize,
    cached_len: Option<i64>,
    op: Option<Op>,
    stack: Vec<ArrayContext>,
    /// The bytes of the value in progress that earlier calls took from the buffer.
    taken: Ghost<Seq<u8>>,
    /// The buffer as the last call left it.
    left: Ghost<Seq<u8>>,
}

impl RespDecoder {
    /// The bytes of the value in progress that the decoder has already taken
    /// out of the buffer.
    pub closed spec fn consumed(&self) -> Seq<u8> {
        self.taken@
    }

    /// What the buffer held when the last call returned.
    pub closed spec fn pending(&self) -> Seq<u8> {
        self.left@
    }

    spec fn frames(&self) -> Seq<(int, Seq<WireValue>)> {
        self.stack@.map_values(|c: ArrayContext| frame_of(c))
    }

    spec fn element(&self, r: Seq<u8>) -> Parsed {
        match self.op {
            None => parse(r),
            Some(op) => match self.cached_len {
                None => parse_body(tag_of(op), r),
                Some(n) => bulk_payload(n as int, r),
            },
        }
    }

    /// What the decoder gives once `r` follows the bytes it has taken.
    spec fn resume(&self, r: Seq<u8>) -> Parsed {
        close(self.frames(), self.element(r), r)
    }

    spec fn scan_ok(&self, s: Seq<u8>) -> bool {
        &&& self.ptr <= SCAN_LIMIT + 1
        &&& self.ptr == 0 || self.ptr < s.len()
        &&& forall|q: int| 0 <= q < self.ptr ==> !#[trigger] crlf_at(s, q)
    }

    /// The state stands for the bytes taken: decoding them followed by any `r`
    /// is resuming from the state on `r`.
    pub closed spec fn wf(&self) -> bool {
        &&& self.stands_for(self.taken@)
        &&& self.shape_ok()
        &&& self.scan_ok(self.left@)
    }

    /// A decoder that has read nothing.
    pub fn new() -> (r: RespDecoder)
        ensures
            r.wf(),
            r.consumed() == Seq::<u8>::empty(),
            r.pending() == Seq::<u8>::empty(),
    {
        let r = RespDecoder {
            ptr: 0,
            cached_len: None,
            op: None,
            stack: Vec::new(),
            taken: Ghost(Seq::empty()),
            left: Ghost(Seq::empty()),
        };
        proof {
            assert forall|s: Seq<u8>| #[trigger] parse(r.taken@ + s) == after(r.resume(s), 0) by {
                assert(r.taken@ + s =~= s);
                assert(r.frames() =~= Seq::empty());
            }
        }
        r
    }

    /// The fields other than the scan position are those of `other`.
    spec fn same_but_ptr(&self, other: &RespDecoder) -> bool {
        &&& self.cached_len == other.cached_len
        &&& self.op == other.op
        &&& self.stack == other.stack
        &&& self.taken == other.taken
        &&& self.left == other.left
    }

    /// Returns the kind of value being read, taking its tag byte from `src`
    /// if no value is under way.
    fn get_op(&mut self, src: &mut BytesMut) -> (r: Result<Option<Op>, DecodeError>)
        ensures
            final(self).ptr == old(self).ptr,
            final(self).cached_len == old(self).cached_len,
            final(self).stack == old(self).stack,
            final(self).taken == old(self).taken,
            final(self).left == old(self).left,
            old(self).op matches Some(op) ==> r == Ok::<Option<Op>, DecodeError>(Some(op))
                && final(self).op == old(self).op && buffered(*final(src)) == buffered(*old(src)),
            old(self).op is None ==> ({
                let s = buffered(*old(src));
                &&& s.len() == 0 ==> r == Ok::<Option<Op>, DecodeError>(None) && final(self).op is None
                    && buffered(*final(src)) == s
                &&& s.len() > 0 && is_tag(s[0]) ==> (r matches Ok(Some(op)) && tag_of(op) == s[0]
                    && final(self).op == Some(op) && buffered(*final(src)) == s.skip(1))
                &&& s.len() > 0 && !is_tag(s[0]) ==> r == Err::<Option<Op>, DecodeError>(
                    DecodeError::InvalidPrefix(s[0]),
                )
            }),
    {
        if self.op.is_none() {
            if buf_len(src) == 0 {
                return Ok(None);
            }
            let b = buf_byte(src, 0);
            buf_advance(src, 1);
            let op = if b == SIMPLE_TAG {
                Op::SimpleString
            } else if b == ERROR_TAG {
                Op::Error
            } else if b == INTEGER_TAG {
                Op::Integer
            } else if b == BULK_TAG {
                Op::BulkString
            } else if b == ARRAY_TAG {
                Op::Array
            } else {
                return Err(DecodeError::InvalidPrefix(b));
            };
            self.op = Some(op);
        }
        match self.op {
            Some(op) => Ok(Some(op)),
            None => Ok(None),
        }
    }

    /// Returns where the CR LF that ends the line at the front of `src` starts,
    /// resuming the scan where the last call stopped; `None` if it is not there
    /// yet.
    fn next_crlf(&mut self, src: &BytesMut) -> (r: Result<Option<usize>, DecodeError>)
        requires
            old(self).scan_ok(buffered(*src)),
        ensures
            final(self).same_but_ptr(old(self)),
            match line_end(buffered(*src)) {
                LineEnd::At(p) => r == Ok::<Option<usize>, DecodeError>(Some(p as usize))
                    && final(self).ptr == 0,
                LineEnd::Short => r == Ok::<Option<usize>, DecodeError>(None) && final(self).scan_ok(buffered(*src)),
                LineEnd::TooLong => r == Err::<Option<usize>, DecodeError>(DecodeError::LineTooLong),
            },
    {
        let ghost s = buffered(*src);
        let len = buf_len(src);
        loop
            invariant
                self.scan_ok(s),
                self.same_but_ptr(old(self)),
                s == buffered(*src),
                len == s.len(),
            decreases len - self.ptr,
        {
            if self.ptr >= len || len - self.ptr < 2 {
                proof {
                    assert forall|i: int| !first_crlf(s, i) by {
                        if first_crlf(s, i) && i >= self.ptr {
                            assert(crlf_at(s, i));
                        }
                    }
                }
                return Ok(None);
            }
            if self.ptr > SCAN_LIMIT {
                proof {
                    assert forall|i: int| !first_crlf(s, i) by {
                        if first_crlf(s, i) {
                            assert(!crlf_at(s, i));
                        }
                    }
                }
                return Err(DecodeError::LineTooLong);
            }
            if buf_byte(src, self.ptr) == CR && buf_byte(src, self.ptr + 1) == LF {
                let p = self.ptr;
                self.ptr = 0;
                proof {
                    assert(first_crlf(s, p as int));
                    lemma_line_end_at(s, p as int);
                }
                return Ok(Some(p));
            }
            self.ptr = self.ptr + 1;
        }
    }

    /// Takes the line at the front of `src` and its CR LF out of `src`.
    fn read_line(&mut self, src: &mut BytesMut) -> (r: Result<Option<Vec<u8>>, DecodeError>)
        requires
            old(self).scan_ok(buffered(*old(src))),
        ensures
            final(self).same_but_ptr(old(self)),
            ({
                let s = buffered(*old(src));
                match line_end(s) {
                    LineEnd::At(p) => r matches Ok(Some(line)) && line@ == s.take(p as int)
                        && buffered(*final(src)) == s.skip(p + 2int) && final(self).ptr == 0,
                    LineEnd::Short => r matches Ok(None) && buffered(*final(src)) == s && final(self).scan_ok(s),
                    LineEnd::TooLong => r == Err::<Option<Vec<u8>>, DecodeError>(
                        DecodeError::LineTooLong,
                    ),
                }
            }),
    {
        let ghost s = buffered(*src);
        match self.next_crlf(src) {
            Err(e) => Err(e),
            Ok(None) => Ok(None),
            Ok(Some(p)) => {
                proof {
                    lemma_line_end_at(s, p as int);
                    assert(crlf_at(s, p as int));
                }
                let line = buf_split_front(src, p);
                buf_advance(src, 2);
                assert(s.skip(p as int).skip(2) =~= s.skip(p + 2int));
                Ok(Some(line))
            },
        }
    }

    /// Takes a line of text and its CR LF out of `src`.
    fn inner_string(&mut self, src: &mut BytesMut) -> (r: Result<Option<String>, DecodeError>)
        requires
            old(self).scan_ok(buffered(*old(src))),
        ensures
            final(self).same_but_ptr(old(self)),
            ({
                let s = buffered(*old(src));
                match line_end(s) {
                    LineEnd::At(p) => final(self).ptr == 0 && if valid_utf8(s.take(p as int)) {
                        r matches Ok(Some(t)) && t@ == decode_utf8(s.take(p as int))
                            && buffered(*final(src)) == s.skip(p + 2int)
                    } else {
                        r == Err::<Option<String>, DecodeError>(DecodeError::InvalidUtf8)
                    },
                    LineEnd::Short => r matches Ok(None) && buffered(*final(src)) == s && final(self).scan_ok(s),
                    LineEnd::TooLong => r == Err::<Option<String>, DecodeError>(
                        DecodeError::LineTooLong,
                    ),
                }
            }),
    {
        match self.read_line(src) {
            Err(e) => Err(e),
            Ok(None) => Ok(None),
            Ok(Some(line)) => match utf8_to_string(line.as_slice()) {
                Some(t) => Ok(Some(t)),
                None => Err(DecodeError::InvalidUtf8),
            },
        }
    }

    /// Takes a line holding a decimal integer and its CR LF out of `src`.
    fn inner_i64(&mut self, src: &mut BytesMut) -> (r: Result<Option<i64>, DecodeError>)
        requires
            old(self).scan_ok(buffered(*old(src))),
        ensures
            final(self).same_but_ptr(old(self)),
            ({
                let s = buffered(*old(src));
                match line_end(s) {
                    LineEnd::At(p) => final(self).ptr == 0 && match parse_decimal(
                        s.take(p as int),
                    ) {
                        Some(n) => r == Ok::<Option<i64>, DecodeError>(Some(n as i64))
                            && buffered(*final(src)) == s.skip(p + 2int),
                        None => r == Err::<Option<i64>, DecodeError>(DecodeError::InvalidInteger),
                    },
                    LineEnd::Short => r == Ok::<Option<i64>, DecodeError>(None) && buffered(*final(src)) == s && final(self).scan_ok(s),
                    LineEnd::TooLong => r == Err::<Option<i64>, DecodeError>(
                        DecodeError::LineTooLong,
                    ),
                }
            }),
    {
        match self.read_line(src) {
            Err(e) => Err(e),
            Ok(None) => Ok(None),
            Ok(Some(line)) => match parse_i64(line.as_slice()) {
                Some(n) => Ok(Some(n)),
                None => Err(DecodeError::InvalidInteger),
            },
        }
    }

    /// Reads a bulk string: its length line, unless an earlier call read it,
    /// then its payload once all of it is there.
    fn get_bulk_string(&mut self, src: &mut BytesMut) -> (r: Result<Option<RespValue>, DecodeError>)
        requires
            old(self).scan_ok(buffered(*old(src))),
            old(self).cached_len matches Some(n) ==> n >= 0,
        ensures
            final(self).op == old(self).op,
            final(self).stack == old(self).stack,
            final(self).taken == old(self).taken,
            final(self).left == old(self).left,
            ({
                let s = buffered(*old(src));
                match old(self).cached_len {
                    Some(n) => final(self).ptr == old(self).ptr && match bulk_payload(n as int, s) {
                        Parsed::Done(v, k) => (r matches Ok(Some(x)) && x@ == v) && buffered(*final(src)) == s.skip(k as int) && final(self).cached_len is None,
                        _ => r matches Ok(None) && buffered(*final(src)) == s && final(self).cached_len == old(self).cached_len,
                    },
                    None => match line_end(s) {
                        LineEnd::Short => r matches Ok(None) && buffered(*final(src)) == s
                            && final(self).cached_len is None && final(self).scan_ok(s),
                        LineEnd::TooLong => r == Err::<Option<RespValue>, DecodeError>(
                            DecodeError::LineTooLong,
                        ),
                        LineEnd::At(p) => final(self).ptr == 0 && match parse_decimal(
                            s.take(p as int),
                        ) {
                            None => r == Err::<Option<RespValue>, DecodeError>(
                                DecodeError::InvalidInteger,
                            ),
                            Some(n) => {
                                let rest = s.skip(p + 2int);
                                if n < -1 {
                                    r == Err::<Option<RespValue>, DecodeError>(
                                        DecodeError::InvalidLength(n as i64),
                                    )
                                } else {
                                    match bulk_payload(n, rest) {
                                        Parsed::Done(v, k) => (r matches Ok(Some(x)) && x@ == v)
                                            && buffered(*final(src)) == rest.skip(k as int)
                                            && final(self).cached_len is None,
                                        _ => r matches Ok(None) && buffered(*final(src)) == rest
                                            && final(self).cached_len == Some(n as i64),
                                    }
                                }
                            },
                        },
                    },
                }
            }),
    {
        let len = match self.cached_len {
            Some(len) => len,
            None => {
                let len = match self.inner_i64(src) {
                    Err(e) => return Err(e),
                    Ok(None) => return Ok(None),
                    Ok(Some(n)) => n,
                };
                if len == -1 {
                    return Ok(Some(RespValue::BulkString(None)));
                }
                if len < -1 {
                    return Err(DecodeError::InvalidLength(len));
                }
                self.cached_len = Some(len);
                len
            },
        };
        let ghost s = buffered(*src);
        let avail = buf_len(src);
        if (len as i128) + 2 > avail as i128 {
            return Ok(None);
        }
        self.cached_len = None;
        let payload = buf_split_front(src, len as usize);
        buf_advance(src, 2);
        assert(s.skip(len as int).skip(2) =~= s.skip(len + 2));
        Ok(Some(RespValue::BulkString(Some(payload))))
    }

    /// Reads the count line of an array: a null or empty array at once, or an
    /// array whose elements are to be read.
    fn get_array_context(&mut self, src: &mut BytesMut) -> (r: Result<Option<ArrayStart>, DecodeError>)
        requires
            old(self).scan_ok(buffered(*old(src))),
        ensures
            final(self).same_but_ptr(old(self)),
            ({
                let s = buffered(*old(src));
                match line_end(s) {
                    LineEnd::Short => r matches Ok(None) && buffered(*final(src)) == s && final(self).scan_ok(s),
                    LineEnd::TooLong => r == Err::<Option<ArrayStart>, DecodeError>(
                        DecodeError::LineTooLong,
                    ),
                    LineEnd::At(p) => final(self).ptr == 0 && match parse_decimal(
                        s.take(p as int),
                    ) {
                        None => r == Err::<Option<ArrayStart>, DecodeError>(
                            DecodeError::InvalidInteger,
                        ),
                        Some(n) => if n < -1 {
                            r == Err::<Option<ArrayStart>, DecodeError>(
                                DecodeError::InvalidLength(n as i64),
                            )
                        } else {
                            &&& buffered(*final(src)) == s.skip(p + 2int)
                            &&& n == -1 ==> (r matches Ok(Some(ArrayStart::Value(x))) && x@
                                == WireValue::Array(None))
                            &&& n == 0 ==> (r matches Ok(Some(ArrayStart::Value(x))) && x@
                                == WireValue::Array(Some(Seq::empty())))
                            &&& n > 0 ==> (r matches Ok(Some(ArrayStart::Open(ctx))) && ctx.rem
                                == n && ctx.items@.len() == 0)
                        },
                    },
                }
            }),
    {
        let len = match self.inner_i64(src) {
            Err(e) => return Err(e),
            Ok(None) => return Ok(None),
            Ok(Some(n)) => n,
        };
        if len == -1 {
            return Ok(Some(ArrayStart::Value(RespValue::Array(None))));
        }
        if len < -1 {
            return Err(DecodeError::InvalidLength(len));
        }
        let ctx = ArrayContext::new(len);
        if ctx.is_complete() {
            let items = ctx.items();
            proof {
                lemma_view_items(items@);
                assert(view_items(items@) =~= Seq::<WireValue>::empty());
            }
            return Ok(Some(ArrayStart::Value(RespValue::Array(Some(items)))));
        }
        Ok(Some(ArrayStart::Open(ctx)))
    }

    /// The state stands for the bytes `c`: decoding them followed by any `r`
    /// is resuming from the state on `r`.
    spec fn stands_for(&self, c: Seq<u8>) -> bool {
        forall|r: Seq<u8>| #[trigger] parse(c + r) == after(self.resume(r), c.len())
    }

    /// The bytes `c` end with the value `v`, which the open arrays are to take.
    spec fn holds(&self, c: Seq<u8>, v: WireValue) -> bool {
        forall|r: Seq<u8>| #[trigger]
            parse(c + r) == after(close(self.frames(), Parsed::Done(v, 0), r), c.len())
    }

    spec fn shape_ok(&self) -> bool {
        &&& forall|i: int| 0 <= i < self.stack@.len() ==> #[trigger] self.stack@[i].rem >= 1
        &&& self.cached_len is Some ==> self.op == Some(Op::BulkString) && self.cached_len->0 >= 0
        &&& (self.op is None || self.cached_len is Some) ==> self.ptr == 0
    }

    proof fn lemma_scan_extends(&self, l: Seq<u8>, s: Seq<u8>)
        requires
            self.scan_ok(l),
            l.is_prefix_of(s),
        ensures
            self.scan_ok(s),
    {
        assert forall|q: int| 0 <= q < self.ptr implies !#[trigger] crlf_at(s, q) by {
            assert(!crlf_at(l, q));
            assert(s[q] == l[q] && s[q + 1] == l[q + 1]);
        }
    }

    /// Once the element under way is done, taking its `k` bytes leaves a value
    /// for the open arrays.
    proof fn lemma_value_taken(&self, c: Seq<u8>, s: Seq<u8>, k: nat, v: WireValue)
        requires
            self.stands_for(c),
            self.shape_ok(),
            self.op is Some,
            self.element(s) == Parsed::Done(v, k),
        ensures
            k <= s.len(),
            forall|r: Seq<u8>| #[trigger]
                parse((c + s.take(k as int)) + r) == after(
                    close(self.frames(), Parsed::Done(v, 0), r),
                    (c + s.take(k as int)).len(),
                ),
    {
        let el = |r: Seq<u8>| self.element(r);
        let el2 = |r: Seq<u8>| Parsed::Done(v, 0);
        let tag = tag_of(self.op->0);
        lemma_parse_body_bounds(tag, s);
        let h = s.take(k as int);
        assert forall|r: Seq<u8>| #[trigger] el(h + r) == after(el2(r), h.len()) by {
            if let Some(n) = self.cached_len {
                assert((h + r).take(n as int) =~= s.take(n as int));
            } else {
                lemma_parse_body_stable(tag, s, r);
            }
        }
        lemma_take(self.frames(), c, h, el, el2);
    }

    /// Taking the length line of a bulk string leaves its payload to read.
    proof fn lemma_bulk_header(&self, c: Seq<u8>, s: Seq<u8>, p: nat, n: int)
        requires
            self.stands_for(c),
            self.op == Some(Op::BulkString),
            self.cached_len is None,
            line_end(s) == LineEnd::At(p),
            parse_decimal(s.take(p as int)) == Some(n),
            n >= 0,
        ensures
            forall|r: Seq<u8>| #[trigger]
                parse((c + s.take(p + 2int)) + r) == after(
                    close(self.frames(), bulk_payload(n, r), r),
                    (c + s.take(p + 2int)).len(),
                ),
    {
        let el = |r: Seq<u8>| self.element(r);
        let el2 = |r: Seq<u8>| bulk_payload(n, r);
        let h = s.take(p + 2int);
        assert forall|r: Seq<u8>| #[trigger] el(h + r) == after(el2(r), h.len()) by {
            lemma_line_kept(s, p as int, r);
        }
        lemma_take(self.frames(), c, h, el, el2);
    }

    /// Taking the count line of an array of `n` elements opens the array.
    proof fn lemma_array_header(&self, c: Seq<u8>, s: Seq<u8>, p: nat, n: int)
        requires
            self.stands_for(c),
            self.op == Some(Op::Array),
            self.cached_len is None,
            line_end(s) == LineEnd::At(p),
            parse_decimal(s.take(p as int)) == Some(n),
            n >= 1,
        ensures
            forall|r: Seq<u8>| #[trigger]
                parse((c + s.take(p + 2int)) + r) == after(
                    close(self.frames().push((n, Seq::empty())), parse(r), r),
                    (c + s.take(p + 2int)).len(),
                ),
    {
        let el = |r: Seq<u8>| self.element(r);
        let el2 = |r: Seq<u8>| array_body(n, r);
        let h = s.take(p + 2int);
        assert forall|r: Seq<u8>| #[trigger] el(h + r) == after(el2(r), h.len()) by {
            lemma_line_kept(s, p as int, r);
        }
        assert forall|r: Seq<u8>| (#[trigger] el2(r)) matches Parsed::Done(v, k) ==> k
            <= r.len() by {
            lemma_parse_items_bounds(r, n as nat);
        }
        lemma_take(self.frames(), c, h, el, el2);
        assert forall|r: Seq<u8>| #[trigger]
            parse((c + h) + r) == after(
                close(self.frames().push((n, Seq::empty())), parse(r), r),
                (c + h).len(),
            ) by {
            lemma_close_open(self.frames(), n, Seq::empty(), r);
            assert(Seq::<WireValue>::empty() + Seq::empty() =~= Seq::<WireValue>::empty());
        }
    }

    /// The element under way is done: it is `v`, and its bytes are those of `s`
    /// before `rest`.
    spec fn took_value(&self, s: Seq<u8>, rest: Seq<u8>, v: WireValue) -> bool {
        &&& rest.len() < s.len()
        &&& rest == s.skip(s.len() - rest.len())
        &&& self.element(s) == Parsed::Done(v, (s.len() - rest.len()) as nat)
    }

    /// Back to the state of a decoder that has read nothing.
    fn clear(&mut self)
        ensures
            final(self).wf(),
            final(self).consumed() == Seq::<u8>::empty(),
            final(self).pending() == Seq::<u8>::empty(),
    {
        *self = RespDecoder::new();
    }

    /// What reading an element may end in, from the state `d` with `s` in the
    /// buffer to the state `e` with `t` in the buffer.
    #[verifier::opaque]
    spec fn outcome(
        d: RespDecoder,
        s: Seq<u8>,
        e: RespDecoder,
        t: Seq<u8>,
        r: Result<Option<Step>, DecodeError>,
    ) -> bool {
        let before = d.taken@ + s;
        let was = 2 * s.len() + (if d.op is None { 1int } else { 0int });
        let now = 2 * t.len() + (if e.op is None { 1int } else { 0int });
        match r {
            Err(err) => parse(before) == Parsed::Failed(err),
            Ok(None) => {
                &&& parse(before) == Parsed::Incomplete
                &&& e.stands_for(e.taken@)
                &&& e.shape_ok()
                &&& e.scan_ok(t)
                &&& e.taken@ + t == before
            },
            Ok(Some(Step::Opened)) => {
                &&& e.stands_for(e.taken@)
                &&& e.shape_ok()
                &&& e.scan_ok(t)
                &&& e.taken@ + t == before
                &&& now < was
            },
            Ok(Some(Step::Value(v))) => {
                &&& e.holds(e.taken@, v@)
                &&& e.shape_ok()
                &&& e.op is None
                &&& e.cached_len is None
                &&& e.ptr == 0
                &&& e.taken@ + t == before
                &&& now < was
            },
        }
    }

    /// Ends reading a value `v` whose bytes are those of `s` before `t`, in
    /// the state `e`.
    proof fn lemma_finish(d: RespDecoder, s: Seq<u8>, v: RespValue, t: Seq<u8>, e: RespDecoder)
        requires
            d.stands_for(d.taken@),
            d.shape_ok(),
            d.op is Some,
            d.took_value(s, t, v@),
            e.stack == d.stack,
            e.op is None,
            e.cached_len is None,
            e.ptr == 0,
            e.taken@ == d.taken@ + s.take(s.len() - t.len()),
        ensures
            RespDecoder::outcome(d, s, e, t, Ok(Some(Step::Value(v)))),
    {
        reveal(RespDecoder::outcome);
        let k = (s.len() - t.len()) as nat;
        d.lemma_value_taken(d.taken@, s, k, v@);
        assert(s =~= s.take(k as int) + t);
        assert(e.frames() == d.frames());
        assert(e.taken@ + t =~= d.taken@ + s);
        assert(e.holds(e.taken@, v@));
    }

    /// Taking the tag byte of a value starts reading its body.
    proof fn lemma_tag_taken(d: RespDecoder, s: Seq<u8>, e: RespDecoder)
        requires
            d.stands_for(d.taken@),
            d.op is None,
            s.len() > 0,
            e.op matches Some(op) && tag_of(op) == s[0],
            e.cached_len is None,
            e.stack == d.stack,
            e.taken@ == d.taken@ + s.take(1),
        ensures
            e.stands_for(e.taken@),
    {
        let b = s.take(1);
        let el = |r: Seq<u8>| parse(r);
        let el2 = |r: Seq<u8>| parse_body(s[0], r);
        assert forall|r: Seq<u8>| #[trigger] el(b + r) == after(el2(r), b.len()) by {
            assert((b + r)[0] == s[0]);
            assert((b + r).skip(1) =~= r);
        }
        assert forall|r: Seq<u8>| (#[trigger] el2(r)) matches Parsed::Done(v, k) ==> k
            <= r.len() by {
            lemma_parse_body_bounds(s[0], r);
        }
        lemma_take(d.frames(), d.taken@, b, el, el2);
        assert(e.frames() == d.frames());
    }

    proof fn lemma_outcome_weaken(
        d0: RespDecoder,
        s0: Seq<u8>,
        d1: RespDecoder,
        s1: Seq<u8>,
        e: RespDecoder,
        t: Seq<u8>,
        r: Result<Option<Step>, DecodeError>,
    )
        requires
            RespDecoder::outcome(d1, s1, e, t, r),
            d1.taken@ + s1 == d0.taken@ + s0,
            2 * s1.len() + (if d1.op is None { 1int } else { 0int }) <= 2 * s0.len() + (
            if d0.op is None {
                1int
            } else {
                0int
            }),
        ensures
            RespDecoder::outcome(d0, s0, e, t, r),
    {
        reveal(RespDecoder::outcome);
    }

    /// Reads a simple string, simple error or integer whose tag is taken.
    fn read_line_value(&mut self, src: &mut BytesMut) -> (r: Result<Option<Step>, DecodeError>)
        requires
            old(self).stands_for(old(self).taken@),
            old(self).shape_ok(),
            old(self).scan_ok(buffered(*old(src))),
            old(self).op matches Some(op) && !(op is BulkString) && !(op is Array),
        ensures
            RespDecoder::outcome(*old(self), buffered(*old(src)), *final(self), buffered(*final(src)), r),
    {
        reveal(RespDecoder::outcome);
        let ghost s1 = buffered(*src);
        let ghost d1 = *self;
        proof {
            assert(parse(d1.taken@ + s1) == after(self.resume(s1), d1.taken@.len()));
        }
        let op = match self.op {
            Some(op) => op,
            None => Op::Integer,
        };
        let v = match op {
            Op::Integer => match self.inner_i64(src) {
                Err(e) => {
                    proof {
                        lemma_close_not_done(self.frames(), d1.element(s1), s1);
                    }
                    return Err(e);
                },
                Ok(None) => {
                    proof {
                        lemma_close_not_done(self.frames(), d1.element(s1), s1);
                    }
                    return Ok(None);
                },
                Ok(Some(n)) => RespValue::Integer(n),
            },
            _ => {
                let text = match self.inner_string(src) {
                    Err(e) => {
                        proof {
                            lemma_close_not_done(self.frames(), d1.element(s1), s1);
                        }
                        return Err(e);
                    },
                    Ok(None) => {
                        proof {
                            lemma_close_not_done(self.frames(), d1.element(s1), s1);
                        }
                        return Ok(None);
                    },
                    Ok(Some(t)) => t,
                };
                match op {
                    Op::SimpleString => RespValue::SimpleString(text),
                    _ => RespValue::SimpleError(text),
                }
            },
        };
        proof {
            assert(d1.took_value(s1, buffered(*src), v@));
        }
        self.op = None;
        self.taken = Ghost(d1.taken@ + s1.take(s1.len() - buffered(*src).len()));
        proof {
            RespDecoder::lemma_finish(d1, s1, v, buffered(*src), *self);
        }
        Ok(Some(Step::Value(v)))
    }

    /// Reads a bulk string whose tag is taken.
    #[verifier::rlimit(60)]
    fn read_bulk(&mut self, src: &mut BytesMut) -> (r: Result<Option<Step>, DecodeError>)
        requires
            old(self).stands_for(old(self).taken@),
            old(self).shape_ok(),
            old(self).scan_ok(buffered(*old(src))),
            old(self).op == Some(Op::BulkString),
        ensures
            RespDecoder::outcome(*old(self), buffered(*old(src)), *final(self), buffered(*final(src)), r),
    {
        reveal(RespDecoder::outcome);
        let ghost s1 = buffered(*src);
        let ghost d1 = *self;
        let ghost c1 = self.taken@;
        proof {
            assert(parse(c1 + s1) == after(self.resume(s1), c1.len()));
        }
        let had_len = self.cached_len.is_some();
        let v = match self.get_bulk_string(src) {
            Err(e) => {
                proof {
                    lemma_close_not_done(self.frames(), d1.element(s1), s1);
                }
                return Err(e);
            },
            Ok(None) => {
                if !had_len && self.cached_len.is_some() {
                    proof {
                        let p = line_end(s1)->At_0;
                        let n = parse_decimal(s1.take(p as int))->0;
                        d1.lemma_bulk_header(c1, s1, p, n);
                        self.taken = Ghost(c1 + s1.take(p + 2int));
                        assert(s1 =~= s1.take(p + 2int) + buffered(*src));
                        assert(self.frames() == d1.frames());
                        assert(self.stands_for(self.taken@));
                        lemma_close_not_done(
                            self.frames(),
                            self.element(buffered(*src)),
                            buffered(*src),
                        );
                        assert(self.taken@ + buffered(*src) =~= c1 + s1);
                    }
                } else {
                    proof {
                        lemma_close_not_done(self.frames(), d1.element(s1), s1);
                    }
                }
                return Ok(None);
            },
            Ok(Some(v)) => v,
        };
        proof {
            let t = buffered(*src);
            if d1.cached_len is None {
                let p = line_end(s1)->At_0;
                let rest = s1.skip(p + 2int);
                let n = parse_decimal(s1.take(p as int))->0;
                if n >= 0 {
                    assert(rest.skip(n + 2) =~= s1.skip(p + 2 + n + 2));
                }
            }
            assert(t =~= s1.skip(s1.len() - t.len()));
            assert(d1.took_value(s1, t, v@));
        }
        self.op = None;
        self.taken = Ghost(d1.taken@ + s1.take(s1.len() - buffered(*src).len()));
        proof {
            RespDecoder::lemma_finish(d1, s1, v, buffered(*src), *self);
        }
        Ok(Some(Step::Value(v)))
    }

    /// Reads the count line of an array whose tag is taken.
    fn read_array(&mut self, src: &mut BytesMut) -> (r: Result<Option<Step>, DecodeError>)
        requires
            old(self).stands_for(old(self).taken@),
            old(self).shape_ok(),
            old(self).scan_ok(buffered(*old(src))),
            old(self).op == Some(Op::Array),
        ensures
            RespDecoder::outcome(*old(self), buffered(*old(src)), *final(self), buffered(*final(src)), r),
    {
        reveal(RespDecoder::outcome);
        let ghost s1 = buffered(*src);
        let ghost d1 = *self;
        let ghost c1 = self.taken@;
        proof {
            assert(parse(c1 + s1) == after(self.resume(s1), c1.len()));
        }
        let v = match self.get_array_context(src) {
            Err(e) => {
                proof {
                    lemma_close_not_done(self.frames(), d1.element(s1), s1);
                }
                return Err(e);
            },
            Ok(None) => {
                proof {
                    lemma_close_not_done(self.frames(), d1.element(s1), s1);
                }
                return Ok(None);
            },
            Ok(Some(ArrayStart::Value(v))) => v,
            Ok(Some(ArrayStart::Open(ctx))) => {
                let ghost n = ctx.rem as int;
                self.stack.push(ctx);
                self.op = None;
                proof {
                    let p = line_end(s1)->At_0;
                    d1.lemma_array_header(c1, s1, p, n);
                    self.taken = Ghost(c1 + s1.take(p + 2int));
                    assert(s1 =~= s1.take(p + 2int) + buffered(*src));
                    assert(view_items(Seq::<RespValue>::empty()) =~= Seq::empty());
                    assert(self.frames() =~= d1.frames().push((n, Seq::empty())));
                    assert(self.stands_for(self.taken@));
                    assert(self.taken@ + buffered(*src) =~= c1 + s1);
                }
                return Ok(Some(Step::Opened));
            },
        };
        proof {
            assert(d1.took_value(s1, buffered(*src), v@));
        }
        self.op = None;
        self.taken = Ghost(d1.taken@ + s1.take(s1.len() - buffered(*src).len()));
        proof {
            RespDecoder::lemma_finish(d1, s1, v, buffered(*src), *self);
        }
        Ok(Some(Step::Value(v)))
    }

    /// Reads the element under way as far as `src` allows: to a value, to the
    /// opening of an array, or until bytes run out.
    fn read_element(&mut self, src: &mut BytesMut) -> (r: Result<Option<Step>, DecodeError>)
        requires
            old(self).stands_for(old(self).taken@),
            old(self).shape_ok(),
            old(self).scan_ok(buffered(*old(src))),
        ensures
            RespDecoder::outcome(*old(self), buffered(*old(src)), *final(self), buffered(*final(src)), r),
    {
        let ghost s0 = buffered(*src);
        let ghost c0 = self.taken@;
        let ghost d0 = *self;
        proof {
            assert(parse(c0 + s0) == after(self.resume(s0), c0.len()));
        }
        let op = match self.get_op(src) {
            Err(e) => {
                proof {
                    reveal(RespDecoder::outcome);
                    lemma_close_not_done(self.frames(), parse(s0), s0);
                }
                return Err(e);
            },
            Ok(None) => {
                proof {
                    reveal(RespDecoder::outcome);
                    lemma_close_not_done(self.frames(), parse(s0), s0);
                }
                return Ok(None);
            },
            Ok(Some(op)) => op,
        };
        proof {
            if d0.op is None {
                self.taken = Ghost(c0 + s0.take(1));
                RespDecoder::lemma_tag_taken(d0, s0, *self);
                assert(s0 =~= s0.take(1) + buffered(*src));
                assert(self.taken@ + buffered(*src) =~= c0 + s0);
            }
        }
        let ghost s1 = buffered(*src);
        let ghost d1 = *self;
        let r = match op {
            Op::BulkString => self.read_bulk(src),
            Op::Array => self.read_array(src),
            _ => self.read_line_value(src),
        };
        proof {
            RespDecoder::lemma_outcome_weaken(d0, s0, d1, s1, *self, buffered(*src), r);
        }
        r
    }

    /// Hands a finished value to the innermost open array, closing each array
    /// that this fills. Returns the value at the top once no array is open.
    fn fold(&mut self, val: RespValue) -> (r: Option<RespValue>)
        requires
            old(self).holds(old(self).taken@, val@),
            old(self).shape_ok(),
            old(self).op is None,
            old(self).cached_len is None,
            old(self).ptr == 0,
        ensures
            final(self).taken == old(self).taken,
            final(self).shape_ok(),
            final(self).op is None,
            final(self).cached_len is None,
            final(self).ptr == 0,
            r matches Some(v) ==> final(self).holds(final(self).taken@, v@) && final(self).frames().len() == 0,
            r is None ==> final(self).stands_for(final(self).taken@),
    {
        let mut val = val;
        loop
            invariant_except_break
                self.holds(self.taken@, val@),
            invariant
                self.taken == old(self).taken,
                self.shape_ok(),
                self.op is None,
                self.cached_len is None,
                self.ptr == 0,
            ensures
                self.stands_for(self.taken@),
            decreases self.stack@.len(),
        {
            let ghost f0 = self.frames();
            match self.stack.pop() {
                None => {
                    proof {
                        assert(self.frames() =~= Seq::empty());
                    }
                    return Some(val);
                },
                Some(mut ctx) => {
                    let ghost outer = self.frames();
                    let ghost rem = ctx.rem as int;
                    let ghost items = ctx.items@;
                    let ghost iv = view_items(ctx.items@);
                    let ghost vm = val@;
                    let ghost c = self.taken@;
                    proof {
                        assert(outer =~= f0.drop_last());
                        assert(f0 =~= outer.push((rem, iv)));
                    }
                    ctx.push(val);
                    proof {
                        assert(ctx.items@.drop_last() =~= items);
                        assert(view_items(ctx.items@) == iv.push(vm));
                    }
                    if !ctx.is_complete() {
                        self.stack.push(ctx);
                        proof {
                            assert(self.frames() =~= outer.push((rem - 1, iv.push(vm))));
                            assert forall|r: Seq<u8>| #[trigger]
                                parse(c + r) == after(self.resume(r), c.len()) by {
                                lemma_close_continue(outer, rem, iv, vm, r);
                            }
                        }
                        break ;
                    }
                    val = RespValue::Array(Some(ctx.items()));
                    proof {
                        assert(val@ == WireValue::Array(Some(iv.push(vm))));
                        assert forall|r: Seq<u8>| #[trigger]
                            parse(c + r) == after(
                                close(self.frames(), Parsed::Done(val@, 0), r),
                                c.len(),
                            ) by {
                            assert(f0.drop_last() == outer);
                        }
                    }
                },
            }
        }
        None
    }

    /// Decodes one value from the front of `src`, or resumes the one that
    /// earlier calls began. Returns `Ok(Some(value))` once all of the value's
    /// bytes have come, and takes exactly them out of `src`; `Ok(None)` while
    /// bytes are missing, keeping what it has read; an error on bytes that are
    /// not a value.
    ///
    /// The result depends only on all the bytes given since the last value,
    /// not on how they were split across calls: `input` below is those bytes.
    pub fn decode(&mut self, src: &mut BytesMut) -> (r: Result<Option<RespValue>, DecodeError>)
        requires
            old(self).wf(),
            old(self).pending().is_prefix_of(buffered(*old(src))),
        ensures
            final(self).wf(),
            ({
                let input = old(self).consumed() + buffered(*old(src));
                match parse(input) {
                    Parsed::Done(v, k) => {
                        &&& r matches Ok(Some(x)) && x@ == v
                        &&& buffered(*final(src)) == input.skip(k as int)
                        &&& final(self).consumed() == Seq::<u8>::empty()
                        &&& final(self).pending() == Seq::<u8>::empty()
                    },
                    Parsed::Incomplete => {
                        &&& r matches Ok(None)
                        &&& final(self).consumed() + buffered(*final(src)) == input
                        &&& final(self).pending() == buffered(*final(src))
                    },
                    Parsed::Failed(e) => {
                        &&& r == Err::<Option<RespValue>, DecodeError>(e)
                        &&& final(self).consumed() == Seq::<u8>::empty()
                        &&& final(self).pending() == Seq::<u8>::empty()
                    },
                }
            }),
    {
        let ghost input = self.taken@ + buffered(*src);
        proof {
            self.lemma_scan_extends(self.left@, buffered(*src));
        }
        loop
            invariant
                self.stands_for(self.taken@),
                self.shape_ok(),
                self.scan_ok(buffered(*src)),
                self.taken@ + buffered(*src) == input,
                input == old(self).taken@ + buffered(*old(src)),
            decreases 2 * buffered(*src).len() + (if self.op is None { 1int } else { 0int }),
        {
            let step = self.read_element(src);
            proof {
                reveal(RespDecoder::outcome);
            }
            match step {
                Err(e) => {
                    self.clear();
                    return Err(e);
                },
                Ok(None) => {
                    self.left = Ghost(buffered(*src));
                    return Ok(None);
                },
                Ok(Some(Step::Opened)) => {},
                Ok(Some(Step::Value(v))) => {
                    match self.fold(v) {
                        Some(top) => {
                            proof {
                                let rest = buffered(*src);
                                assert(parse(self.taken@ + rest) == after(
                                    close(self.frames(), Parsed::Done(top@, 0), rest),
                                    self.taken@.len(),
                                ));
                                assert(input.skip(self.taken@.len() as int) =~= rest);
                            }
                            self.clear();
                            return Ok(Some(top));
                        },
                        None => {},
                    }
                },
            }
        }
    }

}

} // verus!
