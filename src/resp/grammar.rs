//! The wire grammar, as spec functions: what a sequence of bytes decodes to.
use vstd::prelude::*;

use super::decimal::{parse_decimal, MINUS, PLUS};
use super::value::WireValue;
use vstd::utf8::{decode_utf8, valid_utf8};

verus! {

/// The ASCII code of carriage return.
pub const CR: u8 = 13;

/// The ASCII code of line feed.
pub const LF: u8 = 10;

/// The tag of a simple string, `+`.
pub const SIMPLE_TAG: u8 = PLUS;

/// The tag of a simple error, `-`.
pub const ERROR_TAG: u8 = MINUS;

/// The tag of an integer, `:`.
pub const INTEGER_TAG: u8 = 58;

/// The tag of a bulk string, `$`.
pub const BULK_TAG: u8 = 36;

/// The tag of an array, `*`.
pub const ARRAY_TAG: u8 = 42;

/// How far the decoder scans for the end of a line before it gives up: a
/// guard against a peer that never ends one.
pub const SCAN_LIMIT: usize = 512_000_000;

/// Why bytes cannot be decoded. Each of these leaves the stream unusable.
#[derive(Debug, Clone, Copy, PartialEq, Eq, Structural)]
pub enum DecodeError {
    /// A value starts with a byte that is not one of the five tags.
    InvalidPrefix(u8),
    /// The text of a simple string or error is not UTF-8.
    InvalidUtf8,
    /// An integer, length or count is not a decimal 64-bit integer.
    InvalidInteger,
    /// A length or count is negative and not -1.
    InvalidLength(i64),
    /// No line end within the scan limit.
    LineTooLong,
}

/// What decoding from the start of a byte sequence gives: a value and the number
/// of bytes it takes, a need for more bytes, or a failure.
pub enum Parsed {
    Done(WireValue, nat),
    Incomplete,
    Failed(DecodeError),
}

/// What decoding a number of array elements in a row gives.
pub enum ItemsParsed {
    Done(Seq<WireValue>, nat),
    Incomplete,
    Failed(DecodeError),
}

/// Where the first line of a byte sequence ends.
pub enum LineEnd {
    /// The first CR LF starts at this index.
    At(nat),
    /// No CR LF yet, and the scan limit is not reached.
    Short,
    /// No CR LF starts within the scan limit.
    TooLong,
}

pub open spec fn is_tag(b: u8) -> bool {
    b == SIMPLE_TAG || b == ERROR_TAG || b == INTEGER_TAG || b == BULK_TAG || b == ARRAY_TAG
}

/// A CR LF starts at index `i` of `s`.
pub open spec fn crlf_at(s: Seq<u8>, i: int) -> bool {
    0 <= i && i + 1 < s.len() && s[i] == CR && s[i + 1] == LF
}

/// `i` is where the first CR LF of `s` starts, and it is within the scan limit.
pub open spec fn first_crlf(s: Seq<u8>, i: int) -> bool {
    &&& 0 <= i <= SCAN_LIMIT
    &&& crlf_at(s, i)
    &&& forall|j: int| 0 <= j < i ==> !#[trigger] crlf_at(s, j)
}

pub open spec fn line_end(s: Seq<u8>) -> LineEnd {
    if exists|i: int| first_crlf(s, i) {
        LineEnd::At((choose|i: int| first_crlf(s, i)) as nat)
    } else if s.len() >= SCAN_LIMIT + 3 {
        LineEnd::TooLong
    } else {
        LineEnd::Short
    }
}

/// A result moved `k` bytes further along the input.
pub open spec fn after(r: Parsed, k: nat) -> Parsed {
    match r {
        Parsed::Done(v, n) => Parsed::Done(v, n + k),
        _ => r,
    }
}

/// Element results with `prefix` put before the elements: an array.
pub open spec fn array_of(prefix: Seq<WireValue>, r: ItemsParsed) -> Parsed {
    match r {
        ItemsParsed::Done(items, n) => Parsed::Done(WireValue::Array(Some(prefix + items)), n),
        ItemsParsed::Incomplete => Parsed::Incomplete,
        ItemsParsed::Failed(e) => Parsed::Failed(e),
    }
}

/// The payload of a bulk string of declared length `n`, followed by two
/// delimiter bytes, which are dropped unread.
pub open spec fn bulk_payload(n: int, s: Seq<u8>) -> Parsed {
    if n == -1 {
        Parsed::Done(WireValue::BulkString(None), 0)
    } else if n < -1 {
        Parsed::Failed(DecodeError::InvalidLength(n as i64))
    } else if s.len() < n + 2 {
        Parsed::Incomplete
    } else {
        Parsed::Done(WireValue::BulkString(Some(s.take(n))), (n + 2) as nat)
    }
}

/// What follows a header line that declares `n` array elements.
pub open spec fn array_body(n: int, s: Seq<u8>) -> Parsed
    decreases s.len(), 2int,
{
    if n == -1 {
        Parsed::Done(WireValue::Array(None), 0)
    } else if n < -1 {
        Parsed::Failed(DecodeError::InvalidLength(n as i64))
    } else {
        array_of(Seq::empty(), parse_items(s, n as nat))
    }
}

/// What follows the tag byte `tag` of a value.
pub open spec fn parse_body(tag: u8, s: Seq<u8>) -> Parsed
    decreases s.len(), 3int,
{
    match line_end(s) {
        LineEnd::Short => Parsed::Incomplete,
        LineEnd::TooLong => Parsed::Failed(DecodeError::LineTooLong),
        LineEnd::At(p) => {
            let line = s.take(p as int);
            let k = (p + 2) as nat;
            if tag == SIMPLE_TAG || tag == ERROR_TAG {
                if !valid_utf8(line) {
                    Parsed::Failed(DecodeError::InvalidUtf8)
                } else if tag == SIMPLE_TAG {
                    Parsed::Done(WireValue::SimpleString(decode_utf8(line)), k)
                } else {
                    Parsed::Done(WireValue::SimpleError(decode_utf8(line)), k)
                }
            } else {
                match parse_decimal(line) {
                    None => Parsed::Failed(DecodeError::InvalidInteger),
                    Some(n) => if tag == INTEGER_TAG {
                        Parsed::Done(WireValue::Integer(n), k)
                    } else if tag == BULK_TAG {
                        after(bulk_payload(n, s.skip(k as int)), k)
                    } else {
                        after(array_body(n, s.skip(k as int)), k)
                    },
                }
            }
        },
    }
}

/// What decoding one value from the start of `s` gives.
pub open spec fn parse(s: Seq<u8>) -> Parsed
    decreases s.len(), 0int,
{
    if s.len() == 0 {
        Parsed::Incomplete
    } else if !is_tag(s[0]) {
        Parsed::Failed(DecodeError::InvalidPrefix(s[0]))
    } else {
        after(parse_body(s[0], s.skip(1)), 1)
    }
}

/// What decoding `n` values in a row from the start of `s` gives.
pub open spec fn parse_items(s: Seq<u8>, n: nat) -> ItemsParsed
    decreases s.len(), 1int, n,
{
    if n == 0 {
        ItemsParsed::Done(Seq::empty(), 0)
    } else {
        match parse(s) {
            Parsed::Done(v, k) => if 0 < k <= s.len() {
                match parse_items(s.skip(k as int), (n - 1) as nat) {
                    ItemsParsed::Done(vs, k2) => ItemsParsed::Done(seq![v] + vs, k + k2),
                    ItemsParsed::Incomplete => ItemsParsed::Incomplete,
                    ItemsParsed::Failed(e) => ItemsParsed::Failed(e),
                }
            } else {
                ItemsParsed::Incomplete
            },
            Parsed::Incomplete => ItemsParsed::Incomplete,
            Parsed::Failed(e) => ItemsParsed::Failed(e),
        }
    }
}

proof fn lemma_line_end_bound(s: Seq<u8>)
    ensures
        line_end(s) matches LineEnd::At(p) ==> first_crlf(s, p as int) && p + 2 <= s.len(),
{
    if exists|i: int| first_crlf(s, i) {
        let p = choose|i: int| first_crlf(s, i);
        assert(first_crlf(s, p));
    }
}

proof fn lemma_first_crlf_unique(s: Seq<u8>, i: int, j: int)
    requires
        first_crlf(s, i),
        first_crlf(s, j),
    ensures
        i == j,
{
    if i < j {
        assert(!crlf_at(s, i));
    } else if j < i {
        assert(!crlf_at(s, j));
    }
}

/// A line ends where its first CR LF starts.
pub proof fn lemma_line_end_at(s: Seq<u8>, p: int)
    requires
        first_crlf(s, p),
    ensures
        line_end(s) == LineEnd::At(p as nat),
{
    let q = choose|i: int| first_crlf(s, i);
    lemma_first_crlf_unique(s, p, q);
}

/// Where a line ends does not depend on what follows the line's CR LF.
pub proof fn lemma_line_kept(s: Seq<u8>, p: int, r: Seq<u8>)
    requires
        0 <= p,
        line_end(s) == LineEnd::At(p as nat),
    ensures
        line_end(s.take(p + 2) + r) == LineEnd::At(p as nat),
        (s.take(p + 2) + r).take(p) == s.take(p),
        (s.take(p + 2) + r).skip(p + 2) == r,
{
    lemma_line_end_bound(s);
    let t = s.take(p + 2) + r;
    assert forall|j: int| 0 <= j <= p implies #[trigger] crlf_at(t, j) == crlf_at(s, j) by {
        assert(t[j] == s[j]);
        assert(t[j + 1] == s[j + 1]);
    }
    assert(first_crlf(s, p));
    assert forall|j: int| 0 <= j < p implies !#[trigger] crlf_at(t, j) by {
        assert(crlf_at(t, j) == crlf_at(s, j));
    }
    assert(crlf_at(t, p) == crlf_at(s, p));
    assert(first_crlf(t, p));
    lemma_line_end_at(t, p);
    assert(t.take(p) =~= s.take(p));
    assert(t.skip(p + 2) =~= r);
}

/// A decoded value takes at least one byte and no more than there are.
pub proof fn lemma_parse_bounds(s: Seq<u8>)
    ensures
        parse(s) matches Parsed::Done(v, k) ==> 1 <= k <= s.len(),
    decreases s.len(), 0int,
{
    if s.len() > 0 && is_tag(s[0]) {
        lemma_parse_body_bounds(s[0], s.skip(1));
    }
}

pub proof fn lemma_parse_body_bounds(tag: u8, s: Seq<u8>)
    ensures
        parse_body(tag, s) matches Parsed::Done(v, k) ==> k <= s.len(),
    decreases s.len(), 3int,
{
    lemma_line_end_bound(s);
    if let LineEnd::At(p) = line_end(s) {
        let k = (p + 2) as nat;
        if let Some(n) = parse_decimal(s.take(p as int)) {
            if n >= 0 {
                lemma_parse_items_bounds(s.skip(k as int), n as nat);
            }
        }
    }
}

pub proof fn lemma_parse_items_bounds(s: Seq<u8>, n: nat)
    ensures
        parse_items(s, n) matches ItemsParsed::Done(vs, k) ==> k <= s.len() && vs.len() == n,
    decreases s.len(), 1int, n,
{
    if n > 0 {
        lemma_parse_bounds(s);
        if let Parsed::Done(v, k) = parse(s) {
            if 0 < k <= s.len() {
                lemma_parse_items_bounds(s.skip(k as int), (n - 1) as nat);
            }
        }
    }
}

/// A decoded value depends only on the bytes it takes: whatever follows them,
/// the result is the same.
pub proof fn lemma_parse_stable(s: Seq<u8>, r: Seq<u8>)
    ensures
        parse(s) matches Parsed::Done(v, k) ==> k <= s.len() && parse(s.take(k as int) + r)
            == parse(s),
    decreases s.len(), 0int,
{
    lemma_parse_bounds(s);
    if let Parsed::Done(v, k) = parse(s) {
        let t = s.take(k as int) + r;
        assert(t[0] == s[0]);
        assert(t.skip(1) =~= s.skip(1).take(k - 1) + r);
        lemma_parse_body_stable(s[0], s.skip(1), r);
    }
}

pub proof fn lemma_parse_body_stable(tag: u8, s: Seq<u8>, r: Seq<u8>)
    ensures
        parse_body(tag, s) matches Parsed::Done(v, k) ==> k <= s.len() && parse_body(
            tag,
            s.take(k as int) + r,
        ) == parse_body(tag, s),
    decreases s.len(), 3int,
{
    lemma_parse_body_bounds(tag, s);
    if let Parsed::Done(v, k) = parse_body(tag, s) {
        lemma_line_end_bound(s);
        if let LineEnd::At(p) = line_end(s) {
            let h = p + 2int;
            let t = s.take(k as int) + r;
            let r1 = s.take(k as int).skip(h) + r;
            assert(t =~= s.take(h) + r1);
            lemma_line_kept(s, p as int, r1);
            assert(t.take(p as int) == s.take(p as int));
            assert(t.skip(h) == r1);
            if let Some(n) = parse_decimal(s.take(p as int)) {
                if tag != SIMPLE_TAG && tag != ERROR_TAG && tag != INTEGER_TAG {
                    let rest = s.skip(h);
                    assert(r1 =~= rest.take(k - h) + r);
                    if tag == BULK_TAG {
                        if n >= 0 {
                            assert(r1.take(n) =~= rest.take(n));
                        }
                    } else if n >= 0 {
                        lemma_parse_items_stable(rest, n as nat, r);
                        lemma_parse_items_bounds(rest, n as nat);
                    }
                }
            }
        }
    }
}

pub proof fn lemma_parse_items_stable(s: Seq<u8>, n: nat, r: Seq<u8>)
    ensures
        parse_items(s, n) matches ItemsParsed::Done(vs, k) ==> k <= s.len() && parse_items(
            s.take(k as int) + r,
            n,
        ) == parse_items(s, n),
    decreases s.len(), 1int, n,
{
    lemma_parse_items_bounds(s, n);
    if n > 0 {
        if let ItemsParsed::Done(vs, k) = parse_items(s, n) {
            lemma_parse_bounds(s);
            if let Parsed::Done(v, k1) = parse(s) {
                let t = s.take(k as int) + r;
                let rest = s.skip(k1 as int);
                let r1 = rest.take(k - k1) + r;
                lemma_parse_items_bounds(rest, (n - 1) as nat);
                assert(t =~= s.take(k1 as int) + r1);
                lemma_parse_stable(s, r1);
                assert(t.skip(k1 as int) =~= r1);
                lemma_parse_items_stable(rest, (n - 1) as nat, r);
            }
        }
    }
}

proof fn lemma_first_exists(s: Seq<u8>, i: int)
    requires
        0 <= i <= SCAN_LIMIT,
        crlf_at(s, i),
    ensures
        exists|j: int| first_crlf(s, j),
    decreases i,
{
    if exists|j: int| 0 <= j < i && crlf_at(s, j) {
        let j = choose|j: int| 0 <= j < i && crlf_at(s, j);
        lemma_first_exists(s, j);
    } else {
        assert(first_crlf(s, i));
    }
}

/// Once a line's end is known, more bytes do not change it.
pub proof fn lemma_line_end_extend(s: Seq<u8>, r: Seq<u8>)
    requires
        !(line_end(s) is Short),
    ensures
        line_end(s + r) == line_end(s),
        line_end(s) matches LineEnd::At(p) ==> (s + r).take(p as int) == s.take(p as int) && (s
            + r).skip(p + 2int) == s.skip(p + 2int) + r,
{
    lemma_line_end_bound(s);
    if let LineEnd::At(p) = line_end(s) {
        let rest = s.skip(p + 2int) + r;
        assert(s + r =~= s.take(p + 2int) + rest);
        lemma_line_kept(s, p as int, rest);
    } else {
        assert forall|i: int| !first_crlf(s + r, i) by {
            if first_crlf(s + r, i) {
                assert(s[i] == (s + r)[i] && s[i + 1] == (s + r)[i + 1]);
                assert(crlf_at(s, i));
                lemma_first_exists(s, i);
            }
        }
    }
}

/// A failure depends only on the bytes already there: more bytes do not
/// change it.
pub proof fn lemma_parse_failed_stable(s: Seq<u8>, r: Seq<u8>)
    ensures
        parse(s) is Failed ==> parse(s + r) == parse(s),
    decreases s.len(), 0int,
{
    if parse(s) is Failed {
        assert((s + r)[0] == s[0]);
        if is_tag(s[0]) {
            assert((s + r).skip(1) =~= s.skip(1) + r);
            lemma_parse_body_failed_stable(s[0], s.skip(1), r);
        }
    }
}

pub proof fn lemma_parse_body_failed_stable(tag: u8, s: Seq<u8>, r: Seq<u8>)
    ensures
        parse_body(tag, s) is Failed ==> parse_body(tag, s + r) == parse_body(tag, s),
    decreases s.len(), 3int,
{
    if parse_body(tag, s) is Failed {
        lemma_line_end_extend(s, r);
        lemma_line_end_bound(s);
        if let LineEnd::At(p) = line_end(s) {
            if let Some(n) = parse_decimal(s.take(p as int)) {
                if tag != SIMPLE_TAG && tag != ERROR_TAG && tag != INTEGER_TAG && tag != BULK_TAG
                    && n >= 0 {
                    lemma_parse_items_failed_stable(s.skip(p + 2int), n as nat, r);
                }
            }
        }
    }
}

pub proof fn lemma_parse_items_failed_stable(s: Seq<u8>, n: nat, r: Seq<u8>)
    ensures
        parse_items(s, n) is Failed ==> parse_items(s + r, n) == parse_items(s, n),
    decreases s.len(), 1int, n,
{
    if n > 0 && parse_items(s, n) is Failed {
        lemma_parse_failed_stable(s, r);
        lemma_parse_bounds(s);
        if let Parsed::Done(v, k) = parse(s) {
            let rest = s.skip(k as int);
            lemma_parse_stable(s, rest + r);
            assert(s.take(k as int) + (rest + r) =~= s + r);
            assert((s + r).skip(k as int) =~= rest + r);
            lemma_parse_items_failed_stable(rest, (n - 1) as nat, r);
        }
    }
}

} // verus!
