//! Base-10 text for integers: the form the wire format gives integers,
//! bulk-string lengths and array counts.
use vstd::prelude::*;

verus! {

/// The ASCII code of `0`.
pub const ZERO: u8 = 48;

/// The ASCII code of `9`.
pub const NINE: u8 = 57;

/// The ASCII code of `-`.
pub const MINUS: u8 = 45;

/// The ASCII code of `+`.
pub const PLUS: u8 = 43;

/// The ASCII digits of a natural number, most significant first, without
/// leading zeros.
pub open spec fn digits_of(n: nat) -> Seq<u8>
    decreases n,
{
    if n < 10 {
        seq![(ZERO + n) as u8]
    } else {
        digits_of(n / 10).push((ZERO + n % 10) as u8)
    }
}

/// The decimal text of an integer: a minus sign before the digits of a
/// negative number.
pub open spec fn decimal_of(n: int) -> Seq<u8> {
    if n < 0 {
        seq![MINUS] + digits_of((-n) as nat)
    } else {
        digits_of(n as nat)
    }
}

pub open spec fn is_digit(b: u8) -> bool {
    ZERO <= b <= NINE
}

pub open spec fn all_digits(s: Seq<u8>) -> bool {
    forall|i: int| 0 <= i < s.len() ==> is_digit(#[trigger] s[i])
}

/// The number that a sequence of digits denotes.
pub open spec fn digits_value(s: Seq<u8>) -> nat
    decreases s.len(),
{
    if s.len() == 0 {
        0
    } else {
        digits_value(s.drop_last()) * 10 + (s.last() - ZERO) as nat
    }
}

/// The signed 64-bit integer that a text denotes: an optional `+` or `-`, then
/// one or more digits, with a value in range; `None` for any other text.
pub open spec fn parse_decimal(s: Seq<u8>) -> Option<int> {
    let negative = s.len() > 0 && s[0] == MINUS;
    let body = if s.len() > 0 && (s[0] == MINUS || s[0] == PLUS) {
        s.skip(1)
    } else {
        s
    };
    let value = if negative {
        -(digits_value(body) as int)
    } else {
        digits_value(body) as int
    };
    if body.len() > 0 && all_digits(body) && i64::MIN <= value <= i64::MAX {
        Some(value)
    } else {
        None
    }
}

proof fn lemma_digits_of(n: nat)
    ensures
        digits_of(n).len() > 0,
        all_digits(digits_of(n)),
        digits_value(digits_of(n)) == n,
    decreases n,
{
    let d = digits_of(n);
    if n >= 10 {
        lemma_digits_of(n / 10);
        assert(d.drop_last() =~= digits_of(n / 10));
        assert(d.last() == (ZERO + n % 10) as u8);
        assert((n / 10) * 10 + n % 10 == n);
        assert(digits_value(d) == digits_value(d.drop_last()) * 10 + (d.last() - ZERO) as nat);
    } else {
        assert(d.drop_last() =~= Seq::<u8>::empty());
        assert(digits_value(d) == digits_value(d.drop_last()) * 10 + (d.last() - ZERO) as nat);
    }
    assert(all_digits(d)) by {
        if n >= 10 {
            assert forall|j: int| 0 <= j < d.len() implies is_digit(#[trigger] d[j]) by {
                if j < d.len() - 1 {
                    assert(d[j] == digits_of(n / 10)[j]);
                }
            }
        }
    }
}

proof fn lemma_digits_value_grows(s: Seq<u8>, i: int)
    requires
        0 <= i <= s.len(),
        all_digits(s),
    ensures
        digits_value(s.take(i)) <= digits_value(s),
    decreases s.len(),
{
    if i < s.len() {
        assert(s.drop_last().take(i) =~= s.take(i));
        lemma_digits_value_grows(s.drop_last(), i);
    } else {
        assert(s.take(i) =~= s);
    }
}

pub open spec fn pow10(k: nat) -> nat
    decreases k,
{
    if k == 0 {
        1
    } else {
        10 * pow10((k - 1) as nat)
    }
}

proof fn lemma_digits_len(n: nat, k: nat)
    requires
        k >= 1,
        n < pow10(k),
    ensures
        digits_of(n).len() <= k,
    decreases n,
{
    if n >= 10 {
        assert(k >= 2) by {
            if k == 1 {
                assert(pow10(1) == 10 * pow10(0));
            }
        }
        assert(pow10(k) == 10 * pow10((k - 1) as nat));
        assert(n / 10 < pow10((k - 1) as nat));
        lemma_digits_len(n / 10, (k - 1) as nat);
    }
}

/// The decimal text of a 64-bit integer is at most 20 bytes of digits and
/// an optional minus sign.
pub proof fn lemma_decimal_text(n: int)
    requires
        i64::MIN <= n <= i64::MAX,
    ensures
        decimal_of(n).len() <= 20,
        forall|i: int| 0 <= i < decimal_of(n).len() ==> is_digit(#[trigger] decimal_of(n)[i])
            || decimal_of(n)[i] == MINUS,
{
    reveal_with_fuel(pow10, 20);
    assert(pow10(19) == 10_000_000_000_000_000_000nat);
    if n < 0 {
        lemma_digits_of((-n) as nat);
        lemma_digits_len((-n) as nat, 19);
        let d = digits_of((-n) as nat);
        assert forall|i: int| 0 <= i < decimal_of(n).len() implies is_digit(
            #[trigger] decimal_of(n)[i],
        ) || decimal_of(n)[i] == MINUS by {
            if i > 0 {
                assert(decimal_of(n)[i] == d[i - 1]);
            }
        }
    } else {
        lemma_digits_of(n as nat);
        lemma_digits_len(n as nat, 19);
    }
}

/// Parsing the decimal text of an integer gives back that integer.
pub proof fn lemma_parse_decimal_of(n: int)
    requires
        i64::MIN <= n <= i64::MAX,
    ensures
        parse_decimal(decimal_of(n)) == Some(n),
{
    if n < 0 {
        lemma_digits_of((-n) as nat);
        assert((seq![MINUS] + digits_of((-n) as nat)).skip(1) =~= digits_of((-n) as nat));
    } else {
        lemma_digits_of(n as nat);
    }
}

/// Appends the digits of `n` to `out`.
fn push_digits(n: u64, out: &mut Vec<u8>)
    ensures
        final(out)@ == old(out)@ + digits_of(n as nat),
    decreases n,
{
    if n >= 10 {
        push_digits(n / 10, out);
    }
    out.push(ZERO + (n % 10) as u8);
    proof {
        if n >= 10 {
            assert(old(out)@ + digits_of(n as nat) =~= old(out)@ + digits_of((n / 10) as nat) + seq![
                (ZERO + n % 10) as u8,
            ]);
        } else {
            assert(old(out)@ + digits_of(n as nat) =~= old(out)@ + seq![(ZERO + n) as u8]);
        }
    }
}

/// The decimal text of `n`.
pub fn format_decimal(n: i64) -> (r: Vec<u8>)
    ensures
        r@ == decimal_of(n as int),
{
    let mut out: Vec<u8> = Vec::new();
    if n < 0 {
        out.push(MINUS);
        let magnitude: u64 = (-(n as i128)) as u64;
        push_digits(magnitude, &mut out);
    } else {
        push_digits(n as u64, &mut out);
    }
    assert(out@ =~= decimal_of(n as int));
    out
}

/// The decimal text of a length or count.
pub fn format_length(n: usize) -> (r: Vec<u8>)
    ensures
        r@ == decimal_of(n as int),
{
    let mut out: Vec<u8> = Vec::new();
    push_digits(n as u64, &mut out);
    assert(out@ =~= decimal_of(n as int));
    out
}

/// Reads a signed 64-bit integer from its decimal text, as `str::parse::<i64>`
/// does: `None` where `s` is not such a text or the value is out of range.
pub fn parse_i64(s: &[u8]) -> (r: Option<i64>)
    ensures
        r matches Some(n) ==> parse_decimal(s@) == Some(n as int),
        r is None ==> parse_decimal(s@) is None,
{
    let len = s.len();
    let negative = len > 0 && s[0] == MINUS;
    let signed = len > 0 && (s[0] == MINUS || s[0] == PLUS);
    let start: usize = if signed {
        1
    } else {
        0
    };
    let ghost body = s@.skip(start as int);
    assert(body =~= (if signed { s@.skip(1) } else { s@ }));
    if start == len {
        return None;
    }
    let mut acc: u64 = 0;
    let mut i: usize = start;
    assert(body.take(0) =~= Seq::<u8>::empty());
    while i < len
        invariant
            start <= i <= len,
            len == s@.len(),
            signed == (s@.len() > 0 && (s@[0] == MINUS || s@[0] == PLUS)),
            negative == (s@.len() > 0 && s@[0] == MINUS),
            start == (if signed { 1usize } else { 0usize }),
            body == s@.skip(start as int),
            acc as nat == digits_value(body.take(i - start)),
            all_digits(body.take(i - start)),
            acc <= 9_223_372_036_854_775_808,
        decreases len - i,
    {
        let b = s[i];
        assert(body[i - start] == b);
        if b < ZERO || b > NINE {
            assert(!is_digit(body[i - start]));
            return None;
        }
        let next: u128 = acc as u128 * 10 + (b - ZERO) as u128;
        let ghost k = i - start;
        assert(body.take(k + 1).drop_last() =~= body.take(k));
        assert(body.take(k + 1).last() == b);
        assert(digits_value(body.take(k + 1)) == next);
        assert(all_digits(body.take(k + 1))) by {
            assert forall|j: int| 0 <= j < k + 1 implies is_digit(#[trigger] body.take(k + 1)[j]) by {
                if j < k {
                    assert(body.take(k + 1)[j] == body.take(k)[j]);
                }
            }
        }
        if next > 9_223_372_036_854_775_808 {
            proof {
                assert(body =~= (if signed { s@.skip(1) } else { s@ }));
                if all_digits(body) {
                    lemma_digits_value_grows(body, k + 1);
                    assert(digits_value(body) > 9_223_372_036_854_775_808);
                }
            }
            return None;
        }
        acc = next as u64;
        i += 1;
    }
    assert(body.take(len - start) =~= body);
    if negative {
        Some((-(acc as i128)) as i64)
    } else if acc > 9_223_372_036_854_775_807 {
        None
    } else {
        Some(acc as i64)
    }
}

} // verus!
