//! A readable rendering of values, for logs and diagnostics.
use vstd::prelude::*;

use super::decimal::{decimal_of, format_decimal, format_length};
use super::value::{lemma_view_items, view_items, RespValue, WireValue};
use vstd::string::StringExecFns;

verus! {

broadcast use vstd::std_specs::vec::group_vec_axioms;

/// What `str`'s `Debug` writes for a text: the text quoted, with escapes.
pub uninterp spec fn debug_quoted(s: Seq<char>) -> Seq<char>;

/// What `String::from_utf8_lossy` makes of bytes.
pub uninterp spec fn lossy_text(b: Seq<u8>) -> Seq<char>;

/// Relies on `str`'s `Debug` through `format!("{:?}")`: the result depends on
/// the text alone.
#[verifier::external_body]
fn quoted(s: &str) -> (r: String)
    ensures
        r@ == debug_quoted(s@),
{
    format!("{:?}", s)
}

/// Relies on `String::from_utf8_lossy`: the bytes as text, each invalid
/// sequence replaced; the result depends on the bytes alone.
#[verifier::external_body]
fn lossy(b: &[u8]) -> (r: String)
    ensures
        r@ == lossy_text(b@),
{
    String::from_utf8_lossy(b).into_owned()
}

/// The rendering of a value.
pub open spec fn debug_spec(v: WireValue) -> Seq<char>
    decreases v,
{
    match v {
        WireValue::SimpleString(s) => "SimpleString("@ + debug_quoted(s) + ")"@,
        WireValue::SimpleError(s) => "SimpleError("@ + debug_quoted(s) + ")"@,
        WireValue::Integer(n) => "Integer("@ + lossy_text(decimal_of(n)) + ")"@,
        WireValue::BulkString(Some(b)) => "BulkString("@ + debug_quoted(lossy_text(b)) + ")"@,
        WireValue::BulkString(None) => "BulkString(None)"@,
        WireValue::Array(Some(items)) => "Array<"@ + lossy_text(decimal_of(items.len() as int))
            + ">(["@ + debug_list(items) + "]))"@,
        WireValue::Array(None) => "Array(None)"@,
    }
}

/// The renderings of values, separated by commas.
pub open spec fn debug_list(items: Seq<WireValue>) -> Seq<char>
    decreases items,
{
    if items.len() == 0 {
        Seq::empty()
    } else if items.len() == 1 {
        debug_spec(items[0])
    } else {
        debug_list(items.drop_last()) + ", "@ + debug_spec(items.last())
    }
}

fn wrapped(open: &str, inner: &str, close: &str) -> (r: String)
    ensures
        r@ == open@ + inner@ + close@,
{
    let mut out = open.to_owned();
    out.append(inner);
    out.append(close);
    out
}

impl RespValue {
    /// A readable rendering of the value, such as
    /// `Array<2>([Integer(1), BulkString("a")]))` (see `debug_spec`).
    pub fn debug_text(&self) -> (r: String)
        ensures
            r@ == debug_spec(self@),
        decreases self,
    {
        match self {
            RespValue::SimpleString(val) => wrapped(
                "SimpleString(",
                quoted(val.as_str()).as_str(),
                ")",
            ),
            RespValue::SimpleError(val) => wrapped(
                "SimpleError(",
                quoted(val.as_str()).as_str(),
                ")",
            ),
            RespValue::Integer(n) => {
                let digits = format_decimal(*n);
                wrapped("Integer(", lossy(digits.as_slice()).as_str(), ")")
            },
            RespValue::BulkString(Some(buf)) => {
                let text = lossy(buf.as_slice());
                wrapped("BulkString(", quoted(text.as_str()).as_str(), ")")
            },
            RespValue::BulkString(None) => "BulkString(None)".to_owned(),
            RespValue::Array(None) => "Array(None)".to_owned(),
            RespValue::Array(Some(arr)) => {
                let ghost models = view_items(arr@);
                proof {
                    lemma_view_items(arr@);
                    assert(decreases_to!(*self => *arr));
                }
                let digits = format_length(arr.len());
                let mut list = String::new();
                let mut i: usize = 0;
                assert(models.take(0) =~= Seq::<WireValue>::empty());
                while i < arr.len()
                    invariant
                        i <= arr.len(),
                        models == view_items(arr@),
                        models.len() == arr@.len(),
                        forall|j: int| 0 <= j < arr.len() ==> #[trigger] models[j] == arr[j]@,
                        decreases_to!(*self => *arr),
                        list@ == debug_list(models.take(i as int)),
                    decreases arr.len() - i,
                {
                    proof {
                        assert(decreases_to!(*arr => arr[i as int]));
                        let next = models.take(i + 1);
                        assert(next.drop_last() =~= models.take(i as int));
                        assert(next.last() == arr[i as int]@);
                        if i == 0 {
                            assert(next =~= seq![arr[0]@]);
                        }
                    }
                    if i > 0 {
                        list.append(", ");
                    }
                    let item = arr[i].debug_text();
                    list.append(item.as_str());
                    i += 1;
                }
                assert(models.take(i as int) =~= models);
                let mut out = "Array<".to_owned();
                out.append(lossy(digits.as_slice()).as_str());
                out.append(">([");
                out.append(list.as_str());
                out.append("]))");
                out
            },
        }
    }
}

} // verus!
