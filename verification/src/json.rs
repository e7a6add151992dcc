//! Reading JSON documents, done by the `serde_json` crate.

use vstd::prelude::*;

verus! {

/// A parsed JSON document. Verus sees nothing inside it.
#[verifier::external_type_specification]
#[verifier::external_body]
pub struct ExValue(serde_json::Value);

/// Why a text is no JSON document.
#[verifier::external_type_specification]
#[verifier::external_body]
pub struct ExJsonError(serde_json::Error);

/// The integer members of the elements of `v`: one map per element of the
/// array `v`, from the keys of that element's members which are integers
/// that fit 64 bits to their values. Empty where `v` is no array; an
/// element that is no object has no members.
pub uninterp spec fn json_ints(v: serde_json::Value) -> Seq<Map<Seq<char>, i64>>;

/// The string members of the elements of `v`, laid out as [`json_ints`].
pub uninterp spec fn json_texts(v: serde_json::Value) -> Seq<Map<Seq<char>, Seq<char>>>;

/// The integer and string members of the document that `bytes` spell,
/// or `None` where they spell no JSON document.
pub uninterp spec fn json_document(bytes: Seq<u8>) -> Option<
    (Seq<Map<Seq<char>, i64>>, Seq<Map<Seq<char>, Seq<char>>>),
>;

/// The value under `key` in row `row`, where there is one.
pub open spec fn member<V>(rows: Seq<Map<Seq<char>, V>>, row: int, key: Seq<char>) -> Option<V> {
    if 0 <= row < rows.len() && rows[row].contains_key(key) {
        Some(rows[row][key])
    } else {
        None
    }
}

/// Calls `serde_json::from_slice` for a `Value`. Believed, not proved:
/// the call fails exactly where [`json_document`] is `None`, and the
/// members of a document it returns are those that [`json_document`] names.
#[verifier::external_body]
pub(crate) fn parse_json(bytes: &[u8]) -> (r: Result<serde_json::Value, serde_json::Error>)
    ensures
        match r {
            Ok(v) => json_document(bytes@) == Some((json_ints(v), json_texts(v))),
            Err(_) => json_document(bytes@) is None,
        },
{
    serde_json::from_slice::<serde_json::Value>(bytes)
}

/// Calls `Value::as_array` and takes the array's length. Believed, not
/// proved: an array has one row of members per element, anything else
/// has no rows.
#[verifier::external_body]
pub(crate) fn row_count(v: &serde_json::Value) -> (r: Option<usize>)
    ensures
        match r {
            Some(n) => json_ints(*v).len() == n && json_texts(*v).len() == n,
            None => json_ints(*v).len() == 0 && json_texts(*v).len() == 0,
        },
{
    v.as_array().map(|a| a.len())
}

/// Calls `Value::get` with `row` and, on the element it finds, with
/// `key`; then `Value::as_i64` and `Value::as_str` on that member.
/// Believed, not proved: the first result is the integer member that
/// [`json_ints`] names, the second the string member that [`json_texts`]
/// names, each `None` where the element has no such member.
#[verifier::external_body]
pub(crate) fn member_of(v: &serde_json::Value, row: usize, key: &str) -> (r: (
    Option<i64>,
    Option<String>,
))
    ensures
        r.0 == member(json_ints(*v), row as int, key@),
        r.1.deep_view() == member(json_texts(*v), row as int, key@),
{
    let found = v.get(row).and_then(|w| w.get(key));
    (found.and_then(|m| m.as_i64()), found.and_then(|m| m.as_str()).map(|s| s.to_string()))
}

} // verus!
