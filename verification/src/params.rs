//! Filter parameters arrive as a byte string that should hold UTF-8 JSON.
//! Decoding the text is left to `std::str::from_utf8` and reading the JSON
//! document to `serde_json`; this module states what the library relies on
//! of each.

use vstd::prelude::*;
use vstd::utf8::{encode_utf8, valid_utf8};

verus! {

/// `serde_json::Error`, the error `serde_json::from_str` reports; carried
/// through unread.
#[verifier::external_type_specification]
#[verifier::external_body]
pub struct ExJsonError(serde_json::Error);

/// Whether `serde_json::from_str::<serde_json::Value>` accepts `text` as a
/// JSON document.
pub uninterp spec fn json_accepts(text: Seq<char>) -> bool;

/// What `serde_json::Value::as_u64` gives on `doc[key]`, where `doc` is the
/// document that `serde_json` parses from `text`: the member's value when the
/// document is an object whose member `key` is a number that fits in a `u64`,
/// `None` otherwise.
pub uninterp spec fn json_member_u64(text: Seq<char>, key: Seq<char>) -> Option<u64>;

/// What `serde_json::Value::as_bool` gives on `doc[key]`, where `doc` is the
/// document that `serde_json` parses from `text`: the member's value when the
/// document is an object whose member `key` is `true` or `false`, `None`
/// otherwise.
pub uninterp spec fn json_member_bool(text: Seq<char>, key: Seq<char>) -> Option<bool>;

/// Decodes `bytes` with `std::str::from_utf8`, which by its documentation
/// succeeds exactly when the bytes are valid UTF-8 and then returns the text
/// made of those very bytes.
#[verifier::external_body]
pub(crate) fn utf8_text(bytes: &[u8]) -> (r: Option<&str>)
    ensures
        r is Some <==> valid_utf8(bytes@),
        r matches Some(t) ==> encode_utf8(t@) == bytes@,
{
    match std::str::from_utf8(bytes) {
        Ok(t) => Some(t),
        Err(_) => None,
    }
}

/// Parses `text` with `serde_json::from_str::<serde_json::Value>` and reads
/// member `key` of the document with `Index` and `Value::as_u64`. The
/// contract names both outcomes: whether the text parses, and the member's
/// value as a function of the text and the key. What JSON grammar
/// `serde_json` accepts, and how it reads numbers, is left unsaid.
#[verifier::external_body]
pub(crate) fn json_u64_member(text: &str, key: &str) -> (r: Result<Option<u64>, serde_json::Error>)
    ensures
        r is Ok <==> json_accepts(text@),
        r matches Ok(v) ==> v == json_member_u64(text@, key@),
{
    match serde_json::from_str::<serde_json::Value>(text) {
        Ok(doc) => Ok(doc[key].as_u64()),
        Err(e) => Err(e),
    }
}

/// Parses `text` with `serde_json::from_str::<serde_json::Value>` and reads
/// member `key` of the document with `Index` and `Value::as_bool`. The
/// contract names both outcomes: whether the text parses, and the member's
/// value as a function of the text and the key. What JSON grammar
/// `serde_json` accepts is left unsaid.
#[verifier::external_body]
pub(crate) fn json_bool_member(text: &str, key: &str) -> (r: Result<Option<bool>, serde_json::Error>)
    ensures
        r is Ok <==> json_accepts(text@),
        r matches Ok(v) ==> v == json_member_bool(text@, key@),
{
    match serde_json::from_str::<serde_json::Value>(text) {
        Ok(doc) => Ok(doc[key].as_bool()),
        Err(e) => Err(e),
    }
}

} // verus!

