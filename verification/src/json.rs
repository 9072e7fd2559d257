//! Validation of the JSON metadata documents stored in the log.
//!
//! The store carries metadata as its serialized text and never looks inside
//! it; all it needs is whether a byte sequence is one well-formed JSON
//! document, which the parser decides.

use vstd::prelude::*;
use vstd::utf8::valid_utf8;

verus! {

/// Whether the bytes form exactly one well-formed JSON document,
/// a function of the bytes alone.
pub uninterp spec fn is_json(bytes: Seq<u8>) -> bool;

/// The four bytes of the JSON literal `null`, the value of every tombstone.
pub open spec fn null_json_bytes() -> Seq<u8> {
    seq![110u8, 117u8, 108u8, 108u8]
}

/// Relies on serde_json::from_slice::<Value>: it succeeds exactly on the
/// byte sequences that are one well-formed JSON document, and any such
/// sequence is valid UTF-8 (JSON structure is ASCII and string contents are
/// checked while deserializing into String).
#[verifier::external_body]
pub fn json_valid(bytes: &[u8]) -> (r: bool)
    ensures
        r == is_json(bytes@),
        r ==> valid_utf8(bytes@),
{
    serde_json::from_slice::<serde_json::Value>(bytes).is_ok()
}

/// Relies on serde_json::to_vec: Value::Null serializes to the four bytes
/// `null`, which are valid UTF-8 (serialization emits only valid UTF-8);
/// and on serde_json::from_slice: those bytes parse back as one JSON
/// document.
#[verifier::external_body]
pub fn json_null() -> (r: Vec<u8>)
    ensures
        r@ == null_json_bytes(),
        is_json(r@),
        valid_utf8(r@),
{
    serde_json::to_vec(&serde_json::Value::Null).unwrap_or_else(|_| vec![110, 117, 108, 108])
}

} // verus!
