//! JSON values, as `serde_json` holds, writes and compares them.

use vstd::prelude::*;

verus! {

/// `serde_json::Value`: one JSON document.
#[verifier::external_type_specification]
#[verifier::external_body]
pub struct ExJsonValue(serde_json::Value);

/// `serde_json::Error`: why a document could not be written.
#[verifier::external_type_specification]
#[verifier::external_body]
pub struct ExJsonError(serde_json::Error);

/// What `serde_json` makes of a document: its bytes in compact JSON form, or
/// why it declines to write it.
pub uninterp spec fn json_written(value: serde_json::Value) -> Result<Seq<u8>, serde_json::Error>;

/// Whether two documents are equal: the same kind of value, numbers of the same
/// kind and amount, arrays item by item, objects member by member in any order.
pub uninterp spec fn json_same(left: serde_json::Value, right: serde_json::Value) -> bool;

/// `serde_json::to_vec` on a document: the compact form, or an error where
/// there is none.
#[verifier::external_body]
pub(crate) fn json_to_vec(value: &serde_json::Value) -> (result: Result<
    Vec<u8>,
    serde_json::Error,
>)
    ensures
        match result {
            Ok(bytes) => json_written(*value) == Ok::<Seq<u8>, serde_json::Error>(bytes@),
            Err(error) => json_written(*value) == Err::<Seq<u8>, serde_json::Error>(error),
        },
{
    serde_json::to_vec(value)
}

/// `Display` of `serde_json::Error`: the error's message. Nothing is stated of
/// it: where the error holds one of the system, the text is the system's own.
#[verifier::external_body]
pub(crate) fn json_error_text(error: &serde_json::Error) -> (text: String) {
    error.to_string()
}

/// `==` of `serde_json::Value`, an equivalence: in particular a document equals
/// itself.
#[verifier::external_body]
pub(crate) fn json_eq(left: &serde_json::Value, right: &serde_json::Value) -> (result: bool)
    ensures
        result == json_same(*left, *right),
        *left == *right ==> result,
{
    left == right
}

/// `Clone` of `serde_json::Value`: the same document again.
#[verifier::external_body]
pub(crate) fn json_clone(value: &serde_json::Value) -> (result: serde_json::Value)
    ensures
        result == *value,
{
    value.clone()
}

} // verus!
