//! Access to JSON values through `serde_json`. What the library reads of a
//! JSON value is its members whose value is a string and its members whose
//! value is a number that fits a `u64`; the items here say so of the
//! `serde_json` calls that produce and read such values.

use vstd::prelude::*;

verus! {

#[verifier::external_type_specification]
#[verifier::external_body]
pub struct ExJsonValue(serde_json::Value);

/// The members of a JSON value whose value is a JSON string, by key; empty
/// when the value is not an object.
pub uninterp spec fn json_string_members(v: serde_json::Value) -> Map<Seq<char>, Seq<char>>;

/// The members of a JSON value whose value is a JSON number that
/// `serde_json` represents as a `u64`, by key; empty when the value is not
/// an object.
pub uninterp spec fn json_u64_members(v: serde_json::Value) -> Map<Seq<char>, u64>;

/// What `serde_json::from_slice` makes of a byte string read as a
/// `serde_json::Value`: `None` when the bytes are not one JSON text, else
/// the string members and the `u64` members of the value read.
pub uninterp spec fn json_document(bytes: Seq<u8>) -> Option<
    (Map<Seq<char>, Seq<char>>, Map<Seq<char>, u64>),
>;

/// Calls `serde_json::from_slice::<serde_json::Value>`. Claimed: the call
/// succeeds exactly when `json_document` of the bytes is `Some`, and then
/// the members of the value it returns are the ones `json_document` names.
/// Which byte strings are JSON, and what they hold, is left to the name.
#[verifier::external_body]
pub(crate) fn parse_json(bytes: &[u8]) -> (r: Option<serde_json::Value>)
    ensures
        r is Some <==> json_document(bytes@) is Some,
        r matches Some(v) ==> json_document(bytes@) == Some(
            (json_string_members(v), json_u64_members(v)),
        ),
{
    serde_json::from_slice::<serde_json::Value>(bytes).ok()
}

/// Calls `serde_json::Value::get` with a string key and keeps the member
/// when it is a `Value::String`, as `Value::as_str` would. Claimed: the
/// result is the member that `json_string_members` holds under the key,
/// `None` when it holds none.
#[verifier::external_body]
pub(crate) fn json_string_member(v: &serde_json::Value, key: &str) -> (r: Option<String>)
    ensures
        match r {
            Some(s) => json_string_members(*v).contains_key(key@) && json_string_members(
                *v,
            )[key@] == s@,
            None => !json_string_members(*v).contains_key(key@),
        },
{
    match v.get(key) {
        Some(serde_json::Value::String(s)) => Some(s.clone()),
        _ => None,
    }
}

/// Calls `serde_json::Value::get` with a string key, then
/// `serde_json::Value::as_u64` on the member. Claimed: the result is the
/// member that `json_u64_members` holds under the key, `None` when it holds
/// none.
#[verifier::external_body]
pub(crate) fn json_u64_member(v: &serde_json::Value, key: &str) -> (r: Option<u64>)
    ensures
        match r {
            Some(n) => json_u64_members(*v).contains_key(key@) && json_u64_members(*v)[key@]
                == n,
            None => !json_u64_members(*v).contains_key(key@),
        },
{
    match v.get(key) {
        Some(member) => member.as_u64(),
        None => None,
    }
}

} // verus!
