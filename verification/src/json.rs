//! JSON text to JSON value, by `serde_json`.

use serde_json::Value;
use vstd::prelude::*;

verus! {

/// `serde_json::Value`, carried through as it is: Verus sees nothing of
/// what a value holds.
#[verifier::external_type_specification]
#[verifier::external_body]
pub struct ExValue(Value);

/// The value that a JSON text spells; `None` where the bytes are not
/// exactly one JSON text.
pub uninterp spec fn json_value(text: Seq<u8>) -> Option<Value>;

/// Calls `serde_json::from_slice::<Value>`: the value that the text
/// spells, or `None` where `serde_json` reports an error.
#[verifier::external_body]
pub(crate) fn parse_json(text: &[u8]) -> (r: Option<Value>)
    ensures
        r == json_value(text@),
{
    serde_json::from_slice::<Value>(text).ok()
}

/// The text of a JSON string; `None` for a value of any other kind.
pub uninterp spec fn json_text(value: Value) -> Option<Seq<char>>;

/// The member `key` of a JSON object; `None` for an object without that
/// member and for a value of any other kind.
pub uninterp spec fn json_member(value: Value, key: Seq<char>) -> Option<Value>;

/// Calls `Value::as_str`: the text of a string value, `None` for any other
/// value.
#[verifier::external_body]
pub(crate) fn value_text(value: &Value) -> (r: Option<&str>)
    ensures
        match r {
            Some(text) => json_text(*value) == Some(text@),
            None => json_text(*value).is_none(),
        },
{
    value.as_str()
}

/// Calls `Value::get` with a text key: the member of that name where the
/// value is an object that has one, `None` otherwise.
#[verifier::external_body]
pub(crate) fn value_member<'a>(value: &'a Value, key: &str) -> (r: Option<&'a Value>)
    ensures
        match r {
            Some(member) => json_member(*value, key@) == Some(*member),
            None => json_member(*value, key@).is_none(),
        },
{
    value.get(key)
}

} // verus!
