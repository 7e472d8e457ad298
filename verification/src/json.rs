//! The part of `serde_json` that the tree builder reads: the string members of
//! a JSON object carried in an event's `args`.

use vstd::prelude::*;

verus! {

/// `serde_json::Value`, carried through the library as an opaque value.
#[verifier::external_type_specification]
#[verifier::external_body]
pub struct ExValue(serde_json::Value);

/// The members of a JSON object whose values are strings, keyed by member
/// name. A value that is not an object has none.
pub uninterp spec fn string_members(value: serde_json::Value) -> Map<Seq<char>, Seq<char>>;

/// Reads the member `key` of `value` with `serde_json::Value::get`, which
/// yields a member only when `value` is an object that holds `key`, and
/// copies it out when it is a `Value::String`. The contract says that the
/// result is exactly the entry of `string_members(value)` under `key`.
#[verifier::external_body]
pub(crate) fn string_member(value: &serde_json::Value, key: &str) -> (r: Option<String>)
    ensures
        r is Some <==> string_members(*value).contains_key(key@),
        r matches Some(s) ==> s@ == string_members(*value)[key@],
{
    match value.get(key) {
        Some(serde_json::Value::String(s)) => Some(s.clone()),
        _ => None,
    }
}

/// The name that a metadata event carries: the string member `name` of its
/// arguments, or the empty string.
pub open spec fn name_in_args(args: Option<serde_json::Value>) -> Seq<char> {
    match args {
        Some(v) => if string_members(v).contains_key("name"@) {
            string_members(v)["name"@]
        } else {
            Seq::empty()
        },
        None => Seq::empty(),
    }
}

/// The name that a metadata event carries in its arguments, or the empty
/// string.
pub fn name_of(args: &Option<serde_json::Value>) -> (r: String)
    ensures
        r@ == name_in_args(*args),
{
    match args {
        Some(v) => match string_member(v, "name") {
            Some(s) => s,
            None => String::new(),
        },
        None => String::new(),
    }
}

} // verus!
