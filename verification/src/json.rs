//! JSON, by way of `serde_json`: reading what a client sends, writing what it is answered.

use crate::text;
use vstd::prelude::*;

verus! {

// ---------------------------------------------------------------------------------------------
// The outside types, and what their values hold
// ---------------------------------------------------------------------------------------------

/// A JSON value of `serde_json`.
#[verifier::external_type_specification]
#[verifier::external_body]
pub struct ExJsonValue(serde_json::Value);

/// The members of a JSON object of `serde_json`.
#[verifier::external_type_specification]
#[verifier::external_body]
#[verifier::reject_recursive_types(K)]
#[verifier::reject_recursive_types(V)]
pub struct ExJsonMembers<K, V>(serde_json::Map<K, V>);

/// Why `serde_json` could not read a text.
#[verifier::external_type_specification]
#[verifier::external_body]
pub struct ExJsonError(serde_json::Error);

/// A JSON value.
pub enum Json {
    Null,
    Bool(bool),
    /// A number, by the text in which it is written.
    Number(Seq<char>),
    Text(Seq<char>),
    List(Seq<Json>),
    Object(Map<Seq<char>, Json>),
}

/// What a JSON value holds.
pub uninterp spec fn json_of(value: serde_json::Value) -> Json;

/// What the members of a JSON object hold.
pub uninterp spec fn members_of(members: serde_json::Map<String, serde_json::Value>) -> Map<
    Seq<char>,
    Json,
>;

/// What an error says.
pub uninterp spec fn complaint_of(error: serde_json::Error) -> Seq<char>;

/// What `serde_json::from_slice` reads out of `bytes`: the value, or what the error says.
pub uninterp spec fn json_read(bytes: Seq<u8>) -> Result<Json, Seq<char>>;

/// The text in which `serde_json` writes a value: compact JSON.
pub uninterp spec fn json_text(json: Json) -> Seq<char>;

// ---------------------------------------------------------------------------------------------
// Reading
// ---------------------------------------------------------------------------------------------

/// `serde_json::from_slice` reads a JSON value out of bytes. What it reads, and what it says if
/// it cannot, depends on the bytes alone.
#[verifier::external_body]
pub(crate) fn read_json(bytes: &[u8]) -> (read: Result<serde_json::Value, serde_json::Error>)
    ensures
        match read {
            Ok(value) => json_read(bytes@) == Ok::<Json, Seq<char>>(json_of(value)),
            Err(error) => json_read(bytes@) == Err::<Json, Seq<char>>(complaint_of(error)),
        },
{
    serde_json::from_slice(bytes)
}

/// `serde_json::Error`, by its `Display`, says what went wrong.
#[verifier::external_body]
pub(crate) fn complaint(error: &serde_json::Error) -> (words: String)
    ensures
        words@ == complaint_of(*error),
{
    error.to_string()
}

/// `serde_json::Value::get`, with a text, gives the member of that name: of an object that has
/// one, and of nothing else.
#[verifier::external_body]
pub(crate) fn member<'a>(value: &'a serde_json::Value, name: &str) -> (found: Option<
    &'a serde_json::Value,
>)
    ensures
        match json_of(*value) {
            Json::Object(members) => if members.contains_key(name@) {
                found is Some && json_of(*found->0) == members[name@]
            } else {
                found is None
            },
            _ => found is None,
        },
{
    value.get(name)
}

/// `serde_json::Value::as_str` gives the text of a text, and nothing of other values.
#[verifier::external_body]
pub(crate) fn as_text(value: &serde_json::Value) -> (found: Option<&str>)
    ensures
        match json_of(*value) {
            Json::Text(chars) => found is Some && (found->0)@ == chars,
            _ => found is None,
        },
{
    value.as_str()
}

// ---------------------------------------------------------------------------------------------
// Writing
// ---------------------------------------------------------------------------------------------

/// `serde_json::Value::Null`.
#[verifier::external_body]
pub(crate) fn null() -> (value: serde_json::Value)
    ensures
        json_of(value) == Json::Null,
{
    serde_json::Value::Null
}

/// `serde_json::Value::from`, of a `bool`, is that truth value.
#[verifier::external_body]
pub(crate) fn flag(on: bool) -> (value: serde_json::Value)
    ensures
        json_of(value) == Json::Bool(on),
{
    serde_json::Value::from(on)
}

/// `serde_json::Value::from`, of a `u64`, is that number, which is written in decimal.
#[verifier::external_body]
pub(crate) fn number(n: u64) -> (value: serde_json::Value)
    ensures
        json_of(value) == Json::Number(text::decimal(n as nat)),
{
    serde_json::Value::from(n)
}

/// `serde_json::Value::from`, of a text, is that text.
#[verifier::external_body]
pub(crate) fn string(chars: &str) -> (value: serde_json::Value)
    ensures
        json_of(value) == Json::Text(chars@),
{
    serde_json::Value::from(chars)
}

/// `serde_json::Value::from`, of a vector of values, is the list of them.
#[verifier::external_body]
pub(crate) fn list(items: Vec<serde_json::Value>) -> (value: serde_json::Value)
    ensures
        json_of(value) == Json::List(items@.map_values(|v: serde_json::Value| json_of(v))),
{
    serde_json::Value::from(items)
}

/// `serde_json::Map::new` has no members.
#[verifier::external_body]
pub(crate) fn no_members() -> (members: serde_json::Map<String, serde_json::Value>)
    ensures
        members_of(members) == (Map::<Seq<char>, Json>::empty()),
{
    serde_json::Map::new()
}

/// `serde_json::Map::insert` sets the member of a name, whether there was one or not.
#[verifier::external_body]
pub(crate) fn set_member(
    members: &mut serde_json::Map<String, serde_json::Value>,
    name: &str,
    value: serde_json::Value,
)
    ensures
        members_of(*final(members)) == members_of(*old(members)).insert(name@, json_of(value)),
{
    members.insert(name.to_string(), value);
}

/// `serde_json::Value::from`, of members, is the object that has them.
#[verifier::external_body]
pub(crate) fn object(members: serde_json::Map<String, serde_json::Value>) -> (value:
    serde_json::Value)
    ensures
        json_of(value) == Json::Object(members_of(members)),
{
    serde_json::Value::from(members)
}

/// `serde_json::Value`, by its `Display`, writes itself as compact JSON, the members of an object
/// in the order of their names. The text depends on what the value holds alone.
#[verifier::external_body]
pub(crate) fn write_json(value: &serde_json::Value) -> (written: String)
    ensures
        written@ == json_text(json_of(*value)),
{
    value.to_string()
}

} // verus!
