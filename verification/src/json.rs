//! JSON documents: a mathematical model of `serde_json::Value` and the calls that
//! read and build one.

use vstd::prelude::*;
use vstd::string::StringExecFns;

verus! {

/// What a JSON document is, as a tree. The members of an object have no order.
pub ghost enum Json {
    Null,
    Bool(bool),
    /// A number; `unsigned` is its value where it is an integer from 0 to `u64::MAX`.
    Number { unsigned: Option<u64> },
    Str(Seq<char>),
    Array(Seq<Json>),
    Object(Map<Seq<char>, Json>),
}

impl Json {
    /// The member `key` of an object; `Null` where there is none or this is no object.
    pub open spec fn member(self, key: Seq<char>) -> Json {
        match self {
            Json::Object(members) if members.contains_key(key) => members[key],
            _ => Json::Null,
        }
    }

    /// The item at `index` of an array; `Null` where there is none or this is no array.
    pub open spec fn item(self, index: int) -> Json {
        match self {
            Json::Array(items) if 0 <= index < items.len() => items[index],
            _ => Json::Null,
        }
    }

    /// The text of a string; nothing where this is no string.
    pub open spec fn text(self) -> Option<Seq<char>> {
        match self {
            Json::Str(s) => Some(s),
            _ => None,
        }
    }

    /// The value of a number that is an integer from 0 to `u64::MAX`.
    pub open spec fn unsigned(self) -> Option<u64> {
        match self {
            Json::Number { unsigned } => unsigned,
            _ => None,
        }
    }

    /// The members of an object, where null counts as the empty object.
    pub open spec fn members(self) -> Map<Seq<char>, Json> {
        match self {
            Json::Object(members) => members,
            _ => Map::empty(),
        }
    }
}

/// `serde_json::Value`, a parsed JSON document.
#[verifier::external_type_specification]
#[verifier::external_body]
pub struct ExValue(serde_json::Value);

/// `serde_json::Error`, why a text is no JSON document.
#[verifier::external_type_specification]
#[verifier::external_body]
pub struct ExJsonError(serde_json::Error);

/// The document that a `serde_json::Value` holds.
pub uninterp spec fn json_of(value: serde_json::Value) -> Json;

/// The document that `serde_json::from_str` reads from a text; nothing where it refuses
/// the text.
pub uninterp spec fn json_parsed(text: Seq<char>) -> Option<Json>;

/// The documents that the values of a sequence hold.
pub open spec fn jsons_of(values: Seq<serde_json::Value>) -> Seq<Json> {
    values.map_values(|v: serde_json::Value| json_of(v))
}

/// Calls `serde_json::from_str`. What it reads, and which texts it refuses, depends on
/// the text alone.
#[verifier::external_body]
pub(crate) fn parse_json(text: &str) -> (r: Result<serde_json::Value, serde_json::Error>)
    ensures
        match r {
            Ok(value) => json_parsed(text@) == Some(json_of(value)),
            Err(_) => json_parsed(text@) is None,
        },
{
    serde_json::from_str(text)
}

/// The document that `serde_json::from_slice` reads from bytes; nothing where it refuses
/// them.
pub uninterp spec fn json_parsed_bytes(bytes: Seq<u8>) -> Option<Json>;

/// Calls `serde_json::from_slice`. What it reads, and which bytes it refuses, depends on
/// the bytes alone.
#[verifier::external_body]
pub(crate) fn parse_json_bytes(bytes: &[u8]) -> (r: Result<serde_json::Value, serde_json::Error>)
    ensures
        match r {
            Ok(value) => json_parsed_bytes(bytes@) == Some(json_of(value)),
            Err(_) => json_parsed_bytes(bytes@) is None,
        },
{
    serde_json::from_slice(bytes)
}

/// Indexes a value by a key, which gives null where the key is missing or the value is
/// no object.
#[verifier::external_body]
pub(crate) fn json_member<'a>(value: &'a serde_json::Value, key: &str) -> (r: &'a serde_json::Value)
    ensures
        json_of(*r) == json_of(*value).member(key@),
{
    &value[key]
}

/// Indexes a value by a position, which gives null where there is no such item or the
/// value is no array.
#[verifier::external_body]
pub(crate) fn json_item(value: &serde_json::Value, index: usize) -> (r: &serde_json::Value)
    ensures
        json_of(*r) == json_of(*value).item(index as int),
{
    &value[index]
}

/// Calls `Value::as_str`, which gives the text of a string and of nothing else.
#[verifier::external_body]
pub(crate) fn json_text(value: &serde_json::Value) -> (r: Option<&str>)
    ensures
        match r {
            Some(s) => json_of(*value).text() == Some(s@),
            None => json_of(*value).text() is None,
        },
{
    value.as_str()
}

/// Calls `Value::as_u64`, which gives a number that is an integer from 0 to `u64::MAX`.
#[verifier::external_body]
pub(crate) fn json_unsigned(value: &serde_json::Value) -> (r: Option<u64>)
    ensures
        r == json_of(*value).unsigned(),
{
    value.as_u64()
}

/// Calls `Value::as_array`, which gives the items of an array and of nothing else.
#[verifier::external_body]
pub(crate) fn json_items(value: &serde_json::Value) -> (r: Option<&Vec<serde_json::Value>>)
    ensures
        match r {
            Some(items) => json_of(*value) == Json::Array(jsons_of(items@)),
            None => !(json_of(*value) is Array),
        },
{
    value.as_array()
}

/// The null document, by `Value::default`.
#[verifier::external_body]
pub(crate) fn json_null() -> (r: serde_json::Value)
    ensures
        json_of(r) == Json::Null,
{
    serde_json::Value::default()
}

/// The document of a text, by `Value::String`.
#[verifier::external_body]
pub(crate) fn json_string(s: String) -> (r: serde_json::Value)
    ensures
        json_of(r) == Json::Str(s@),
{
    serde_json::Value::String(s)
}

/// The document of a list, by `Value::Array`.
#[verifier::external_body]
pub(crate) fn json_array(items: Vec<serde_json::Value>) -> (r: serde_json::Value)
    ensures
        json_of(r) == Json::Array(jsons_of(items@)),
{
    serde_json::Value::Array(items)
}

/// Assigns a member by indexing: the key is added where it is missing, and null becomes
/// an object. A value that is neither is left out, since the assignment would panic.
#[verifier::external_body]
pub(crate) fn json_set(object: &mut serde_json::Value, key: &str, value: serde_json::Value)
    requires
        json_of(*old(object)) is Object || json_of(*old(object)) is Null,
    ensures
        json_of(*final(object)) == Json::Object(
            json_of(*old(object)).members().insert(key@, json_of(value)),
        ),
{
    object[key] = value;
}

/// The text of a member, where it is a string.
pub fn member_text(value: &serde_json::Value, key: &str) -> (r: Option<String>)
    ensures
        match r {
            Some(s) => json_of(*value).member(key@).text() == Some(s@),
            None => json_of(*value).member(key@).text() is None,
        },
{
    match json_text(json_member(value, key)) {
        Some(s) => Some(String::from_str(s)),
        None => None,
    }
}

/// The object with one member.
pub open spec fn object1(key: Seq<char>, value: Json) -> Json {
    Json::Object(Map::empty().insert(key, value))
}

/// Adds a member that is a text.
pub(crate) fn json_set_text(object: &mut serde_json::Value, key: &str, value: &str)
    requires
        json_of(*old(object)) is Object || json_of(*old(object)) is Null,
    ensures
        json_of(*final(object)) == Json::Object(
            json_of(*old(object)).members().insert(key@, Json::Str(value@)),
        ),
{
    json_set(object, key, json_string(String::from_str(value)));
}

/// What is found in a document: the member of an object under its key, the item of a list at
/// its place, the text of a text and the value of a number; and null, or nothing, elsewhere.
pub proof fn law_json(
    members: Map<Seq<char>, Json>,
    key: Seq<char>,
    items: Seq<Json>,
    i: int,
    s: Seq<char>,
    n: Option<u64>,
    other: Json,
)
    ensures
        members.contains_key(key) ==> Json::Object(members).member(key) == members[key],
        !members.contains_key(key) ==> Json::Object(members).member(key) == Json::Null,
        !(other is Object) ==> other.member(key) == Json::Null,
        0 <= i < items.len() ==> Json::Array(items).item(i) == items[i],
        !(0 <= i < items.len()) ==> Json::Array(items).item(i) == Json::Null,
        !(other is Array) ==> other.item(i) == Json::Null,
        Json::Str(s).text() == Some(s),
        !(other is Str) ==> other.text() is None,
        (Json::Number { unsigned: n }).unsigned() == n,
        !(other is Number) ==> other.unsigned() is None,
{
}

}
