//! Reading operation parameters from JSON values.
use vstd::prelude::*;

verus! {

/// The JSON value type of `serde_json`.
#[verifier::external_type_specification]
#[verifier::external_body]
pub struct ExValue(serde_json::Value);

/// What a JSON number is when it is read as an unsigned integer, as a signed integer and as a
/// double (by its IEEE 754 binary64 pattern).
pub ghost struct Numeral {
    pub unsigned: Option<u64>,
    pub signed: Option<i64>,
    pub double: u64,
}

/// What a JSON value holds.
pub ghost enum Json {
    Null,
    Bool(bool),
    Number(Numeral),
    Text(Seq<char>),
    Array(Seq<Json>),
    Object(Map<Seq<char>, Json>),
}

impl Json {
    /// The member `key` of an object; none of any other value.
    pub open spec fn get(self, key: Seq<char>) -> Option<Json> {
        match self {
            Json::Object(members) => if members.dom().contains(key) {
                Some(members[key])
            } else {
                None
            },
            _ => None,
        }
    }

    /// The items of an array.
    pub open spec fn as_array(self) -> Option<Seq<Json>> {
        match self {
            Json::Array(items) => Some(items),
            _ => None,
        }
    }

    /// The characters of a string.
    pub open spec fn as_text(self) -> Option<Seq<char>> {
        match self {
            Json::Text(text) => Some(text),
            _ => None,
        }
    }

    /// A number that is an unsigned integer.
    pub open spec fn as_unsigned(self) -> Option<u64> {
        match self {
            Json::Number(n) => n.unsigned,
            _ => None,
        }
    }

    /// A number that is a signed integer.
    pub open spec fn as_signed(self) -> Option<i64> {
        match self {
            Json::Number(n) => n.signed,
            _ => None,
        }
    }

    /// A number as a double, by its pattern.
    pub open spec fn as_double(self) -> Option<u64> {
        match self {
            Json::Number(n) => Some(n.double),
            _ => None,
        }
    }
}

/// What a `serde_json::Value` holds.
pub uninterp spec fn json_of(value: serde_json::Value) -> Json;

/// What an optional borrowed value holds.
pub open spec fn json_opt(value: Option<&serde_json::Value>) -> Option<Json> {
    match value {
        Some(v) => Some(json_of(*v)),
        None => None,
    }
}

/// What the values of a sequence hold.
pub open spec fn json_seq(values: Seq<serde_json::Value>) -> Seq<Json> {
    values.map_values(|v: serde_json::Value| json_of(v))
}

/// What an optional borrowed array holds.
pub open spec fn json_items(values: Option<&Vec<serde_json::Value>>) -> Option<Seq<Json>> {
    match values {
        Some(v) => Some(json_seq(v@)),
        None => None,
    }
}

/// What an optional borrowed string holds.
pub open spec fn text_opt(text: Option<&str>) -> Option<Seq<char>> {
    match text {
        Some(t) => Some(t@),
        None => None,
    }
}

/// Calls `serde_json::Value::get` with a string key: the member of that name of an object, `None`
/// for an absent member and for every value that is no object.
#[verifier::external_body]
pub(crate) fn json_get<'a>(value: &'a serde_json::Value, key: &str) -> (r: Option<&'a serde_json::Value>)
    ensures
        json_opt(r) == json_of(*value).get(key@),
{
    value.get(key)
}

/// Calls `serde_json::Value::is_object`: whether the value is an object.
#[verifier::external_body]
pub(crate) fn json_is_object(value: &serde_json::Value) -> (r: bool)
    ensures
        r == (json_of(*value) is Object),
{
    value.is_object()
}

/// Calls `serde_json::Value::as_array`: the items of an array in order, `None` for every other
/// value.
#[verifier::external_body]
pub(crate) fn json_array<'a>(value: &'a serde_json::Value) -> (r: Option<&'a Vec<serde_json::Value>>)
    ensures
        json_items(r) == json_of(*value).as_array(),
{
    value.as_array()
}

/// Calls `serde_json::Value::as_str`: the text of a string, `None` for every other value.
#[verifier::external_body]
pub(crate) fn json_text<'a>(value: &'a serde_json::Value) -> (r: Option<&'a str>)
    ensures
        text_opt(r) == json_of(*value).as_text(),
{
    value.as_str()
}

/// Calls `serde_json::Value::as_u64`: the value of a number that is an unsigned integer.
#[verifier::external_body]
pub(crate) fn json_unsigned(value: &serde_json::Value) -> (r: Option<u64>)
    ensures
        r == json_of(*value).as_unsigned(),
{
    value.as_u64()
}

/// Calls `serde_json::Value::as_i64`: the value of a number that is a signed integer.
#[verifier::external_body]
pub(crate) fn json_signed(value: &serde_json::Value) -> (r: Option<i64>)
    ensures
        r == json_of(*value).as_signed(),
{
    value.as_i64()
}

/// Calls `serde_json::Value::as_f64`: every number as a double, handed on by its pattern.
#[verifier::external_body]
pub(crate) fn json_double(value: &serde_json::Value) -> (r: Option<u64>)
    ensures
        r == json_of(*value).as_double(),
{
    value.as_f64().map(|x| x.to_bits())
}

/// Two strings hold the same characters.
pub fn same_text(a: &str, b: &str) -> (r: bool)
    ensures
        r == (a@ == b@),
{
    a.to_owned() == b.to_owned()
}

/// The member `key`, read as text.
pub open spec fn member_text(value: Json, key: Seq<char>) -> Option<Seq<char>> {
    match value.get(key) {
        Some(v) => v.as_text(),
        None => None,
    }
}

} // verus!
