//! JSON documents, as `serde_json` reads them.

use serde_json::Value;
use vstd::prelude::*;
use vstd::string::*;

verus! {

/// What a JSON value holds, as far as a schedule is read: `Other` stands for null, a boolean,
/// and a number that is no integer or that an `i64` does not hold.
pub enum Json {
    Text(Seq<char>),
    Integer(i64),
    Array(Seq<Json>),
    Object(Map<Seq<char>, Json>),
    Other,
}

impl Json {
    /// The member of an object under `key`.
    pub open spec fn member(self, key: Seq<char>) -> Option<Json> {
        match self {
            Json::Object(members) if members.contains_key(key) => Some(members[key]),
            _ => None,
        }
    }

    /// The items of an array.
    pub open spec fn items(self) -> Option<Seq<Json>> {
        match self {
            Json::Array(items) => Some(items),
            _ => None,
        }
    }

    /// The characters of a text.
    pub open spec fn chars(self) -> Option<Seq<char>> {
        match self {
            Json::Text(chars) => Some(chars),
            _ => None,
        }
    }

    /// The value of an integer.
    pub open spec fn integer(self) -> Option<i64> {
        match self {
            Json::Integer(n) => Some(n),
            _ => None,
        }
    }
}

/// `serde_json::Value`, which is opaque but for `json_of`.
#[verifier::external_type_specification]
#[verifier::external_body]
pub struct ExValue(serde_json::Value);

/// What a `serde_json::Value` holds.
pub uninterp spec fn json_of(v: serde_json::Value) -> Json;

/// What each of the values holds.
pub open spec fn json_of_each(values: Seq<serde_json::Value>) -> Seq<Json> {
    Seq::new(values.len(), |i: int| json_of(values[i]))
}

/// What `serde_json::from_slice` reads in the bytes of a document; nothing when it fails.
pub uninterp spec fn json_document(body: Seq<u8>) -> Option<Json>;

/// Calls `serde_json::from_slice`: what it reads, and whether it fails, is a function of the
/// bytes.
#[verifier::external_body]
pub(crate) fn read_document(body: &[u8]) -> (r: Option<Value>)
    ensures
        match r {
            Some(v) => json_document(body@) == Some(json_of(v)),
            None => json_document(body@) is None,
        },
{
    serde_json::from_slice(body).ok()
}

/// Calls `serde_json::Value::get` with a string: the member of an object under that key, and
/// nothing for a value that is no object or has no such member.
#[verifier::external_body]
pub(crate) fn member<'a>(v: &'a Value, key: &str) -> (r: Option<&'a Value>)
    ensures
        match r {
            Some(x) => json_of(*v).member(key@) == Some(json_of(*x)),
            None => json_of(*v).member(key@) is None,
        },
{
    v.get(key)
}

/// Calls `serde_json::Value::as_array`: the items of an array, in order, and nothing for a
/// value that is no array.
#[verifier::external_body]
pub(crate) fn items(v: &Value) -> (r: Option<&Vec<Value>>)
    ensures
        match r {
            Some(values) => json_of(*v).items() == Some(json_of_each(values@)),
            None => json_of(*v).items() is None,
        },
{
    v.as_array()
}

/// Calls `serde_json::Value::as_str`: the characters of a string, and nothing for a value that
/// is no string.
#[verifier::external_body]
pub(crate) fn chars(v: &Value) -> (r: Option<&str>)
    ensures
        match r {
            Some(s) => json_of(*v).chars() == Some(s@),
            None => json_of(*v).chars() is None,
        },
{
    v.as_str()
}

/// Calls `serde_json::Value::as_i64`: the value of an integer that an `i64` holds, and nothing
/// for any other value.
#[verifier::external_body]
pub(crate) fn integer(v: &Value) -> (r: Option<i64>)
    ensures
        r == json_of(*v).integer(),
{
    v.as_i64()
}

} // verus!
