//! The library's own JSON value model, and the trusted bridge from
//! serde_json. The backends' reply parsing works on this model with verified
//! extraction logic; only the text-to-tree step is trusted.

use vstd::prelude::*;
use crate::text::str_eq;

verus! {

/// A JSON document as plain values. Numbers are kept as `i64` — the only
/// numeric fields the backends read are integral window identifiers; a
/// number outside that range, or a non-integral one, becomes 0. Object
/// fields keep the order in which the parser hands them over.
pub enum JsonValue {
    Null,
    Bool(bool),
    Int(i64),
    Str(String),
    Arr(Vec<JsonValue>),
    Obj(Vec<(String, JsonValue)>),
}

/// The value stored under the first field named `key`, if any.
pub open spec fn obj_lookup(fields: Seq<(String, JsonValue)>, key: Seq<char>) -> Option<
    JsonValue,
>
    decreases fields.len(),
{
    if fields.len() == 0 {
        None
    } else if fields[0].0@ == key {
        Some(fields[0].1)
    } else {
        obj_lookup(fields.drop_first(), key)
    }
}

/// The string under `key`, if the field is there and holds a string.
pub open spec fn lookup_str(fields: Seq<(String, JsonValue)>, key: Seq<char>) -> Option<
    Seq<char>,
> {
    match obj_lookup(fields, key) {
        Some(JsonValue::Str(s)) => Some(s@),
        _ => None,
    }
}

/// The integer under `key`, if the field is there and holds an integer.
pub open spec fn lookup_int(fields: Seq<(String, JsonValue)>, key: Seq<char>) -> Option<i64> {
    match obj_lookup(fields, key) {
        Some(JsonValue::Int(n)) => Some(n),
        _ => None,
    }
}

/// The boolean under `key`, if the field is there and holds a boolean.
pub open spec fn lookup_bool(fields: Seq<(String, JsonValue)>, key: Seq<char>) -> Option<bool> {
    match obj_lookup(fields, key) {
        Some(JsonValue::Bool(b)) => Some(b),
        _ => None,
    }
}

#[verifier::external_type_specification]
#[verifier::external_body]
pub struct ExSerdeValue(serde_json::Value);

/// What serde_json parses a given text to, carried over into the library's
/// value model; `None` for malformed JSON. The result is a function of the
/// text alone.
pub uninterp spec fn json_of(s: Seq<char>) -> Option<JsonValue>;

/// Relies on serde_json::from_str::<serde_json::Value>: parsing is
/// deterministic in the input text, and fails exactly on malformed JSON.
#[verifier::external_body]
pub(crate) fn parse_json(s: &str) -> (r: Option<JsonValue>)
    ensures
        r == json_of(s@),
{
    match serde_json::from_str::<serde_json::Value>(s) {
        Ok(v) => Some(from_serde(&v)),
        Err(_) => None,
    }
}

/// Relies on the shape of serde_json::Value: each variant is carried over to
/// the library's value model one for one, numbers via as_i64 (0 for a
/// number that is not an i64).
#[verifier::external_body]
fn from_serde(v: &serde_json::Value) -> JsonValue {
    match v {
        serde_json::Value::Null => JsonValue::Null,
        serde_json::Value::Bool(b) => JsonValue::Bool(*b),
        serde_json::Value::Number(n) => JsonValue::Int(n.as_i64().unwrap_or(0)),
        serde_json::Value::String(s) => JsonValue::Str(s.clone()),
        serde_json::Value::Array(a) => JsonValue::Arr(a.iter().map(from_serde).collect()),
        serde_json::Value::Object(o) => JsonValue::Obj(
            o.iter().map(|(k, x)| (k.clone(), from_serde(x))).collect(),
        ),
    }
}

/// The first field of an object named `key`, as a reference.
pub fn get_field<'a>(fields: &'a Vec<(String, JsonValue)>, key: &str) -> (r: Option<
    &'a JsonValue,
>)
    ensures
        match r {
            Some(v) => obj_lookup(fields@, key@) == Some(*v),
            None => obj_lookup(fields@, key@) == None::<JsonValue>,
        },
{
    let n: usize = fields.len();
    let mut i: usize = 0;
    proof {
        assert(fields@.skip(0) =~= fields@);
    }
    while i < n
        invariant
            n == fields@.len(),
            i <= n,
            obj_lookup(fields@, key@) == obj_lookup(fields@.skip(i as int), key@),
        decreases n - i,
    {
        proof {
            assert(fields@.skip(i as int)[0] == fields@[i as int]);
            assert(fields@.skip(i as int).drop_first() =~= fields@.skip(i + 1));
        }
        if str_eq(fields[i].0.as_str(), key) {
            return Some(&fields[i].1);
        }
        i += 1;
    }
    proof {
        assert(fields@.skip(n as int).len() == 0);
    }
    None
}

} // verus!
