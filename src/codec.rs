use vstd::prelude::*;

use crate::flatten::{flat_value, Flattener};
use crate::join::{joined, KeyJoin};
use crate::value::{Json, JsonValue};

verus! {

/// What serde_json decodes the text `text` to; `None` where it refuses the
/// text.
pub uninterp spec fn decoded(text: Seq<char>) -> Option<Json>;

/// The compact JSON text that serde_json writes for `v`.
pub uninterp spec fn encoded(v: Json) -> Seq<char>;

/// Used by `decode` to convert a `serde_json::Value` into the library's
/// value, variant for variant. Relies on `serde_json::Map` (built with
/// `preserve_order`) yielding its entries in insertion order.
#[verifier::external_body]
fn from_serde(v: serde_json::Value) -> JsonValue {
    match v {
        serde_json::Value::Null => JsonValue::Null,
        serde_json::Value::Bool(b) => JsonValue::Bool(b),
        serde_json::Value::Number(n) => JsonValue::Number(n),
        serde_json::Value::String(s) => JsonValue::String(s),
        serde_json::Value::Array(a) => JsonValue::Array(a.into_iter().map(from_serde).collect()),
        serde_json::Value::Object(m) => JsonValue::Object(
            m.into_iter().map(|(k, x)| (k, from_serde(x))).collect(),
        ),
    }
}

/// Used by `encode` to convert the library's value into a
/// `serde_json::Value`, variant for variant. Relies on `serde_json::Map`
/// (built with `preserve_order`) keeping entries in the order collected.
#[verifier::external_body]
fn to_serde(v: &JsonValue) -> serde_json::Value {
    match v {
        JsonValue::Null => serde_json::Value::Null,
        JsonValue::Bool(b) => serde_json::Value::Bool(*b),
        JsonValue::Number(n) => serde_json::Value::Number(n.clone()),
        JsonValue::String(s) => serde_json::Value::String(s.clone()),
        JsonValue::Array(a) => serde_json::Value::Array(a.iter().map(to_serde).collect()),
        JsonValue::Object(es) => serde_json::Value::Object(
            es.iter().map(|(k, x)| (k.clone(), to_serde(x))).collect(),
        ),
    }
}

/// Relies on `serde_json::from_str` into a `serde_json::Value`: it fails
/// exactly on text that is not JSON, and otherwise gives the value the text
/// denotes.
#[verifier::external_body]
fn decode(text: &str) -> (r: Result<JsonValue, serde_json::Error>)
    ensures
        r is Ok <==> decoded(text@) is Some,
        r matches Ok(v) ==> decoded(text@) == Some(v@),
{
    serde_json::from_str::<serde_json::Value>(text).map(from_serde)
}

/// Relies on `serde_json::to_string` of a `serde_json::Value`: it writes the
/// compact JSON text of the value into a buffer and cannot fail, since a
/// `Value` serializes without error and its map keys are strings.
#[verifier::external_body]
fn encode(v: &JsonValue) -> (r: Result<String, serde_json::Error>)
    ensures
        r is Ok,
        r matches Ok(s) ==> s@ == encoded(v@),
{
    serde_json::to_string(&to_serde(v))
}

/// The flattened form of `v` with arrays kept and keys joined by a dot.
pub open spec fn default_flat(v: Json) -> Json {
    flat_value(|p: Seq<Seq<char>>| joined(p, seq!['.']), false, v, Seq::empty())
}

impl<J: KeyJoin> Flattener<J> {
    /// Finishes a decode: a decoding error is handed on unchanged, a decoded
    /// value is flattened and encoded.
    pub fn flatten_decoded(&self, decoded: Result<JsonValue, serde_json::Error>) -> (r: Result<
        String,
        serde_json::Error,
    >)
        ensures
            decoded matches Err(e) ==> r == Err::<String, serde_json::Error>(e),
            decoded matches Ok(v) ==> (r matches Ok(s) && s@ == encoded(self.flat_spec(v@))),
    {
        match decoded {
            Err(e) => Err(e),
            Ok(v) => self.flatten_from_value(&v),
        }
    }

    /// Decodes `json`, flattens it and encodes the result. Fails exactly when
    /// the text does not decode.
    pub fn flatten_from_str(&self, json: &str) -> (r: Result<String, serde_json::Error>)
        ensures
            r is Ok <==> decoded(json@) is Some,
            decoded(json@) matches Some(v) ==> (r matches Ok(s) && s@ == encoded(self.flat_spec(v))),
    {
        self.flatten_decoded(decode(json))
    }

    /// Flattens `value` and encodes the result; this never fails.
    pub fn flatten_from_value(&self, value: &JsonValue) -> (r: Result<String, serde_json::Error>)
        ensures
            r matches Ok(s) && s@ == encoded(self.flat_spec(value@)),
    {
        let flat_value = self.flatten(value);
        encode(&flat_value)
    }
}

/// `Flattener::flatten_from_str` with the default configuration.
pub fn flatten_from_str(json: &str) -> (r: Result<String, serde_json::Error>)
    ensures
        r is Ok <==> decoded(json@) is Some,
        decoded(json@) matches Some(v) ==> (r matches Ok(s) && s@ == encoded(default_flat(v))),
{
    let f = Flattener::new();
    proof {
        assert(f.join_fn() =~= (|p: Seq<Seq<char>>| joined(p, seq!['.'])));
    }
    f.flatten_from_str(json)
}

/// `Flattener::flatten_from_value` with the default configuration; this never
/// fails.
pub fn flatten_from_value(value: &JsonValue) -> (r: Result<String, serde_json::Error>)
    ensures
        r matches Ok(s) && s@ == encoded(default_flat(value@)),
{
    let f = Flattener::new();
    proof {
        assert(f.join_fn() =~= (|p: Seq<Seq<char>>| joined(p, seq!['.'])));
    }
    f.flatten_from_value(value)
}

} // verus!
