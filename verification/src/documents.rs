//! Documents in YAML, TOML and JSON, by the crates that read and write them.

use vstd::prelude::*;
use serde_json::Value as Json;
use crate::value::{Number, Value, ValueView, VarMap};

verus! {

/// A value of the `serde_json` crate.
#[verifier::external_type_specification]
#[verifier::external_body]
pub struct ExJson(Json);

// ---------------------------------------------------------------------------------------
// Values of `serde_json`
// ---------------------------------------------------------------------------------------

/// A value from one of `serde_json`, variant by variant: its numbers by
/// `serde_json::Number`'s `as_u64`, `as_i64` and `to_string`, its maps in their order.
#[verifier::external_body]
fn value_of(v: Json) -> (r: Value) {
    match v {
        Json::Null => Value::Null,
        Json::Bool(b) => Value::Bool(b),
        Json::Number(n) => match (n.as_u64(), n.as_i64()) {
            (Some(u), _) => Value::Number(Number::PosInt(u)),
            (_, Some(i)) => Value::Number(Number::NegInt(i)),
            _ => Value::Number(Number::Float(n.to_string())),
        },
        Json::String(s) => Value::Text(s),
        Json::Array(a) => Value::List(a.into_iter().map(value_of).collect()),
        Json::Object(o) => Value::Dict(
            VarMap::of(o.into_iter().map(|e| (e.0, value_of(e.1))).collect()),
        ),
    }
}

/// A value of `serde_json` from one of the library, variant by variant: floats by
/// `serde_json::Number`'s `from_str`, or as their text where that is no number.
#[verifier::external_body]
fn json_of(v: &Value) -> (r: Json) {
    match v {
        Value::Null => Json::Null,
        Value::Bool(b) => Json::from(*b),
        Value::Number(Number::PosInt(n)) => Json::from(*n),
        Value::Number(Number::NegInt(n)) => Json::from(*n),
        Value::Number(Number::Float(t)) => {
            t.parse().map_or_else(|_| Json::from(t.as_str()), Json::Number)
        },
        Value::Text(s) => Json::from(s.as_str()),
        Value::List(a) => a.iter().map(json_of).collect(),
        Value::Dict(o) => {
            (0..o.len()).map(|i| (o.name_at(i).clone(), json_of(o.value_at(i)))).collect()
        },
    }
}

// ---------------------------------------------------------------------------------------
// Reading
// ---------------------------------------------------------------------------------------

/// What a YAML text holds, or what is wrong with it.
pub uninterp spec fn yaml_document(text: Seq<char>) -> Result<ValueView, Seq<char>>;

/// What a TOML text holds, or what is wrong with it.
pub uninterp spec fn toml_document(text: Seq<char>) -> Result<ValueView, Seq<char>>;

/// What JSON in UTF-8 holds, or what is wrong with it.
pub uninterp spec fn json_document(bytes: Seq<u8>) -> Result<ValueView, Seq<char>>;

/// What was read.
pub open spec fn reading(r: Result<Value, String>) -> Result<ValueView, Seq<char>> {
    match r {
        Ok(v) => Ok(v@),
        Err(e) => Err(e@),
    }
}

/// `noyalib::from_str`, into a value: what a YAML text holds, or the words of the error,
/// depend on the text alone.
#[verifier::external_body]
pub(crate) fn read_yaml(text: &str) -> (r: Result<Value, String>)
    ensures
        reading(r) == yaml_document(text@),
{
    noyalib::from_str::<Json>(text).map(value_of).map_err(|e| e.to_string())
}

/// `toml::from_str`, into a value: what a TOML text holds, or the words of the error,
/// depend on the text alone.
#[verifier::external_body]
pub(crate) fn read_toml(text: &str) -> (r: Result<Value, String>)
    ensures
        reading(r) == toml_document(text@),
{
    toml::from_str::<Json>(text).map(value_of).map_err(|e| e.to_string())
}

/// `serde_json::from_slice`, into a value: what the bytes hold, or the words of the error,
/// depend on the bytes alone.
#[verifier::external_body]
pub(crate) fn read_json(bytes: &Vec<u8>) -> (r: Result<Value, String>)
    ensures
        reading(r) == json_document(bytes@),
{
    serde_json::from_slice::<Json>(bytes).map(value_of).map_err(|e| e.to_string())
}

// ---------------------------------------------------------------------------------------
// Writing
// ---------------------------------------------------------------------------------------

/// A value as JSON without white space.
pub uninterp spec fn json_compact(v: ValueView) -> Seq<char>;

/// A value as JSON over several lines, with this indentation a level.
pub uninterp spec fn json_pretty(v: ValueView, indent: Seq<char>) -> Seq<char>;

/// A value as YAML, or why there is none.
pub uninterp spec fn yaml_text(v: ValueView) -> Result<Seq<char>, Seq<char>>;

/// A value as TOML: the error outside says why TOML has no such value, the one inside why
/// it could not be written.
pub uninterp spec fn toml_text(v: ValueView) -> Result<Result<Seq<char>, Seq<char>>, Seq<char>>;

/// What was written.
pub open spec fn writing(r: Result<String, String>) -> Result<Seq<char>, Seq<char>> {
    match r {
        Ok(t) => Ok(t@),
        Err(e) => Err(e@),
    }
}

/// `serde_json::Value`'s `to_string`: the text depends on the value alone.
#[verifier::external_body]
pub(crate) fn compact_json(v: &Value) -> (r: String)
    ensures
        r@ == json_compact(v@),
{
    json_of(v).to_string()
}

/// `serde_json::Value`'s `serialize`, with `serde_json::ser::PrettyFormatter` and an
/// indentation: the text depends on the value and the indentation alone.
#[verifier::external_body]
pub(crate) fn pretty_json(v: &Value, indent: &str) -> (r: String)
    ensures
        r@ == json_pretty(v@, indent@),
{
    let mut buf = Vec::new();
    let formatter = serde_json::ser::PrettyFormatter::with_indent(indent.as_bytes());
    let mut ser = serde_json::Serializer::with_formatter(&mut buf, formatter);
    serde::Serialize::serialize(&json_of(v), &mut ser).expect("a value can be serialized");
    String::from_utf8(buf).expect("JSON is valid UTF-8")
}

/// `noyalib::to_string`: the text, or the words of the error, depend on the value alone.
#[verifier::external_body]
pub(crate) fn write_yaml(v: &Value) -> (r: Result<String, String>)
    ensures
        writing(r) == yaml_text(v@),
{
    noyalib::to_string(&json_of(v)).map_err(|e| e.to_string())
}

/// `toml::Value::try_from`, then `toml::to_string_pretty`: the text, or the words of the
/// error and which of the two it comes from, depend on the value alone.
#[verifier::external_body]
pub(crate) fn write_toml(v: &Value) -> (r: Result<Result<String, String>, String>)
    ensures
        (match r {
            Ok(w) => Ok(writing(w)),
            Err(e) => Err(e@),
        }) == toml_text(v@),
{
    match toml::Value::try_from(json_of(v)) {
        Ok(t) => Ok(toml::to_string_pretty(&t).map_err(|e| e.to_string())),
        Err(e) => Err(e.to_string()),
    }
}

} // verus!
