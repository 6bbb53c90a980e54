//! JSON values carried through the library, and the JSON round-trip
//! benchmark.

use vstd::prelude::*;
use serde_json::{Error, Value};

verus! {

#[verifier::external_type_specification]
#[verifier::external_body]
pub struct ExJsonValue(Value);

#[verifier::external_type_specification]
#[verifier::external_body]
pub struct ExJsonError(Error);

/// Whether `serde_json::from_str::<serde_json::Value>` accepts `text`.
pub uninterp spec fn json_parses(text: Seq<char>) -> bool;

/// The value that `serde_json::from_str::<serde_json::Value>` reads from
/// `text`, when it is JSON.
pub uninterp spec fn json_value(text: Seq<char>) -> Value;

/// `serde_json::from_str::<serde_json::Value>`: parses JSON text. It
/// succeeds when `text` is JSON (`json_parses`), and the value read is named
/// `json_value`: it depends on the text alone.
#[verifier::external_body]
pub(crate) fn json_from_str(text: &str) -> (r: Result<Value, Error>)
    ensures
        r is Ok <==> json_parses(text@),
        r matches Ok(v) ==> v == json_value(text@),
{
    serde_json::from_str(text)
}

/// The string member `key` of the JSON object that `text` holds: its
/// characters, or nothing when `text` is not JSON, not an object, has no
/// member `key`, or that member is not a string.
pub uninterp spec fn json_str_member(text: Seq<char>, key: Seq<char>) -> Option<Seq<char>>;

/// `serde_json::from_str::<serde_json::Value>`, then `Value::get(key)` and
/// `Value::as_str` on what it read: the string member `key` of the object
/// that `text` holds (named `json_str_member`). Text that is not JSON has no
/// member.
#[verifier::external_body]
pub(crate) fn json_member_str(text: &str, key: &str) -> (r: Option<String>)
    ensures
        match r {
            Some(m) => json_str_member(text@, key@) == Some(m@),
            None => json_str_member(text@, key@) is None,
        },
        !json_parses(text@) ==> r is None,
{
    match serde_json::from_str::<Value>(text) {
        Ok(v) => v.get(key).and_then(Value::as_str).map(str::to_owned),
        Err(_) => None,
    }
}

/// The compact JSON text (`serde_json::to_string`) of the value that
/// `text` holds.
pub uninterp spec fn json_compact(text: Seq<char>) -> Seq<char>;

/// `serde_json::from_str::<serde_json::Value>`, then `serde_json::to_string`
/// of the value read: the value (named `json_value`) and its compact text
/// (named `json_compact`).
/// It fails exactly when `text` is not JSON: writing a `Value` cannot fail,
/// since its maps have string keys, its numbers are finite, and the writer
/// is a `Vec<u8>` (serde_json's `Serialize for Value` and `to_vec`).
#[verifier::external_body]
pub(crate) fn json_parse_compact(text: &str) -> (r: Result<(Value, String), Error>)
    ensures
        r is Ok <==> json_parses(text@),
        r matches Ok((v, _)) ==> v == json_value(text@),
        r matches Ok((_, c)) ==> c@ == json_compact(text@),
{
    let v: Value = serde_json::from_str(text)?;
    let c = serde_json::to_string(&v)?;
    Ok((v, c))
}

/// What the JSON benchmark reports: the value read, and the length in bytes
/// of its compact JSON text.
pub struct JsonReport {
    pub parsed: Value,
    pub serialized_length: usize,
}

/// Reads `json_string` as JSON and writes the value back as compact JSON
/// text. Fails exactly when the text is not JSON; the length reported is
/// that of the compact text in UTF-8 bytes.
pub fn json_roundtrip(json_string: &str) -> (r: Result<JsonReport, Error>)
    ensures
        r is Ok <==> json_parses(json_string@),
        r matches Ok(rep) ==> rep.parsed == json_value(json_string@),
        r matches Ok(rep) ==> rep.serialized_length == vstd::utf8::encode_utf8(
            json_compact(json_string@),
        ).len(),
{
    let (parsed, serialized) = match json_parse_compact(json_string) {
        Ok(p) => p,
        Err(e) => {
            return Err(e);
        },
    };
    let serialized_length = serialized.as_str().as_bytes().len();
    Ok(JsonReport { parsed, serialized_length })
}

} // verus!
