//! JSON payloads.  Parsing, reading and printing are `serde_json`'s; this
//! module states what the library relies on.

use vstd::prelude::*;

verus! {

/// `serde_json::Value`: a JSON value, carried as it is.
#[verifier::external_type_specification]
#[verifier::external_body]
pub struct ExValue(serde_json::Value);

/// `serde_json::Error`: why a text could not be read or a value not printed.
#[verifier::external_type_specification]
#[verifier::external_body]
pub struct ExJsonError(serde_json::Error);

/// The value that a text parses to, or `None` where it is not valid JSON.
pub uninterp spec fn json_parse(text: Seq<char>) -> Option<serde_json::Value>;

/// The member of an object under a key, or `None` where the value is no
/// object or the object has no such key.
pub uninterp spec fn json_member(v: serde_json::Value, key: Seq<char>) -> Option<
    serde_json::Value,
>;

/// The text of a JSON string, or `None` where the value is no string.
pub uninterp spec fn json_text(v: serde_json::Value) -> Option<Seq<char>>;

/// The number that a value holds, where it is an integer that fits `u64`;
/// else `None`.
pub uninterp spec fn json_u64(v: serde_json::Value) -> Option<u64>;

/// A value printed over several indented lines, or `None` where printing
/// reports an error.
pub uninterp spec fn json_pretty(v: serde_json::Value) -> Option<Seq<char>>;

/// The JSON string that holds a text.
pub uninterp spec fn json_string(text: Seq<char>) -> serde_json::Value;

/// The JSON object made of the given members.
pub uninterp spec fn json_object(fields: Seq<(Seq<char>, serde_json::Value)>) -> serde_json::Value;

/// The keys of `fields` as texts, each with its value.
pub open spec fn field_views(fields: Seq<(String, serde_json::Value)>) -> Seq<
    (Seq<char>, serde_json::Value),
> {
    fields.map_values(|f: (String, serde_json::Value)| (f.0@, f.1))
}

/// `serde_json::from_str` read as a `Value`: the outcome depends on the text
/// alone, and is what `json_parse` names; an error stands for `None`.
#[verifier::external_body]
pub(crate) fn parse(text: &str) -> (r: Result<serde_json::Value, serde_json::Error>)
    ensures
        match r {
            Ok(v) => json_parse(text@) == Some(v),
            Err(_) => json_parse(text@) is None,
        },
{
    serde_json::from_str::<serde_json::Value>(text)
}

/// `serde_json::Value::get` with a text key: the outcome depends on the
/// value and the key alone, and is what `json_member` names.
#[verifier::external_body]
pub(crate) fn member<'a>(v: &'a serde_json::Value, key: &str) -> (r: Option<&'a serde_json::Value>)
    ensures
        match r {
            Some(m) => json_member(*v, key@) == Some(*m),
            None => json_member(*v, key@) is None,
        },
{
    v.get(key)
}

/// `serde_json::Value::as_str`: the outcome depends on the value alone, and
/// is what `json_text` names.
pub assume_specification<'a>[ serde_json::Value::as_str ](v: &'a serde_json::Value) -> (r: Option<
    &'a str,
>)
    ensures
        match r {
            Some(s) => json_text(*v) == Some(s@),
            None => json_text(*v) is None,
        },
;

/// `serde_json::Value::as_u64`: the outcome depends on the value alone, and
/// is what `json_u64` names.
pub assume_specification[ serde_json::Value::as_u64 ](v: &serde_json::Value) -> (r: Option<u64>)
    ensures
        r == json_u64(*v),
;

/// `serde_json::to_string_pretty` of a `Value`: the outcome depends on the
/// value alone, and is what `json_pretty` names; an error stands for `None`.
#[verifier::external_body]
pub(crate) fn pretty(v: &serde_json::Value) -> (r: Result<String, serde_json::Error>)
    ensures
        match r {
            Ok(s) => json_pretty(*v) == Some(s@),
            Err(_) => json_pretty(*v) is None,
        },
{
    serde_json::to_string_pretty(v)
}

/// The variant `serde_json::Value::String` around a copy of `text`, which
/// `json_string` names.
#[verifier::external_body]
pub(crate) fn string_value(text: &str) -> (r: serde_json::Value)
    ensures
        r == json_string(text@),
{
    serde_json::Value::String(text.to_string())
}

/// The variant `serde_json::Value::Object` around a `serde_json::Map`
/// collected from `fields` in their order, which `json_object` names.
#[verifier::external_body]
pub(crate) fn object_value(fields: Vec<(String, serde_json::Value)>) -> (r: serde_json::Value)
    ensures
        r == json_object(field_views(fields@)),
{
    serde_json::Value::Object(fields.into_iter().collect())
}

} // verus!
