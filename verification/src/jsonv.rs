//! The trusted surface over serde_json.
//!
//! What a JSON document contains is a function of its bytes alone, so
//! each extraction below carries a name for its result: an uninterpreted
//! spec function of the bytes (and the field key, where one applies). The
//! wrappers make fixed serde_json call chains and promise only that the
//! value handed back is the named result; everything decided on those
//! results is verified for every value they may take.

use vstd::prelude::*;

verus! {

/// The display text of the error serde_json::from_slice reports for `b`,
/// or `None` when `b` parses as a JSON document.
pub uninterp spec fn parse_err_of(b: Seq<u8>) -> Option<Seq<char>>;

/// The string value of the top-level field `key` of the document in `b`:
/// `None` when `b` does not parse as an object, the field is absent, or
/// its value is not a string.
pub uninterp spec fn string_field_of(b: Seq<u8>, key: Seq<char>) -> Option<Seq<char>>;

/// Whether the document in `b` is a JSON object (meaningful only when
/// `b` parses).
pub uninterp spec fn is_object_of(b: Seq<u8>) -> bool;

/// Whether the document in `b` carries a top-level field `key`, of any
/// type (meaningful only when `b` parses).
pub uninterp spec fn field_present_of(b: Seq<u8>, key: Seq<char>) -> bool;

/// The canonical JSON texts of the items of the document's top-level
/// "models" array; `None` when `b` does not parse or carries no such
/// array.
pub uninterp spec fn models_items_of(b: Seq<u8>) -> Option<Seq<Seq<char>>>;

/// The string value of the "name" field of the document in the text `t`,
/// or `None` when `t` has no such string field.
pub uninterp spec fn text_name_field_of(t: Seq<char>) -> Option<Seq<char>>;

/// Relies on serde_json::from_slice, Value::get and Value::as_str: the
/// top-level string field `key`, or the parse error's display text.
#[verifier::external_body]
pub(crate) fn json_string_field(b: &Vec<u8>, key: &str) -> (r: Result<Option<String>, String>)
    ensures
        match r {
            Err(e) => parse_err_of(b@) == Some(e@),
            Ok(f) => parse_err_of(b@) is None && match f {
                Some(s) => string_field_of(b@, key@) == Some(s@),
                None => string_field_of(b@, key@) is None,
            },
        },
{
    match serde_json::from_slice::<serde_json::Value>(b.as_slice()) {
        Err(e) => Err(e.to_string()),
        Ok(v) => Ok(v.get(key).and_then(|f| f.as_str()).map(|s| s.to_owned())),
    }
}

/// Relies on serde_json::from_slice, Value::is_object and Value::get:
/// whether the document is an object, and whether it carries the two
/// fields, or the parse error's display text.
#[verifier::external_body]
pub(crate) fn json_object_shape(b: &Vec<u8>, key1: &str, key2: &str) -> (r: Result<
    (bool, bool, bool),
    String,
>)
    ensures
        match r {
            Err(e) => parse_err_of(b@) == Some(e@),
            Ok(shape) => parse_err_of(b@) is None && shape.0 == is_object_of(b@) && shape.1
                == field_present_of(b@, key1@) && shape.2 == field_present_of(b@, key2@),
        },
{
    match serde_json::from_slice::<serde_json::Value>(b.as_slice()) {
        Err(e) => Err(e.to_string()),
        Ok(v) => Ok((v.is_object(), v.get(key1).is_some(), v.get(key2).is_some())),
    }
}

/// Relies on serde_json::from_slice, Value::get, Value::as_array and
/// Value's Display: the canonical texts of the "models" array items.
#[verifier::external_body]
pub(crate) fn json_models_texts(b: &Vec<u8>) -> (r: Option<Vec<String>>)
    ensures
        match r {
            None => models_items_of(b@) is None,
            Some(v) => models_items_of(b@) matches Some(items) && v@.len() == items.len()
                && forall|i: int| 0 <= i < items.len() ==> (#[trigger] v@[i])@ == items[i],
        },
{
    let v: serde_json::Value = serde_json::from_slice(b.as_slice()).ok()?;
    let items = v.get("models")?.as_array()?;
    Some(items.iter().map(|m| m.to_string()).collect())
}

/// Relies on serde_json::from_str, Value::get and Value::as_str: the
/// "name" string field of the document in `t`.
#[verifier::external_body]
pub(crate) fn json_text_name_field(t: &str) -> (r: Option<String>)
    ensures
        match r {
            Some(s) => text_name_field_of(t@) == Some(s@),
            None => text_name_field_of(t@) is None,
        },
{
    let v: serde_json::Value = serde_json::from_str(t).ok()?;
    v.get("name").and_then(|f| f.as_str()).map(|s| s.to_owned())
}

} // verus!
