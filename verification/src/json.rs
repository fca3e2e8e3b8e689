//! JSON documents, read by `serde_json`.

use serde_json::Value;
use vstd::prelude::*;

verus! {

/// `serde_json::Value`, a parsed document.
#[verifier::external_type_specification]
#[verifier::external_body]
pub struct ExValue(serde_json::Value);

/// `serde_json::Error`, why a text is not a document.
#[verifier::external_type_specification]
#[verifier::external_body]
pub struct ExError(serde_json::Error);

/// What a JSON document says.
pub enum Json {
    Null,
    Bool(bool),
    Number(Seq<char>),
    Text(Seq<char>),
    Array(Seq<Json>),
    Object(Map<Seq<char>, Json>),
}

/// What a parsed document holds.
pub uninterp spec fn json_of(v: serde_json::Value) -> Json;

/// The message of an error, as its `Display` writes it.
pub uninterp spec fn complaint(e: serde_json::Error) -> Seq<char>;

/// The document that a text writes, or the message that says why it writes none.
pub uninterp spec fn document(text: Seq<char>) -> Result<Json, Seq<char>>;

/// `serde_json::from_str`: reads a text as one JSON document. Which texts are
/// documents, and which messages the others get, is left to the name
/// [`document`].
#[verifier::external_body]
pub(crate) fn parse(text: &str) -> (r: Result<Value, serde_json::Error>)
    ensures
        document(text@) == (match r {
            Ok(v) => Ok::<Json, Seq<char>>(json_of(v)),
            Err(e) => Err(complaint(e)),
        }),
{
    serde_json::from_str(text)
}

/// `serde_json::Error`'s `Display`: the message of an error.
#[verifier::external_body]
pub(crate) fn error_text(e: &serde_json::Error) -> (s: String)
    ensures
        s@ == complaint(*e),
{
    e.to_string()
}

/// `Value::get` with a string: the member of that name where the value is an
/// object that has one, and nothing where it is not or has none.
#[verifier::external_body]
pub(crate) fn member<'a>(v: &'a Value, key: &str) -> (r: Option<&'a Value>)
    ensures
        match r {
            Some(x) => json_of(*v) matches Json::Object(m) && m.contains_key(key@) && m[key@]
                == json_of(*x),
            None => !(json_of(*v) matches Json::Object(m) && m.contains_key(key@)),
        },
{
    v.get(key)
}

/// `Value::is_null`: whether the value is `null`.
pub assume_specification[ serde_json::Value::is_null ](v: &Value) -> (r: bool)
    ensures
        r == (json_of(*v) is Null),
;

/// `Value::as_str`: the text of a string, and nothing for any other value.
pub assume_specification<'a>[ serde_json::Value::as_str ](v: &'a Value) -> (r: Option<&'a str>)
    ensures
        match r {
            Some(s) => json_of(*v) == Json::Text(s@),
            None => !(json_of(*v) is Text),
        },
;

/// `Value::clone`: a value that holds the same.
pub assume_specification[ <serde_json::Value as Clone>::clone ](v: &Value) -> (r: Value)
    ensures
        json_of(r) == json_of(*v),
;

} // verus!
