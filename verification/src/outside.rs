//! Trusted boundary: every item here either wraps a function of an outside
//! crate (serde_json, regex) or a std function that vstd gives no
//! specification, and is believed rather than proved.

use vstd::prelude::*;
use crate::json::{JsonValue, JsonView, wf_view, scalar_literal_text};
use crate::strutil::int_text;
use core::str::FromStr;

verus! {

#[verifier::external_type_specification]
#[verifier::external_body]
pub struct ExValue(serde_json::Value);

#[verifier::external_type_specification]
#[verifier::external_body]
pub struct ExRegex(regex::Regex);

/// The document a `serde_json::Value` holds, as plain values.
pub uninterp spec fn serde_rep(v: serde_json::Value) -> JsonView;

/// What parsing a text as JSON yields: the document on success, nothing when
/// the text is not valid JSON.
pub uninterp spec fn json_parse(text: Seq<char>) -> Option<JsonView>;

/// The canonical text of the number parsed from a text, if it is accepted as
/// a JSON number.
pub uninterp spec fn number_from_text(t: Seq<char>) -> Option<Seq<char>>;

/// The compact JSON serialization of a document.
pub uninterp spec fn json_min_text(j: JsonView) -> Seq<char>;

/// The pretty-printed JSON serialization of a document.
pub uninterp spec fn json_pretty_text(j: JsonView) -> Seq<char>;

/// The pattern a compiled regular expression was built from.
pub uninterp spec fn regex_pattern(re: regex::Regex) -> Seq<char>;

/// Whether a pattern is a valid regular expression.
pub uninterp spec fn regex_ok(pat: Seq<char>) -> bool;

/// Whether a pattern matches anywhere in a text.
pub uninterp spec fn regex_match(pat: Seq<char>, text: Seq<char>) -> bool;

/// Relies on serde_json::Value's variants: rebuilds the same document as
/// plain values. Object keys of a `serde_json::Map` are distinct, and with
/// the `float_roundtrip` feature on (see Cargo.toml) parsing is correctly
/// rounded, so a printed number re-parses to the same value and the result
/// is well-formed.
#[verifier::external_body]
fn from_serde(v: serde_json::Value) -> (r: JsonValue)
    ensures
        r@ == serde_rep(v),
        wf_view(r@),
{
    match v {
        serde_json::Value::Null => JsonValue::Null,
        serde_json::Value::Bool(b) => JsonValue::Bool(b),
        serde_json::Value::Number(n) => JsonValue::Num(n.to_string()),
        serde_json::Value::String(s) => JsonValue::Str(s),
        serde_json::Value::Array(a) => JsonValue::Arr(a.into_iter().map(from_serde).collect()),
        serde_json::Value::Object(m) => JsonValue::Obj(
            m.into_iter().map(|e| (e.0, from_serde(e.1))).collect(),
        ),
    }
}

/// Relies on serde_json::Value's constructors: rebuilds the same document as
/// a `serde_json::Value`. Well-formedness makes every number text acceptable.
#[verifier::external_body]
fn to_serde(v: &JsonValue) -> (r: serde_json::Value)
    requires
        wf_view(v@),
    ensures
        serde_rep(r) == v@,
{
    match v {
        JsonValue::Null => serde_json::Value::Null,
        JsonValue::Bool(b) => serde_json::Value::Bool(*b),
        JsonValue::Num(t) => serde_json::Value::Number(serde_json::Number::from_str(t).unwrap()),
        JsonValue::Str(s) => serde_json::Value::String(s.clone()),
        JsonValue::Arr(a) => serde_json::Value::Array(a.iter().map(to_serde).collect()),
        JsonValue::Obj(m) => serde_json::Value::Object(
            m.iter().map(|e| (e.0.clone(), to_serde(&e.1))).collect(),
        ),
    }
}

/// Relies on serde_json::from_str: whether a text parses, and to what
/// document, depends on the text alone; a parsed document is well-formed.
#[verifier::external_body]
pub(crate) fn parse_json_text(text: &str) -> (r: Result<JsonValue, String>)
    ensures
        match r {
            Ok(v) => json_parse(text@) == Some(v@) && wf_view(v@),
            Err(_) => json_parse(text@) is None,
        },
{
    match serde_json::from_str::<serde_json::Value>(text) {
        Ok(v) => Ok(from_serde(v)),
        Err(e) => Err(e.to_string()),
    }
}

/// Relies on serde_json::to_string: the compact serialization of a document
/// depends on the document alone and never fails for a JSON value; a bare
/// scalar serializes as its literal text.
#[verifier::external_body]
pub(crate) fn json_min_string(v: &JsonValue) -> (r: String)
    requires
        wf_view(v@),
    ensures
        r@ == json_min_text(v@),
        scalar_literal_text(v@, r@),
{
    serde_json::to_string(&to_serde(v)).unwrap()
}

/// Relies on serde_json::to_string_pretty: the pretty serialization of a
/// document depends on the document alone and never fails for a JSON value;
/// a bare scalar has nothing to indent and serializes as its literal text.
#[verifier::external_body]
pub(crate) fn json_pretty_string(v: &JsonValue) -> (r: String)
    requires
        wf_view(v@),
    ensures
        r@ == json_pretty_text(v@),
        scalar_literal_text(v@, r@),
{
    serde_json::to_string_pretty(&to_serde(v)).unwrap()
}

/// Relies on serde_json::Number's FromStr and Display: a text is accepted
/// exactly when it is a JSON number (an integer parse is tried first, then a
/// float parse; a non-finite value cannot arise) and it renders canonically.
/// With the `float_roundtrip` feature on, parsing is correctly rounded, so
/// the canonical text re-parses to itself.
#[verifier::external_body]
pub(crate) fn num_norm(text: &str) -> (r: Option<String>)
    ensures
        match r {
            Some(o) => number_from_text(text@) == Some(o@) && number_from_text(o@) == Some(o@),
            None => number_from_text(text@) is None,
        },
{
    match serde_json::Number::from_str(text) {
        Ok(n) => Some(n.to_string()),
        Err(_) => None,
    }
}

/// Relies on serde_json::Number::from(i64) and its Display: an integer
/// renders as its plain decimal text, which re-parses to itself.
#[verifier::external_body]
pub(crate) fn int_number_text(i: i64) -> (r: String)
    ensures
        r@ == int_text(i as int),
        number_from_text(r@) == Some(r@),
{
    serde_json::Number::from(i).to_string()
}

/// Relies on regex::Regex::new: whether a pattern compiles depends on the
/// pattern alone, and the compiled expression keeps that pattern.
#[verifier::external_body]
pub(crate) fn regex_new(pat: &str) -> (r: Option<regex::Regex>)
    ensures
        r is Some <==> regex_ok(pat@),
        match r {
            Some(re) => regex_pattern(re) == pat@,
            None => true,
        },
{
    regex::Regex::new(pat).ok()
}

/// Relies on regex::Regex::is_match: whether a compiled pattern matches
/// somewhere in a text depends on the pattern and the text alone.
#[verifier::external_body]
pub(crate) fn regex_is_match(re: &regex::Regex, text: &str) -> (r: bool)
    ensures
        r == regex_match(regex_pattern(*re), text@),
{
    re.is_match(text)
}

/// Whether a character is alphanumeric, as `char::is_alphanumeric` decides.
pub uninterp spec fn alnum(c: char) -> bool;

/// Relies on char::is_alphanumeric: the result depends on the character alone.
#[verifier::external_body]
pub fn is_alnum_char(c: char) -> (r: bool)
    ensures
        r == alnum(c),
{
    c.is_alphanumeric()
}

/// Whether a character is whitespace, as `char::is_whitespace` decides.
pub uninterp spec fn white(c: char) -> bool;

/// Relies on char::is_whitespace: the result depends on the character alone.
#[verifier::external_body]
pub fn is_space_char(c: char) -> (r: bool)
    ensures
        r == white(c),
{
    c.is_whitespace()
}

/// The Unicode lowercasing of a character sequence.
pub uninterp spec fn lowered(s: Seq<char>) -> Seq<char>;

/// Relies on str::to_lowercase: the result depends on the characters alone.
#[verifier::external_body]
pub fn to_lower(s: &str) -> (r: String)
    ensures
        r@ == lowered(s@),
{
    s.to_lowercase()
}

/// Relies on String's FromIterator over chars: collecting characters yields
/// the string with exactly those characters.
#[verifier::external_body]
pub fn chars_to_string(v: &Vec<char>) -> (r: String)
    ensures
        r@ == v@,
{
    v.iter().collect()
}

} // verus!
