//! Documents read from text, through `serde_json` and `serde_yaml`.
use crate::chars;
use crate::value;
use crate::value::{Json, JsonV};
use vstd::prelude::*;

verus! {

/// The tree of a JSON value as `serde_json` holds it.
#[verifier::external_type_specification]
#[verifier::external_body]
pub struct ExJsonValue(serde_json::Value);

/// What a `serde_json::Value` holds: null, a truth value, a number by its
/// text, a string, the elements of an array, the members of an object in
/// order.
pub uninterp spec fn held(v: serde_json::Value) -> JsonV;

/// What a text holds, read as JSON; the message where it is not JSON.
pub uninterp spec fn json_text(s: Seq<char>) -> Result<JsonV, Seq<char>>;

/// What a text holds, read as YAML; the message where it is not YAML.
pub uninterp spec fn yaml_text(s: Seq<char>) -> Result<JsonV, Seq<char>>;

/// `serde_json::from_str` reads a text as JSON. What it reads, and the
/// message where it does not, is a function of the text alone.
#[verifier::external_body]
fn from_json(text: &str) -> (r: Result<serde_json::Value, String>)
    ensures
        match r {
            Ok(v) => json_text(text@) == Ok::<JsonV, Seq<char>>(held(v)),
            Err(e) => json_text(text@) == Err::<JsonV, Seq<char>>(e@),
        },
{
    serde_json::from_str::<serde_json::Value>(text).map_err(|e| e.to_string())
}

/// `serde_yaml::from_str` reads a text as YAML into the same tree. What it
/// reads, and the message where it does not, is a function of the text
/// alone.
#[verifier::external_body]
fn from_yaml(text: &str) -> (r: Result<serde_json::Value, String>)
    ensures
        match r {
            Ok(v) => yaml_text(text@) == Ok::<JsonV, Seq<char>>(held(v)),
            Err(e) => yaml_text(text@) == Err::<JsonV, Seq<char>>(e@),
        },
{
    serde_yaml::from_str::<serde_json::Value>(text).map_err(|e| e.to_string())
}

/// The same tree as a value of this crate, variant by variant. A number
/// becomes the text that `serde_json::Number` displays as.
#[verifier::external_body]
fn converted(v: serde_json::Value) -> (r: Json)
    ensures
        value::json_view(r) == held(v),
{
    match v {
        serde_json::Value::Null => Json::Null,
        serde_json::Value::Bool(b) => Json::Bool(b),
        serde_json::Value::Number(n) => Json::Number(n.to_string()),
        serde_json::Value::String(s) => Json::Text(s),
        serde_json::Value::Array(a) => Json::Array(a.into_iter().map(converted).collect()),
        serde_json::Value::Object(m) => {
            Json::Object(m.into_iter().map(|(k, v)| (k, converted(v))).collect())
        },
    }
}

/// The document that `text` holds, read as JSON.
pub fn read_json(text: &str) -> (r: Result<Json, String>)
    ensures
        match r {
            Ok(j) => json_text(text@) == Ok::<JsonV, Seq<char>>(value::json_view(j)),
            Err(e) => json_text(text@) == Err::<JsonV, Seq<char>>(e@),
        },
{
    match from_json(text) {
        Ok(v) => Ok(converted(v)),
        Err(e) => Err(e),
    }
}

/// The document that `text` holds, read as YAML.
pub fn read_yaml(text: &str) -> (r: Result<Json, String>)
    ensures
        match r {
            Ok(j) => yaml_text(text@) == Ok::<JsonV, Seq<char>>(value::json_view(j)),
            Err(e) => yaml_text(text@) == Err::<JsonV, Seq<char>>(e@),
        },
{
    match from_yaml(text) {
        Ok(v) => Ok(converted(v)),
        Err(e) => Err(e),
    }
}

/// A hexadecimal digit.
pub open spec fn hex_char(d: int) -> char {
    if d < 10 {
        (48 + d) as char
    } else {
        (87 + d) as char
    }
}

/// How a character stands in a JSON string.
pub open spec fn json_char(c: char) -> Seq<char> {
    let n = c as int;
    if c == '"' || c == '\\' {
        seq!['\\', c]
    } else if n == 8 {
        seq!['\\', 'b']
    } else if n == 9 {
        seq!['\\', 't']
    } else if n == 10 {
        seq!['\\', 'n']
    } else if n == 12 {
        seq!['\\', 'f']
    } else if n == 13 {
        seq!['\\', 'r']
    } else if n < 32 {
        seq!['\\', 'u', '0', '0', hex_char(n / 16), hex_char(n % 16)]
    } else {
        seq![c]
    }
}

/// How a text stands in a JSON string, without the quotes.
pub open spec fn json_chars(s: Seq<char>) -> Seq<char>
    decreases s.len(),
{
    if s.len() == 0 {
        Seq::empty()
    } else {
        json_chars(s.drop_last()) + json_char(s.last())
    }
}

/// `serde_json::to_string` of a string: double quotes around it, with a
/// backslash before a quote and a backslash, the short escapes for
/// backspace, tab, line feed, form feed and carriage return, `\u00` and two
/// small hexadecimal digits for the other characters below the space, and
/// every other character as it is.
#[verifier::external_body]
fn to_json(text: &str) -> (r: String)
    ensures
        r@ == seq!['"'] + json_chars(text@) + seq!['"'],
{
    serde_json::to_string(text).expect("string serializes")
}

/// How `text` stands in a JSON string, without the quotes.
pub fn json_inner(text: &str) -> (r: String)
    ensures
        r@ == json_chars(text@),
{
    let whole: Vec<char> = chars::chars_of(to_json(text).as_str());
    let out: String = chars::slice_string(&whole, 1, whole.len() - 1);
    assert(out@ =~= json_chars(text@));
    out
}

} // verus!
