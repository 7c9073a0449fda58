//! Comprehensions read from a block of text, JSON or YAML.
use super::serde_form;
use super::serde_form::{SpecConvertError, SpecConvertErrorV};
use crate::chars;
use crate::comprehension::ast;
use crate::comprehension::ast::{CompV, Comprehension};
use crate::document;
use crate::value;
use crate::value::{Json, JsonV};
use vstd::prelude::*;

verus! {

/// Why a text is no comprehension.
#[derive(Debug, PartialEq)]
pub enum TextParseError {
    /// The text is no YAML, or its document no comprehension.
    Yaml(String),
    /// The text is no JSON, or its document no comprehension.
    Json(String),
    /// The document's comprehension has no form in the algebra.
    Convert(SpecConvertError),
}

/// The content of a text error.
#[verifier::ext_equal]
pub enum TextParseErrorV {
    Yaml(Seq<char>),
    Json(Seq<char>),
    Convert(SpecConvertErrorV),
}

impl View for TextParseError {
    type V = TextParseErrorV;

    open spec fn view(&self) -> TextParseErrorV {
        match *self {
            TextParseError::Yaml(m) => TextParseErrorV::Yaml(m@),
            TextParseError::Json(m) => TextParseErrorV::Json(m@),
            TextParseError::Convert(e) => TextParseErrorV::Convert(e@),
        }
    }
}

/// The text of a text error.
pub open spec fn text_error(e: TextParseErrorV) -> Seq<char> {
    match e {
        TextParseErrorV::Yaml(m) => "YAML parse error: "@ + m,
        TextParseErrorV::Json(m) => "JSON parse error: "@ + m,
        TextParseErrorV::Convert(e) => "spec conversion error: "@ + serde_form::spec_error_text(
            e,
        ),
    }
}

impl TextParseError {
    /// The text of the error.
    pub fn to_string(&self) -> (r: String)
        ensures
            r@ == text_error(self@),
    {
        match self {
            TextParseError::Yaml(m) => {
                let mut out: String = "YAML parse error: ".to_owned();
                out.append(m.as_str());
                out
            },
            TextParseError::Json(m) => {
                let mut out: String = "JSON parse error: ".to_owned();
                out.append(m.as_str());
                out
            },
            TextParseError::Convert(e) => {
                let mut out: String = "spec conversion error: ".to_owned();
                out.append(e.to_string().as_str());
                out
            },
        }
    }
}

/// Whether a text is read as JSON: its first character that is no white
/// space is an opening brace.
pub open spec fn reads_as_json(text: Seq<char>) -> bool {
    let t = chars::trim_start(text);
    t.len() > 0 && t[0] == '{'
}

/// What is said of a document that is no comprehension.
pub open spec fn shape_text() -> Seq<char> {
    "expected an object with `for`, and texts under `where` and `order`"@
}

/// What a document comes to.
pub open spec fn document_form(
    doc: Result<JsonV, Seq<char>>,
    json: bool,
) -> Result<CompV, TextParseErrorV> {
    let message = match doc {
        Err(m) => Err(m),
        Ok(j) => match serde_form::spec_of(j) {
            None => Err(shape_text()),
            Some(s) => Ok(s),
        },
    };
    match message {
        Err(m) => if json {
            Err(TextParseErrorV::Json(m))
        } else {
            Err(TextParseErrorV::Yaml(m))
        },
        Ok(s) => match serde_form::algebra_of(s) {
            Ok(c) => Ok(c),
            Err(e) => Err(TextParseErrorV::Convert(e)),
        },
    }
}

/// Whether the text is read as JSON.
pub fn is_json(text: &str) -> (r: bool)
    ensures
        r == reads_as_json(text@),
{
    let t: Vec<char> = chars::trim_start_chars(&chars::chars_of(text));
    t.len() > 0 && t[0] == '{'
}

/// The comprehension of a document that was read, or of the message that it
/// could not be.
pub fn from_outcome(doc: Result<Json, String>, json: bool) -> (r: Result<
    Comprehension,
    TextParseError,
>)
    ensures
        match (r, document_form(
            match doc {
                Ok(j) => Ok(value::json_view(j)),
                Err(m) => Err(m@),
            },
            json,
        )) {
            (Ok(c), Ok(want)) => ast::comp_view(c) == want,
            (Err(e), Err(want)) => e@ == want,
            _ => false,
        },
{
    let message: String = match doc {
        Err(m) => m,
        Ok(j) => match serde_form::from_document(&j) {
            Some(s) => return match s.into_algebra() {
                Ok(c) => Ok(c),
                Err(e) => Err(TextParseError::Convert(e)),
            },
            None =>
                "expected an object with `for`, and texts under `where` and `order`".to_owned(),
        },
    };
    if json {
        Err(TextParseError::Json(message))
    } else {
        Err(TextParseError::Yaml(message))
    }
}

/// The comprehension that `text` describes, in JSON or YAML.
pub fn parse_text(text: &str) -> (r: Result<Comprehension, TextParseError>)
    ensures
        match (r, if reads_as_json(text@) {
            document_form(document::json_text(text@), true)
        } else {
            document_form(document::yaml_text(text@), false)
        }) {
            (Ok(c), Ok(want)) => ast::comp_view(c) == want,
            (Err(e), Err(want)) => e@ == want,
            _ => false,
        },
{
    if is_json(text) {
        from_outcome(document::read_json(text), true)
    } else {
        from_outcome(document::read_yaml(text), false)
    }
}

} // verus!
