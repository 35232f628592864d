//! Lines of JSON: one document to a line.

use vstd::prelude::*;
use vstd::string::*;

use crate::json;
use crate::json::Json;
use crate::text;

verus! {

/// Why a line could not be read.
#[derive(Debug)]
pub enum NdjsonError {
    MalformedJson(serde_json::Error),
}

/// What an error of `serde_json` says.
pub uninterp spec fn said(error: serde_json::Error) -> Seq<char>;

/// The `Display` of a `serde_json::Error`: what it says depends on the error alone.
#[verifier::external_body]
fn error_text(error: &serde_json::Error) -> (text: String)
    ensures
        text@ == said(*error),
{
    error.to_string()
}

impl NdjsonError {
    /// The sentence that reports this error.
    pub fn message(&self) -> (msg: String)
        ensures
            match self {
                NdjsonError::MalformedJson(error) => msg@ == "malformed json: "@ + said(*error),
            },
    {
        match self {
            NdjsonError::MalformedJson(error) => "malformed json: ".to_owned().concat(
                error_text(error).as_str(),
            ),
        }
    }
}

/// The line that carries a document: its text, then a line feed.
pub fn encode_line(document: &str) -> (line: String)
    ensures
        line@ == document@.push('\n'),
{
    let mut line: String = document.to_owned();
    line.push('\n');
    line
}

/// The line that carries a document in its compact form. It has one line feed, which
/// is its last character, and the document is read back from it.
pub fn document_line(document: &Json) -> (line: String)
    ensures
        line@ == json::shown(document@).push('\n'),
        forall|i: int| 0 <= i < line@.len() - 1 ==> #[trigger] line@[i] != '\n',
        text::trimmed(line@) == json::shown(document@),
        text::trimmed(line@).len() > 0,
        json::is_flat(json::kept(document@), 127) ==> json::document(
            vstd::utf8::encode_utf8(text::trimmed(line@)),
        ) == Some(json::kept(document@)),
{
    let shown: String = json::show(document);
    let line: String = encode_line(shown.as_str());
    proof {
        payload_of_encoded_line(shown@);
        assert forall|i: int| 0 <= i < line@.len() - 1 implies #[trigger] line@[i] != '\n' by {
            assert(line@[i] == shown@[i]);
        }
    }
    line
}

/// The document on a line, without the white space around it; nothing where the
/// line is blank.
pub fn line_payload(line: &str) -> (payload: Option<String>)
    ensures
        match payload {
            Some(p) => p@ == text::trimmed(line@) && p@.len() > 0,
            None => text::trimmed(line@).len() == 0,
        },
{
    let trimmed: String = text::trim(line);
    if trimmed.as_str().is_empty() {
        None
    } else {
        Some(trimmed)
    }
}

/// Reads the document on a line; a blank line holds none.
pub fn decode_line(line: &str) -> (r: Result<Option<Json>, NdjsonError>)
    ensures
        match r {
            Ok(None) => text::trimmed(line@).len() == 0,
            Ok(Some(document)) => text::trimmed(line@).len() > 0 && json::document(
                vstd::utf8::encode_utf8(text::trimmed(line@)),
            ) == Some(document@),
            Err(_) => text::trimmed(line@).len() > 0 && json::document(
                vstd::utf8::encode_utf8(text::trimmed(line@)),
            ) is None,
        },
{
    match line_payload(line) {
        None => Ok(None),
        Some(payload) => match json::parse(payload.as_str().as_bytes()) {
            Ok(document) => Ok(Some(document)),
            Err(error) => Err(NdjsonError::MalformedJson(error)),
        },
    }
}

/// A document that has no white space at its ends comes back from its line as it
/// was.
pub proof fn payload_of_encoded_line(document: Seq<char>)
    requires
        document.len() > 0,
        !text::is_white(document[0]),
        !text::is_white(document.last()),
    ensures
        text::trimmed(document.push('\n')) == document,
{
    let line = document.push('\n');
    let white = |c: char| text::is_white(c);
    assert(text::drop_leading(line, white) == line);
    assert(line.drop_last() =~= document);
    reveal_with_fuel(text::drop_trailing, 2);
    assert(text::drop_trailing(line, white) == document);
}

} // verus!
