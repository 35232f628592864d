//! The development extension, which echoes what it gets.

use vstd::prelude::*;
use vstd::string::*;

use crate::encoding;
use crate::ext_kit;
use crate::ext_kit::ExtError;
use crate::messages;
use crate::messages::{Event, HttpReply, SrvMsg};

verus! {

/// The text that the standard library makes of bytes, with a replacement character
/// for what is no UTF-8.
pub uninterp spec fn lossy_text(bytes: Seq<u8>) -> Seq<char>;

/// `String::from_utf8_lossy`: a text that depends on the bytes alone; bytes that
/// are UTF-8 give the text that they encode. Where the replacement characters
/// stand otherwise is not stated.
#[verifier::external_body]
fn text_of_bytes(bytes: &[u8]) -> (text: String)
    ensures
        text@ == lossy_text(bytes@),
        vstd::utf8::valid_utf8(bytes@) ==> text@ == vstd::utf8::decode_utf8(bytes@),
{
    String::from_utf8_lossy(bytes).into_owned()
}

/// The text that echoes a body.
pub open spec fn echo_text(body: Seq<u8>) -> Seq<char> {
    if vstd::utf8::valid_utf8(body) {
        vstd::utf8::decode_utf8(body)
    } else {
        lossy_text(body)
    }
}

/// The answer to a dispatch.
pub open spec fn dev_answer(body_b64: Seq<char>) -> Result<
    (messages::ReplyValue, Seq<messages::EventValue>),
    ExtError,
> {
    match ext_kit::decoded(body_b64) {
        None => Err(ExtError::InvalidBase64),
        Some(body) => ext_kit::text_and_event(200, echo_text(body), "dev.echo"@, body),
    }
}

/// Answers with the body and emits it on `dev.echo`.
pub fn handle_dev_dispatch(msg: SrvMsg) -> (r: Result<(HttpReply, Vec<Event>), ExtError>)
    ensures
        ext_kit::answered(r) == (match msg {
            SrvMsg::Shutdown => ext_kit::shutdown_answer(),
            SrvMsg::Dispatch { body_b64, .. } => dev_answer(body_b64@),
        }),
{
    match msg {
        SrvMsg::Shutdown => ext_kit::just_text(200, "shutdown ignored"),
        SrvMsg::Dispatch { body_b64, .. } => {
            let body: Vec<u8> = match ext_kit::decode_body_b64(body_b64.as_str()) {
                Ok(body) => body,
                Err(e) => {
                    return Err(e);
                },
            };
            let echo: String = text_of_bytes(&body);
            ext_kit::emit_one(200, echo, "dev.echo".to_owned(), &body)
        },
    }
}

/// A webhook is echoed: answered with 200 and its text, and emitted byte for byte as
/// one event on `dev.echo`.
pub proof fn webhooks_are_echoed(text: Seq<char>)
    ensures
        match dev_answer(encoding::base64(vstd::utf8::encode_utf8(text))) {
            Ok((reply, events)) => {
                &&& reply.status == 200
                &&& reply.body == text
                &&& events.len() == 1
                &&& events[0].channel == "dev.echo"@
                &&& events[0].payload_b64 == encoding::base64(vstd::utf8::encode_utf8(text))
            },
            Err(_) => false,
        },
{
    let body = vstd::utf8::encode_utf8(text);
    ext_kit::decoded_undoes_base64(body);
    vstd::utf8::encode_utf8_decode_utf8(text);
    vstd::utf8::encode_utf8_valid_utf8(text);
}

} // verus!
