//! The extension for GitHub webhooks.

use vstd::prelude::*;
use vstd::string::*;

use crate::channel;
use crate::digest;
use crate::encoding;
use crate::ext_kit;
use crate::ext_kit::ExtError;
use crate::json;
use crate::json::Json;
use crate::messages;
use crate::messages::{Event, HttpReply, SrvMsg};
use crate::string_map;
use crate::string_map::StringMap;
use crate::text;

verus! {

/// The signature that GitHub sends with a body.
pub open spec fn signature_text(secret: Seq<char>, body: Seq<u8>) -> Seq<char> {
    "sha256="@ + ext_kit::hmac_hex(secret, body)
}

/// The signature that GitHub sends with a body.
pub fn github_signature(secret: &str, body: &[u8]) -> (signature: String)
    ensures
        signature@ == signature_text(secret@, body@),
{
    let mut signature: String = "sha256=".to_owned();
    let mac: String = ext_kit::hmac_sha256_hex(secret, body);
    signature.append(mac.as_str());
    signature
}

/// A text as a token of a channel, `unknown` where nothing is left of it.
pub open spec fn token_or_unknown(s: Seq<char>) -> Seq<char> {
    if ext_kit::token_of(s).len() == 0 {
        "unknown"@
    } else {
        ext_kit::token_of(s)
    }
}

/// Makes a channel token of a text, `unknown` where nothing is left of it.
pub fn channel_token(input: &str) -> (token: String)
    ensures
        token@ == token_or_unknown(input@),
{
    let token: String = ext_kit::channel_token(input);
    if token.as_str().is_empty() {
        "unknown".to_owned()
    } else {
        token
    }
}

/// The `action` that a webhook names.
pub open spec fn action_of(parsed: json::JsonValue) -> Option<Seq<char>> {
    match json::member(parsed, "action"@) {
        Some(action) => json::as_text(action),
        None => None,
    }
}

/// The channel of a webhook: its kind, and its action where it has one.
pub open spec fn channel_text(event: Seq<char>, parsed: json::JsonValue) -> Seq<char> {
    let kind = "github."@ + token_or_unknown(event);
    match action_of(parsed) {
        Some(action) => kind.push('.') + token_or_unknown(action),
        None => kind,
    }
}

/// The channel of a webhook.
pub fn github_channel(event: &str, parsed: &Json) -> (name: String)
    ensures
        name@ == channel_text(event@, parsed@),
{
    let mut name: String = "github.".to_owned();
    let kind: String = channel_token(event);
    name.append(kind.as_str());
    match parsed.get("action") {
        Some(member) => match member.as_str() {
            Some(action) => {
                let token: String = channel_token(action);
                name.push('.');
                name.append(token.as_str());
            },
            None => {},
        },
        None => {},
    }
    name
}

/// A header, or what stands for it where it is missing.
pub open spec fn header_or(
    headers: Map<Seq<char>, Seq<char>>,
    name: Seq<char>,
    otherwise: Seq<char>,
) -> Seq<char> {
    match ext_kit::header_of(headers, name) {
        Some(value) => value,
        None => otherwise,
    }
}

/// Whether a webhook carries the signature.
pub open spec fn carries(headers: Map<Seq<char>, Seq<char>>, signature: Seq<char>) -> bool {
    header_or(headers, "x-hub-signature-256"@, Seq::empty()) == signature
}

/// Whether a webhook carries the signature.
pub fn carries_signature(headers: &StringMap<String>, signature: &str) -> (yes: bool)
    ensures
        yes == carries(string_map::text_map(headers@), signature@),
{
    match ext_kit::header_value(headers, "x-hub-signature-256") {
        Some(provided) => ext_kit::same_secret(provided, signature),
        None => {
            assert(signature@.len() == 0 ==> signature@ =~= Seq::empty());
            signature.is_empty()
        },
    }
}

/// The answer to a webhook whose signature is right, given the document in its
/// body.
pub open spec fn signed_answer(
    headers: Map<Seq<char>, Seq<char>>,
    body: Seq<u8>,
    parsed: Option<json::JsonValue>,
) -> Result<(messages::ReplyValue, Seq<messages::EventValue>), ExtError> {
    match parsed {
        None => Err(ExtError::GithubJson),
        Some(parsed) => ext_kit::text_and_event(
            200,
            "ok"@,
            channel_text(header_or(headers, "x-github-event"@, "unknown"@), parsed),
            body,
        ),
    }
}

/// Answers a webhook whose signature is right, given the document in its body.
pub fn answer_signed(headers: &StringMap<String>, body: &[u8], parsed: Option<Json>) -> (r: Result<
    (HttpReply, Vec<Event>),
    ExtError,
>)
    ensures
        ext_kit::answered(r) == signed_answer(
            string_map::text_map(headers@),
            body@,
            match parsed {
                Some(json) => Some(json@),
                None => None,
            },
        ),
{
    let parsed: Json = match parsed {
        Some(json) => json,
        None => {
            return Err(ExtError::GithubJson);
        },
    };
    let event: &str = match ext_kit::header_value(headers, "x-github-event") {
        Some(event) => event,
        None => "unknown",
    };
    let name: String = github_channel(event, &parsed);
    ext_kit::emit_one(200, "ok".to_owned(), name, body)
}

/// The answer to a webhook.
pub open spec fn github_answer(
    headers: Map<Seq<char>, Seq<char>>,
    body_b64: Seq<char>,
    secret: Option<Seq<char>>,
) -> Result<(messages::ReplyValue, Seq<messages::EventValue>), ExtError> {
    match ext_kit::decoded(body_b64) {
        None => Err(ExtError::InvalidBase64),
        Some(body) => match secret {
            None => ext_kit::only_text(401, "missing secret"@),
            Some(secret) => if carries(headers, signature_text(secret, body)) {
                signed_answer(headers, body, json::document(body))
            } else {
                ext_kit::only_text(401, "invalid signature"@)
            },
        },
    }
}

/// Checks the signature of a webhook and emits its body as an event. The two
/// signatures are compared in a time that does not depend on where they differ.
pub fn handle_github_dispatch(msg: SrvMsg) -> (r: Result<(HttpReply, Vec<Event>), ExtError>)
    ensures
        ext_kit::answered(r) == (match msg {
            SrvMsg::Shutdown => ext_kit::shutdown_answer(),
            SrvMsg::Dispatch { headers, body_b64, secret, .. } => github_answer(
                string_map::text_map(headers@),
                body_b64@,
                text::optional(secret),
            ),
        }),
{
    match msg {
        SrvMsg::Shutdown => ext_kit::just_text(200, "shutdown ignored"),
        SrvMsg::Dispatch { headers, body_b64, secret, .. } => {
            let body: Vec<u8> = match ext_kit::decode_body_b64(body_b64.as_str()) {
                Ok(body) => body,
                Err(e) => {
                    return Err(e);
                },
            };
            let secret: String = match secret {
                Some(secret) => secret,
                None => {
                    return ext_kit::just_text(401, "missing secret");
                },
            };
            let expected: String = github_signature(secret.as_str(), &body);
            if !carries_signature(&headers, expected.as_str()) {
                return ext_kit::just_text(401, "invalid signature");
            }
            let parsed: Option<Json> = match json::parse(&body) {
                Ok(parsed) => Some(parsed),
                Err(_) => None,
            };
            answer_signed(&headers, &body, parsed)
        },
    }
}

/// A webhook that carries the signature of its body under the secret is accepted,
/// and its body is emitted byte for byte.
pub proof fn signed_webhook_is_accepted(
    headers: Map<Seq<char>, Seq<char>>,
    body: Seq<u8>,
    secret: Seq<char>,
    parsed: json::JsonValue,
)
    requires
        carries(headers, signature_text(secret, body)),
        json::document(body) == Some(parsed),
    ensures
        github_answer(headers, encoding::base64(body), Some(secret)) == ext_kit::text_and_event(
            200,
            "ok"@,
            channel_text(header_or(headers, "x-github-event"@, "unknown"@), parsed),
            body,
        ),
{
    ext_kit::decoded_undoes_base64(body);
}

/// A webhook without the secret, or with another signature than that of its body,
/// is refused, and nothing is emitted.
pub proof fn unsigned_webhook_is_refused(
    headers: Map<Seq<char>, Seq<char>>,
    body: Seq<u8>,
    secret: Option<Seq<char>>,
)
    requires
        secret is None || !carries(headers, signature_text(secret->Some_0, body)),
    ensures
        match github_answer(headers, encoding::base64(body), secret) {
            Ok((reply, events)) => reply.status == 401 && events.len() == 0,
            Err(_) => false,
        },
{
    ext_kit::decoded_undoes_base64(body);
}

/// Whatever a webhook names, its event goes to a valid channel of two or three
/// tokens, the first of which is `github`.
pub proof fn webhook_channels_are_valid(event: Seq<char>, parsed: json::JsonValue)
    ensures
        channel::valid_channel(channel_text(event, parsed)),
        2 <= channel::tokens(channel_text(event, parsed)).len() <= 3,
        channel::tokens(channel_text(event, parsed))[0] == "github"@,
{
    reveal_strlit("github");
    reveal_strlit("github.");
    lemma_token_is_plain(event);
    channel::plain_token_is_channel("github"@);
    assert("github."@ =~= "github"@.push('.'));
    channel::longer_channel_is_channel("github"@, token_or_unknown(event));
    match action_of(parsed) {
        Some(action) => {
            lemma_token_is_plain(action);
            channel::longer_channel_is_channel(
                "github."@ + token_or_unknown(event),
                token_or_unknown(action),
            );
        },
        None => {},
    }
}

proof fn lemma_token_is_plain(s: Seq<char>)
    ensures
        channel::plain_token(token_or_unknown(s)),
{
    reveal_strlit("unknown");
    ext_kit::token_is_plain_or_empty(s);
}

/// A webhook goes to the channel of its kind and of its action, where it has one,
/// which are tokens of the channel as they stand where they are plain.
pub proof fn kinds_and_actions_name_the_channel(
    kind: Seq<char>,
    action: Seq<char>,
    parsed: json::JsonValue,
)
    requires
        ext_kit::is_own_token(kind),
        ext_kit::is_own_token(action),
    ensures
        json::member(parsed, "action"@) == Some(json::JsonValue::Text(action)) ==> channel_text(
            kind,
            parsed,
        ) == text::join(seq!["github"@, kind, action], '.'),
        (match json::member(parsed, "action"@) {
            Some(member) => !(member is Text),
            None => true,
        }) ==> channel_text(kind, parsed) == text::join(seq!["github"@, kind], '.'),
{
    ext_kit::plain_token_is_kept(kind);
    ext_kit::plain_token_is_kept(action);
    reveal_strlit("github");
    reveal_strlit("github.");
    reveal_with_fuel(text::join, 4);
    let two = seq!["github"@, kind];
    let three = seq!["github"@, kind, action];
    assert("github."@ =~= "github"@.push('.'));
    assert(two.drop_last() =~= seq!["github"@]);
    assert(three.drop_last() =~= two);
    assert(text::join(two, '.') =~= "github."@ + kind);
}

/// A kind or an action of which no character fits into a token counts as `unknown`.
pub proof fn nothing_left_is_unknown(s: Seq<char>, parsed: json::JsonValue)
    requires
        forall|i: int| 0 <= i < s.len() ==> !ext_kit::fits(#[trigger] s[i]),
    ensures
        token_or_unknown(s) == "unknown"@,
        channel_text(s, parsed) == channel_text("unknown"@, parsed),
{
    let nothing = Seq::<char>::empty();
    ext_kit::edges_do_not_count(s, nothing, nothing);
    assert(s + nothing + nothing =~= s);
    reveal_strlit("unknown");
    ext_kit::plain_token_is_kept("unknown"@);
}

/// A webhook is accepted if and only if the header `X-Hub-Signature-256` holds the
/// code of its body under the secret, in hexadecimal behind `sha256=`. It is then
/// answered with 200 and gives one event with the whole body, on the channel that
/// the header `X-GitHub-Event` names, or `unknown` without it; otherwise it is
/// answered with 401 and gives none.
pub proof fn webhooks_are_accepted_by_their_signature(
    headers: Map<Seq<char>, Seq<char>>,
    body: Seq<u8>,
    secret: Seq<char>,
    parsed: json::JsonValue,
    given: Seq<char>,
)
    requires
        json::document(body) == Some(parsed),
        ext_kit::header_of(headers, "x-hub-signature-256"@) == Some(given),
    ensures
        ({
            let expected = "sha256="@ + encoding::hex(
                digest::hmac_sha256(vstd::utf8::encode_utf8(secret), body),
            );
            match github_answer(headers, encoding::base64(body), Some(secret)) {
                Ok((reply, events)) => if given == expected {
                    &&& reply.status == 200
                    &&& events.len() == 1
                    &&& events[0].payload_b64 == encoding::base64(body)
                    &&& match ext_kit::header_of(headers, "x-github-event"@) {
                        Some(kind) => events[0].channel == channel_text(kind, parsed),
                        None => events[0].channel == channel_text("unknown"@, parsed),
                    }
                } else {
                    reply.status == 401 && events.len() == 0
                },
                Err(_) => false,
            }
        }),
{
    ext_kit::decoded_undoes_base64(body);
}

} // verus!
