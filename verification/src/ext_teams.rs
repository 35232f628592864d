//! The extension for change notifications of Microsoft Teams.

use vstd::prelude::*;
use vstd::string::*;

use crate::channel;
use crate::encoding;
use crate::ext_kit;
use crate::ext_kit::ExtError;
use crate::json;
use crate::json::Json;
use crate::messages;
use crate::messages::{Event, HttpReply, SrvMsg};
use crate::string_map;
use crate::string_map::StringMap;
use crate::text;

verus! {

/// The value of a byte that is a hexadecimal digit.
pub open spec fn digit_value(b: u8) -> Option<int> {
    encoding::hex_value(b as char)
}

/// The value of the two bytes behind a percent sign: two hexadecimal digits, or
/// one behind a plus sign.
pub open spec fn pair_value(high: u8, low: u8) -> Option<int> {
    match (digit_value(high), digit_value(low)) {
        (Some(h), Some(l)) => Some(16 * h + l),
        (None, Some(l)) => if high == 43 {
            Some(l)
        } else {
            None
        },
        _ => None,
    }
}

/// The text that bytes with percent escapes stand for. Each byte, escaped or not,
/// gives the character with its number; a plus sign gives a space; a percent sign
/// that begins no escape stands for itself.
pub open spec fn percent_text(bytes: Seq<u8>) -> Seq<char>
    decreases bytes.len(),
{
    if bytes.len() == 0 {
        Seq::empty()
    } else if bytes[0] == 43 {
        seq![' '] + percent_text(bytes.skip(1))
    } else if bytes[0] == 37 && bytes.len() > 2 && pair_value(bytes[1], bytes[2]) is Some {
        seq![pair_value(bytes[1], bytes[2])->Some_0 as u8 as char] + percent_text(bytes.skip(3))
    } else {
        seq![bytes[0] as char] + percent_text(bytes.skip(1))
    }
}

/// Whether no percent sign stands directly before one character and a part of the
/// next one.
pub open spec fn decodable(value: Seq<char>) -> bool {
    let bytes = vstd::utf8::encode_utf8(value);
    forall|i: int|
        0 <= i < bytes.len() - 2 && #[trigger] bytes[i] == 37 ==> vstd::utf8::is_char_boundary(
            bytes,
            i + 3,
        )
}

/// The value of a hexadecimal digit.
fn read_digit(b: u8) -> (value: Option<u8>)
    ensures
        match value {
            Some(v) => digit_value(b) == Some(v as int) && v < 16,
            None => digit_value(b) is None,
        },
{
    if 48 <= b && b <= 57 {
        Some(b - 48)
    } else if 97 <= b && b <= 102 {
        Some(b - 87)
    } else if 65 <= b && b <= 70 {
        Some(b - 55)
    } else {
        None
    }
}

/// The value of the two bytes behind a percent sign.
fn read_pair(high: u8, low: u8) -> (value: Option<u8>)
    ensures
        match value {
            Some(v) => pair_value(high, low) == Some(v as int),
            None => pair_value(high, low) is None,
        },
{
    match (read_digit(high), read_digit(low)) {
        (Some(h), Some(l)) => Some(16 * h + l),
        (None, Some(l)) => if high == 43 {
            Some(l)
        } else {
            None
        },
        _ => None,
    }
}

/// Decodes percent escapes.
pub fn percent_decode(value: &str) -> (out: String)
    requires
        decodable(value@),
    ensures
        out@ == percent_text(vstd::utf8::encode_utf8(value@)),
{
    let bytes: &[u8] = value.as_bytes();
    let ghost all = bytes@;
    let mut out: String = String::new();
    let mut i: usize = 0;
    assert(all.skip(0) =~= all);
    assert(out@ + percent_text(all) =~= percent_text(all));
    while i < bytes.len()
        invariant
            i <= all.len(),
            bytes@ == all,
            out@ + percent_text(all.skip(i as int)) == percent_text(all),
        decreases all.len() - i,
    {
        let ghost before = out@;
        let ghost rest = all.skip(i as int);
        assert(rest.skip(1) =~= all.skip(i as int + 1));
        let escaped: Option<u8> = if bytes[i] == 37 && bytes.len() - i > 2 {
            read_pair(bytes[i + 1], bytes[i + 2])
        } else {
            None
        };
        if bytes[i] == 43 {
            out.push(' ');
            i += 1;
        } else {
            match escaped {
                Some(b) => {
                    assert(rest.skip(3) =~= all.skip(i as int + 3));
                    out.push(b as char);
                    i += 3;
                },
                None => {
                    out.push(bytes[i] as char);
                    i += 1;
                },
            }
        }
        assert(out@ + percent_text(all.skip(i as int)) =~= before + percent_text(rest));
    }
    assert(all.skip(i as int) =~= Seq::empty());
    assert(out@ =~= percent_text(all));
    out
}

/// The value of the first of the pairs that is called `validationToken`.
pub open spec fn first_token(pairs: Seq<Seq<char>>) -> Option<Seq<char>>
    decreases pairs.len(),
{
    if pairs.len() == 0 {
        None
    } else if text::until(pairs[0], '=') == "validationToken"@ {
        Some(text::after(pairs[0], '='))
    } else {
        first_token(pairs.drop_first())
    }
}

/// The validation token of a query, as it is written there.
pub open spec fn written_token(query: Option<Seq<char>>) -> Option<Seq<char>> {
    match query {
        Some(query) => first_token(text::split(query, '&')),
        None => None,
    }
}

/// The validation token of a query.
pub open spec fn token_in(query: Option<Seq<char>>) -> Option<Seq<char>> {
    match written_token(query) {
        Some(value) => Some(percent_text(vstd::utf8::encode_utf8(value))),
        None => None,
    }
}

/// Whether the validation token of a query, where it has one, can be decoded.
pub open spec fn query_is_decodable(query: Option<Seq<char>>) -> bool {
    match written_token(query) {
        Some(value) => decodable(value),
        None => true,
    }
}

/// Finds the validation token of a query, as it is written there.
fn find_token(query: Option<&str>) -> (found: Option<String>)
    ensures
        match found {
            Some(value) => written_token(text::optional_str(query)) == Some(value@),
            None => written_token(text::optional_str(query)) is None,
        },
{
    let given: &str = match query {
        Some(given) => given,
        None => {
            return None;
        },
    };
    let pairs: Vec<String> = text::split_on(given, '&');
    let ghost all = text::split(given@, '&');
    let mut i: usize = 0;
    assert(all.skip(0) =~= all);
    while i < pairs.len()
        invariant
            i <= pairs@.len(),
            text::texts(pairs@) == all,
            query == Some(given),
            all == text::split(given@, '&'),
            first_token(all.skip(i as int)) == first_token(all),
        decreases pairs@.len() - i,
    {
        assert(all.skip(i as int)[0] == pairs@[i as int]@);
        assert(all.skip(i as int).drop_first() =~= all.skip(i as int + 1));
        let (key, value) = text::split_once(pairs[i].as_str(), '=');
        if text::same_text(key.as_str(), "validationToken") {
            return Some(value);
        }
        i += 1;
    }
    None
}

/// Whether [`validation_token`] can decode the token of a query.
pub fn can_decode(query: Option<&str>) -> (yes: bool)
    ensures
        yes == query_is_decodable(text::optional_str(query)),
{
    let value: String = match find_token(query) {
        Some(value) => value,
        None => {
            return true;
        },
    };
    let written: &str = value.as_str();
    let bytes: &[u8] = written.as_bytes();
    let mut i: usize = 0;
    while i < bytes.len()
        invariant
            i <= bytes@.len(),
            bytes@ == vstd::utf8::encode_utf8(written@),
            written.spec_bytes() == bytes@,
            written@ == value@,
            written_token(text::optional_str(query)) == Some(value@),
            forall|j: int|
                0 <= j < i && j < bytes@.len() - 2 && #[trigger] bytes@[j] == 37
                    ==> vstd::utf8::is_char_boundary(bytes@, j + 3),
        decreases bytes@.len() - i,
    {
        if bytes[i] == 37 && bytes.len() - i > 2 && !written.is_char_boundary(i + 3) {
            assert(bytes@[i as int] == 37);
            return false;
        }
        i += 1;
    }
    true
}

/// The validation token of a query.
pub fn validation_token(query: Option<&str>) -> (token: Option<String>)
    requires
        query_is_decodable(text::optional_str(query)),
    ensures
        match token {
            Some(token) => token_in(text::optional_str(query)) == Some(token@),
            None => token_in(text::optional_str(query)) is None,
        },
{
    match find_token(query) {
        Some(value) => Some(percent_decode(value.as_str())),
        None => None,
    }
}

/// One character of a resource in a channel.
pub open spec fn resource_char(c: char) -> char {
    if c == '/' || c == '.' || c == ':' {
        '.'
    } else {
        ext_kit::token_char(c)
    }
}

/// A text in which each two dots in a row, taken from the left, become one.
pub open spec fn paired_dots(s: Seq<char>) -> Seq<char>
    decreases s.len(),
{
    if s.len() < 2 {
        s
    } else if s[0] == '.' && s[1] == '.' {
        seq!['.'] + paired_dots(s.skip(2))
    } else {
        seq![s[0]] + paired_dots(s.skip(1))
    }
}

/// The characters of a resource in a channel.
pub open spec fn resource_chars(resource: Seq<char>) -> Seq<char> {
    Seq::new(resource.len(), |i: int| resource_char(resource[i]))
}

/// What a resource gives for a channel.
pub open spec fn resource_text(resource: Seq<char>) -> Seq<char> {
    paired_dots(text::stripped_of(resource_chars(resource), '.'))
}

/// Makes the part of a channel that names a resource.
pub fn resource_to_channel(resource: &str) -> (name: String)
    ensures
        name@ == resource_text(resource@),
{
    let given: Vec<char> = text::chars_of(resource);
    let mut mapped: String = String::new();
    let mut i: usize = 0;
    while i < given.len()
        invariant
            i <= given@.len(),
            given@ == resource@,
            mapped@ == resource_chars(resource@.take(i as int)),
        decreases given@.len() - i,
    {
        let c: char = given[i];
        mapped.push(
            if c == '/' || c == '.' || c == ':' {
                '.'
            } else {
                ext_kit::to_token_char(c)
            },
        );
        i += 1;
        assert(mapped@ =~= resource_chars(resource@.take(i as int)));
    }
    assert(resource@.take(i as int) =~= resource@);
    let stripped: String = text::trim_char(mapped.as_str(), '.');
    let chars: Vec<char> = text::chars_of(stripped.as_str());
    let ghost all = chars@;
    let mut name: String = String::new();
    let mut i: usize = 0;
    assert(all.skip(0) =~= all);
    assert(name@ + paired_dots(all) =~= paired_dots(all));
    while i < chars.len()
        invariant
            i <= all.len(),
            chars@ == all,
            name@ + paired_dots(all.skip(i as int)) == paired_dots(all),
        decreases all.len() - i,
    {
        let ghost before = name@;
        let ghost rest = all.skip(i as int);
        assert(rest.skip(1) =~= all.skip(i as int + 1));
        let c: char = chars[i];
        let pair: bool = c == '.' && chars.len() - i > 1 && chars[i + 1] == '.';
        name.push(c);
        if pair {
            assert(rest.skip(2) =~= all.skip(i as int + 2));
            i += 2;
        } else {
            i += 1;
        }
        assert(name@ + paired_dots(all.skip(i as int)) =~= before + paired_dots(rest));
    }
    assert(all.skip(i as int) =~= Seq::empty());
    assert(name@ =~= paired_dots(all));
    name
}

/// The notifications in a document.
pub open spec fn notifications(parsed: json::JsonValue) -> Seq<json::JsonValue> {
    match json::member(parsed, "value"@) {
        Some(value) => match json::as_items(value) {
            Some(items) => items,
            None => Seq::empty(),
        },
        None => Seq::empty(),
    }
}

/// The text of a member of a notification.
pub open spec fn text_member(item: json::JsonValue, name: Seq<char>) -> Option<Seq<char>> {
    match json::member(item, name) {
        Some(value) => json::as_text(value),
        None => None,
    }
}

/// The `clientState` of a notification, which is empty where it is missing.
pub open spec fn client_state(item: json::JsonValue) -> Seq<char> {
    match text_member(item, "clientState"@) {
        Some(state) => state,
        None => Seq::empty(),
    }
}

/// Whether every notification carries the secret.
pub open spec fn all_carry(items: Seq<json::JsonValue>, secret: Seq<char>) -> bool {
    forall|i: int| 0 <= i < items.len() ==> client_state(#[trigger] items[i]) == secret
}

/// The events of notifications: one for each that names a resource, with the
/// whole body.
pub open spec fn resource_events(items: Seq<json::JsonValue>, body: Seq<u8>) -> Seq<
    messages::EventValue,
>
    decreases items.len(),
{
    if items.len() == 0 {
        Seq::empty()
    } else {
        let before = resource_events(items.drop_last(), body);
        match text_member(items.last(), "resource"@) {
            Some(resource) => before.push(
                ext_kit::event_value("teams."@ + resource_text(resource), body),
            ),
            None => before,
        }
    }
}

/// The answer to notifications.
pub open spec fn notified(parsed: json::JsonValue, secret: Seq<char>, body: Seq<u8>) -> Result<
    (messages::ReplyValue, Seq<messages::EventValue>),
    ExtError,
> {
    if all_carry(notifications(parsed), secret) {
        Ok(
            (
                ext_kit::text_reply_value(202, "accepted"@),
                resource_events(notifications(parsed), body),
            ),
        )
    } else {
        ext_kit::only_text(401, "invalid clientState"@)
    }
}

/// The text of a member of a notification.
fn read_member<'a>(item: &'a Json, name: &str) -> (found: Option<&'a str>)
    ensures
        match found {
            Some(s) => text_member(item@, name@) == Some(s@),
            None => text_member(item@, name@) is None,
        },
{
    match item.get(name) {
        Some(value) => value.as_str(),
        None => None,
    }
}

/// Answers notifications: all of them are refused unless each carries the secret,
/// which is compared in a time that does not depend on where it differs.
pub fn answer_notifications(parsed: &Json, secret: &str, body: &[u8]) -> (r: Result<
    (HttpReply, Vec<Event>),
    ExtError,
>)
    ensures
        ext_kit::answered(r) == notified(parsed@, secret@, body@),
{
    let mut events: Vec<Event> = Vec::new();
    let ghost all = notifications(parsed@);
    match parsed.get("value") {
        Some(value) => match value.as_array() {
            Some(items) => {
                let mut i: usize = 0;
                assert(messages::event_values(events@) =~= resource_events(all.take(0), body@));
                while i < items.len()
                    invariant
                        i <= items@.len(),
                        all == json::values_of(items@),
                        all == notifications(parsed@),
                        forall|j: int| 0 <= j < i ==> client_state(#[trigger] all[j]) == secret@,
                        messages::event_values(events@) == resource_events(
                            all.take(i as int),
                            body@,
                        ),
                    decreases items@.len() - i,
                {
                    let item: &Json = &items[i];
                    assert(all[i as int] == item@);
                    assert(all.take(i as int + 1).drop_last() =~= all.take(i as int));
                    let state: &str = match read_member(item, "clientState") {
                        Some(state) => state,
                        None => {
                            proof {
                                reveal_strlit("");
                                assert(""@ =~= Seq::<char>::empty());
                            }
                            ""
                        },
                    };
                    assert(state@ == client_state(all[i as int]));
                    if !ext_kit::same_secret(state, secret) {
                        return ext_kit::just_text(401, "invalid clientState");
                    }
                    match read_member(item, "resource") {
                        Some(resource) => {
                            let ghost before = messages::event_values(events@);
                            let mut name: String = "teams.".to_owned();
                            let tail: String = resource_to_channel(resource);
                            name.append(tail.as_str());
                            events.push(
                                Event {
                                    channel: name,
                                    payload_b64: encoding::encode_base64(body),
                                },
                            );
                            assert(messages::event_values(events@) =~= before.push(
                                ext_kit::event_value("teams."@ + resource_text(resource@), body@),
                            ));
                        },
                        None => {},
                    }
                    i += 1;
                }
                assert(all.take(i as int) =~= all);
            },
            None => {
                assert(messages::event_values(events@) =~= resource_events(all, body@));
            },
        },
        None => {
            assert(messages::event_values(events@) =~= resource_events(all, body@));
        },
    }
    Ok((ext_kit::text_reply(202, "accepted".to_owned()), events))
}

/// The answer to a validation request: its token as plain text.
pub open spec fn validated(token: Seq<char>) -> Result<
    (messages::ReplyValue, Seq<messages::EventValue>),
    ExtError,
> {
    Ok(
        (
            messages::ReplyValue {
                status: 200,
                headers: Map::empty().insert("content-type"@, "text/plain"@),
                body: token,
            },
            Seq::empty(),
        ),
    )
}

/// Whether a request with this method may ask for validation.
pub open spec fn may_validate(method: Seq<char>) -> bool {
    text::lower(method) == "get"@ || text::lower(method) == "post"@
}

/// The answer to a notification request, given the document in its body.
pub open spec fn notification_answer(
    body: Seq<u8>,
    parsed: Option<json::JsonValue>,
    secret: Option<Seq<char>>,
) -> Result<(messages::ReplyValue, Seq<messages::EventValue>), ExtError> {
    match parsed {
        None => Err(ExtError::TeamsJson),
        Some(parsed) => match secret {
            None => ext_kit::only_text(401, "missing clientState secret"@),
            Some(secret) => notified(parsed, secret, body),
        },
    }
}

/// The answer to a request.
pub open spec fn teams_answer(
    method: Seq<char>,
    query: Option<Seq<char>>,
    body_b64: Seq<char>,
    secret: Option<Seq<char>>,
) -> Result<(messages::ReplyValue, Seq<messages::EventValue>), ExtError> {
    if may_validate(method) && token_in(query) is Some {
        validated(token_in(query)->Some_0)
    } else {
        match ext_kit::decoded(body_b64) {
            None => Err(ExtError::InvalidBase64),
            Some(body) => notification_answer(body, json::document(body), secret),
        }
    }
}

/// Answers a validation request.
fn answer_validation(token: String) -> (r: Result<(HttpReply, Vec<Event>), ExtError>)
    ensures
        ext_kit::answered(r) == validated(token@),
{
    let mut headers: StringMap<String> = StringMap::new();
    assert(string_map::text_map(headers@) =~= Map::empty());
    string_map::put_text(&mut headers, "content-type", "text/plain");
    let events: Vec<Event> = Vec::new();
    assert(messages::event_values(events@) =~= Seq::empty());
    Ok((HttpReply { status: 200, headers, body: token }, events))
}

/// Answers a validation request, or checks notifications and emits an event for
/// each resource that they name.
pub fn handle_teams_dispatch(msg: SrvMsg) -> (r: Result<(HttpReply, Vec<Event>), ExtError>)
    requires
        match msg {
            SrvMsg::Dispatch { method, query, .. } => may_validate(method@) ==> query_is_decodable(
                text::optional(query),
            ),
            SrvMsg::Shutdown => true,
        },
    ensures
        ext_kit::answered(r) == (match msg {
            SrvMsg::Shutdown => ext_kit::shutdown_answer(),
            SrvMsg::Dispatch { method, query, body_b64, secret, .. } => teams_answer(
                method@,
                text::optional(query),
                body_b64@,
                text::optional(secret),
            ),
        }),
{
    match msg {
        SrvMsg::Shutdown => ext_kit::just_text(200, "shutdown ignored"),
        SrvMsg::Dispatch { method, query, body_b64, secret, .. } => {
            let verb: String = text::to_lower(method.as_str());
            if text::same_text(verb.as_str(), "get") || text::same_text(verb.as_str(), "post") {
                let given: Option<&str> = match &query {
                    Some(query) => Some(query.as_str()),
                    None => None,
                };
                match validation_token(given) {
                    Some(token) => {
                        return answer_validation(token);
                    },
                    None => {},
                }
            }
            let body: Vec<u8> = match ext_kit::decode_body_b64(body_b64.as_str()) {
                Ok(body) => body,
                Err(e) => {
                    return Err(e);
                },
            };
            let parsed: Json = match json::parse(&body) {
                Ok(parsed) => parsed,
                Err(_) => {
                    return Err(ExtError::TeamsJson);
                },
            };
            match secret {
                None => ext_kit::just_text(401, "missing clientState secret"),
                Some(secret) => answer_notifications(&parsed, secret.as_str(), &body),
            }
        },
    }
}

/// Bytes with each of them escaped.
pub open spec fn percent_escaped(bytes: Seq<u8>) -> Seq<u8>
    decreases bytes.len(),
{
    if bytes.len() == 0 {
        Seq::empty()
    } else {
        seq![
            37u8,
            encoding::hex_digit(bytes[0] as int / 16) as u8,
            encoding::hex_digit(bytes[0] as int % 16) as u8,
        ] + percent_escaped(bytes.skip(1))
    }
}

/// Decoding undoes escaping: each byte comes back as the character with its
/// number.
pub proof fn decoding_undoes_escaping(bytes: Seq<u8>)
    ensures
        percent_text(percent_escaped(bytes)) == Seq::new(bytes.len(), |i: int| bytes[i] as char),
    decreases bytes.len(),
{
    let expected = Seq::new(bytes.len(), |i: int| bytes[i] as char);
    if bytes.len() == 0 {
        assert(expected =~= Seq::empty());
    } else {
        let rest = bytes.skip(1);
        let escaped = percent_escaped(bytes);
        decoding_undoes_escaping(rest);
        assert(escaped.skip(3) =~= percent_escaped(rest));
        assert(pair_value(escaped[1], escaped[2]) == Some(bytes[0] as int));
        assert(expected =~= seq![bytes[0] as char] + Seq::new(
            rest.len(),
            |i: int| rest[i] as char,
        ));
    }
}

/// Bytes among which there is no percent and no plus sign each give the character
/// with their number.
pub proof fn unescaped_text_is_kept(bytes: Seq<u8>)
    requires
        forall|i: int| 0 <= i < bytes.len() ==> #[trigger] bytes[i] != 37 && bytes[i] != 43,
    ensures
        percent_text(bytes) == Seq::new(bytes.len(), |i: int| bytes[i] as char),
    decreases bytes.len(),
{
    let expected = Seq::new(bytes.len(), |i: int| bytes[i] as char);
    if bytes.len() == 0 {
        assert(expected =~= Seq::empty());
    } else {
        let rest = bytes.skip(1);
        assert forall|i: int| 0 <= i < rest.len() implies #[trigger] rest[i] != 37 && rest[i]
            != 43 by {
            assert(rest[i] == bytes[i + 1]);
        }
        unescaped_text_is_kept(rest);
        assert(expected =~= seq![bytes[0] as char] + Seq::new(
            rest.len(),
            |i: int| rest[i] as char,
        ));
    }
}

/// A validation request is answered with its token, whatever its body and
/// whether or not there is a secret, and emits nothing.
pub proof fn validation_is_echoed(
    method: Seq<char>,
    query: Option<Seq<char>>,
    body_b64: Seq<char>,
    secret: Option<Seq<char>>,
)
    requires
        may_validate(method),
        token_in(query) is Some,
    ensures
        teams_answer(method, query, body_b64, secret) == validated(token_in(query)->Some_0),
{
}

/// Where one notification does not carry the secret, all are refused and nothing
/// is emitted.
pub proof fn foreign_notifications_are_refused(
    method: Seq<char>,
    query: Option<Seq<char>>,
    body: Seq<u8>,
    secret: Seq<char>,
    parsed: json::JsonValue,
    i: int,
)
    requires
        !(may_validate(method) && token_in(query) is Some),
        json::document(body) == Some(parsed),
        0 <= i < notifications(parsed).len(),
        client_state(notifications(parsed)[i]) != secret,
    ensures
        teams_answer(method, query, encoding::base64(body), Some(secret)) == ext_kit::only_text(
            401,
            "invalid clientState"@,
        ),
{
    ext_kit::decoded_undoes_base64(body);
}

/// Whether three dots stand side by side in a text.
pub open spec fn has_triple_dot(s: Seq<char>) -> bool {
    exists|i: int|
        0 <= i < s.len() - 2 && #[trigger] s[i] == '.' && s[i + 1] == '.' && s[i + 2] == '.'
}

proof fn lemma_paired_dots(s: Seq<char>)
    requires
        s.len() > 0,
        s.last() != '.',
        !has_triple_dot(s),
        forall|i: int| 0 <= i < s.len() ==> #[trigger] s[i] == '.' || channel::plain_char(s[i]),
    ensures
        paired_dots(s).len() > 0,
        paired_dots(s)[0] == s[0],
        paired_dots(s).last() == s.last(),
        !channel::has_double_dot(paired_dots(s)),
        forall|i: int|
            0 <= i < paired_dots(s).len() ==> #[trigger] paired_dots(s)[i] == '.'
                || channel::plain_char(paired_dots(s)[i]),
    decreases s.len(),
{
    if s.len() >= 2 {
        let pair = s[0] == '.' && s[1] == '.';
        if pair {
            assert(s.len() > 2);
            assert(s[2] != '.') by {
                assert(s[0] == '.');
            }
        }
        let n: int = if pair {
            2
        } else {
            1
        };
        let rest = s.skip(n);
        let tail = paired_dots(rest);
        let whole = paired_dots(s);
        assert(!has_triple_dot(rest)) by {
            if has_triple_dot(rest) {
                let i = choose|i: int|
                    0 <= i < rest.len() - 2 && #[trigger] rest[i] == '.' && rest[i + 1] == '.'
                        && rest[i + 2] == '.';
                assert(s[i + n] == '.' && s[i + n + 1] == '.' && s[i + n + 2] == '.');
            }
        }
        assert forall|i: int| 0 <= i < rest.len() implies #[trigger] rest[i] == '.'
            || channel::plain_char(rest[i]) by {
            assert(rest[i] == s[i + n]);
        }
        lemma_paired_dots(rest);
        assert(whole =~= seq![s[0]] + tail);
        assert forall|i: int| 0 <= i < whole.len() - 1 && #[trigger] whole[i] == '.' implies whole[i
            + 1] != '.' by {
            if i > 0 {
                assert(whole[i] == tail[i - 1]);
            }
        }
        assert forall|i: int| 0 <= i < whole.len() implies #[trigger] whole[i] == '.'
            || channel::plain_char(whole[i]) by {
            if i > 0 {
                assert(whole[i] == tail[i - 1]);
            } else {
                assert(s[0] == '.' || channel::plain_char(s[0]));
            }
        }
    } else {
        assert(s[0] == '.' || channel::plain_char(s[0]));
    }
}

/// A resource that names more than separators, and never three of them in a row,
/// goes to a valid channel whose first token is `teams`.
pub proof fn resource_channels_are_valid(resource: Seq<char>)
    requires
        exists|i: int| 0 <= i < resource.len() && resource_char(#[trigger] resource[i]) != '.',
        !has_triple_dot(resource_chars(resource)),
    ensures
        channel::valid_channel("teams."@ + resource_text(resource)),
        channel::tokens("teams."@ + resource_text(resource))[0] == "teams"@,
{
    let chars = resource_chars(resource);
    let (from, to) = text::stripped_is_inner_part(chars, '.');
    let inner = chars.subrange(from, to);
    let k = choose|i: int| 0 <= i < resource.len() && resource_char(#[trigger] resource[i]) != '.';
    assert(chars[k] != '.');
    assert(!has_triple_dot(inner)) by {
        if has_triple_dot(inner) {
            let i = choose|i: int|
                0 <= i < inner.len() - 2 && #[trigger] inner[i] == '.' && inner[i + 1] == '.'
                    && inner[i + 2] == '.';
            assert(chars[from + i] == '.' && chars[from + i + 1] == '.' && chars[from + i + 2]
                == '.');
        }
    }
    assert forall|i: int| 0 <= i < inner.len() implies #[trigger] inner[i] == '.'
        || channel::plain_char(inner[i]) by {
        let c = resource[from + i];
        if 'A' <= c <= 'Z' {
            assert('a' <= text::lower_char(c) <= 'z');
        }
    }
    lemma_paired_dots(inner);
    channel::dotted_text_is_channel(resource_text(resource));
    reveal_strlit("teams");
    reveal_strlit("teams.");
    channel::plain_token_is_channel("teams"@);
    assert("teams."@ =~= "teams"@.push('.'));
    channel::joined_channels_are_channel("teams"@, resource_text(resource));
}

/// Where every notification carries the secret, the answer is 202 and there are
/// exactly as many events as notifications with a resource that is a text: the k-th
/// event is on the channel of the k-th such notification, and has the whole body.
pub proof fn each_resource_gives_an_event(
    items: Seq<json::JsonValue>,
    parsed: json::JsonValue,
    secret: Seq<char>,
    body: Seq<u8>,
    named: Seq<int>,
    resources: Seq<Seq<char>>,
)
    requires
        json::member(parsed, "value"@) == Some(json::JsonValue::Array(items)),
        forall|i: int|
            0 <= i < items.len() ==> json::member(#[trigger] items[i], "clientState"@) == Some(
                json::JsonValue::Text(secret),
            ),
        named.len() == resources.len(),
        forall|k: int|
            0 <= k < named.len() ==> 0 <= #[trigger] named[k] < items.len() && json::member(
                items[named[k]],
                "resource"@,
            ) == Some(json::JsonValue::Text(resources[k])),
        forall|k: int, l: int|
            0 <= k < l < named.len() ==> #[trigger] named[k] < #[trigger] named[l],
        forall|i: int|
            0 <= i < items.len() && !named.contains(i) ==> !(json::member(
                #[trigger] items[i],
                "resource"@,
            ) matches Some(json::JsonValue::Text(_))),
    ensures
        match notified(parsed, secret, body) {
            Ok((reply, events)) => {
                &&& reply.status == 202
                &&& reply.body == "accepted"@
                &&& events.len() == named.len()
                &&& forall|k: int|
                    0 <= k < named.len() ==> (#[trigger] events[k]).channel == "teams."@
                        + resource_text(resources[k]) && events[k].payload_b64
                        == encoding::base64(body)
            },
            Err(_) => false,
        },
{
    assert(notifications(parsed) == items);
    assert forall|i: int| 0 <= i < items.len() implies client_state(#[trigger] items[i])
        == secret by {
        assert(json::member(items[i], "clientState"@) == Some(json::JsonValue::Text(secret)));
    }
    lemma_resource_events(items, body, named, resources);
}

proof fn lemma_resource_events(
    items: Seq<json::JsonValue>,
    body: Seq<u8>,
    named: Seq<int>,
    resources: Seq<Seq<char>>,
)
    requires
        named.len() == resources.len(),
        forall|k: int|
            0 <= k < named.len() ==> 0 <= #[trigger] named[k] < items.len() && json::member(
                items[named[k]],
                "resource"@,
            ) == Some(json::JsonValue::Text(resources[k])),
        forall|k: int, l: int|
            0 <= k < l < named.len() ==> #[trigger] named[k] < #[trigger] named[l],
        forall|i: int|
            0 <= i < items.len() && !named.contains(i) ==> !(json::member(
                #[trigger] items[i],
                "resource"@,
            ) matches Some(json::JsonValue::Text(_))),
    ensures
        resource_events(items, body).len() == named.len(),
        forall|k: int|
            0 <= k < named.len() ==> (#[trigger] resource_events(items, body)[k])
                == ext_kit::event_value("teams."@ + resource_text(resources[k]), body),
    decreases items.len(),
{
    if items.len() == 0 {
        if named.len() > 0 {
            assert(0 <= named[0] < items.len());
        }
    } else {
        let head = items.drop_last();
        let n = items.len() - 1;
        if named.contains(n) {
            let at = named.index_of(n);
            if at < named.len() - 1 {
                assert(named[at] < named[named.len() - 1]);
                assert(0 <= named[named.len() - 1] < items.len());
            }
            let fewer = named.drop_last();
            assert forall|k: int| 0 <= k < fewer.len() implies 0 <= #[trigger] fewer[k] < head.len()
                && json::member(head[fewer[k]], "resource"@) == Some(
                json::JsonValue::Text(resources.drop_last()[k]),
            ) by {
                assert(named[k] < named[named.len() - 1]);
            }
            assert forall|i: int| 0 <= i < head.len() && !fewer.contains(i) implies !(json::member(
                #[trigger] head[i],
                "resource"@,
            ) matches Some(json::JsonValue::Text(_))) by {
                if named.contains(i) {
                    let k = named.index_of(i);
                    assert(fewer[k] == i);
                }
                assert(head[i] == items[i]);
            }
            lemma_resource_events(head, body, fewer, resources.drop_last());
            assert(json::member(items[named[named.len() - 1]], "resource"@) == Some(
                json::JsonValue::Text(resources[named.len() - 1]),
            ));
        } else {
            assert forall|k: int| 0 <= k < named.len() implies 0 <= #[trigger] named[k] < head.len()
                && json::member(head[named[k]], "resource"@) == Some(
                json::JsonValue::Text(resources[k]),
            ) by {
                assert(named.contains(named[k]));
            }
            assert forall|i: int| 0 <= i < head.len() && !named.contains(i) implies !(json::member(
                #[trigger] head[i],
                "resource"@,
            ) matches Some(json::JsonValue::Text(_))) by {
                assert(head[i] == items[i]);
            }
            lemma_resource_events(head, body, named, resources);
            assert(!(json::member(items[n], "resource"@) matches Some(json::JsonValue::Text(_))));
        }
    }
}

/// Separators in a resource are alike: a slash, a dot and a colon give the same
/// channel.
pub proof fn separators_are_alike(a: Seq<char>, b: Seq<char>)
    requires
        a.len() == b.len(),
        forall|i: int|
            0 <= i < a.len() ==> (#[trigger] a[i]) == b[i] || ((a[i] == '/' || a[i] == '.' || a[i]
                == ':') && (b[i] == '/' || b[i] == '.' || b[i] == ':')),
    ensures
        resource_text(a) == resource_text(b),
{
    assert(resource_chars(a) =~= resource_chars(b)) by {
        assert forall|i: int| 0 <= i < a.len() implies resource_chars(a)[i] == resource_chars(
            b,
        )[i] by {
            assert(a[i] == b[i] || a[i] != b[i]);
        }
    }
}

proof fn lemma_pairs_are_single(s: Seq<char>)
    requires
        !channel::has_double_dot(s),
    ensures
        paired_dots(s) == s,
    decreases s.len(),
{
    if s.len() >= 2 {
        if s[0] == '.' && s[1] == '.' {
            assert(s[0] == '.' && s[1] == '.');
        }
        let rest = s.skip(1);
        assert(!channel::has_double_dot(rest)) by {
            if channel::has_double_dot(rest) {
                let i = choose|i: int|
                    0 <= i < rest.len() - 1 && #[trigger] rest[i] == '.' && rest[i + 1] == '.';
                assert(s[i + 1] == '.' && s[i + 1 + 1] == '.');
            }
        }
        lemma_pairs_are_single(rest);
        assert(seq![s[0]] + rest =~= s);
    }
}

proof fn lemma_joined_tokens(pieces: Seq<Seq<char>>)
    requires
        pieces.len() > 0,
        forall|i: int| 0 <= i < pieces.len() ==> ext_kit::is_own_token(#[trigger] pieces[i]),
    ensures
        resource_chars(text::join(pieces, '/')) == text::join(pieces, '.'),
        text::join(pieces, '.').len() > 0,
        text::join(pieces, '.')[0] != '.',
        text::join(pieces, '.').last() != '.',
        !channel::has_double_dot(text::join(pieces, '.')),
    decreases pieces.len(),
{
    let last = pieces[pieces.len() - 1];
    assert(ext_kit::is_own_token(last));
    assert(ext_kit::is_own_token(pieces[0]));
    let dotted = text::join(pieces, '.');
    let slashed = text::join(pieces, '/');
    if pieces.len() == 1 {
        assert(resource_chars(slashed) =~= dotted);
    } else {
        let head = pieces.drop_last();
        assert forall|i: int| 0 <= i < head.len() implies ext_kit::is_own_token(
            #[trigger] head[i],
        ) by {
            assert(head[i] == pieces[i]);
        }
        lemma_joined_tokens(head);
        let before = text::join(head, '.');
        assert(dotted == before.push('.') + last);
        assert(slashed == text::join(head, '/').push('/') + last);
        assert(text::join(head, '/').len() == before.len()) by {
            assert(resource_chars(text::join(head, '/')).len() == before.len());
        }
        assert forall|i: int| 0 <= i < dotted.len() implies resource_chars(slashed)[i]
            == dotted[i] by {
            if i < before.len() {
                assert(slashed[i] == text::join(head, '/')[i]);
                assert(resource_chars(text::join(head, '/'))[i] == before[i]);
            } else if i > before.len() {
                assert(slashed[i] == last[i - before.len() - 1]);
            }
        }
        assert(resource_chars(slashed) =~= dotted);
        assert(dotted[0] == before[0]);
        assert(!channel::has_double_dot(dotted)) by {
            if channel::has_double_dot(dotted) {
                let i = choose|i: int|
                    0 <= i < dotted.len() - 1 && #[trigger] dotted[i] == '.' && dotted[i + 1]
                        == '.';
                let n = before.len() as int;
                if i + 1 < n {
                    assert(before[i] == '.' && before[i + 1] == '.');
                } else if i + 1 == n {
                    assert(before.last() == '.');
                } else if i == n {
                    assert(last[0] == '.');
                } else {
                    assert(last[i - n - 1] == '.');
                }
            }
        }
    }
    if pieces.len() == 1 {
        assert(!channel::has_double_dot(dotted)) by {
            if channel::has_double_dot(dotted) {
                let i = choose|i: int|
                    0 <= i < dotted.len() - 1 && #[trigger] dotted[i] == '.' && dotted[i + 1]
                        == '.';
                assert(last[i] == '.');
            }
        }
    }
}

/// A resource whose pieces are plain tokens gives the channel of those tokens,
/// unchanged and in order.
pub proof fn plain_resources_name_their_channel(pieces: Seq<Seq<char>>)
    requires
        pieces.len() > 0,
        forall|i: int| 0 <= i < pieces.len() ==> ext_kit::is_own_token(#[trigger] pieces[i]),
    ensures
        resource_text(text::join(pieces, '/')) == text::join(pieces, '.'),
{
    lemma_joined_tokens(pieces);
    let dotted = text::join(pieces, '.');
    let (from, to) = text::stripped_is_inner_part(dotted, '.');
    assert(from == 0 && to == dotted.len()) by {
        assert(dotted[0] != '.' && dotted[dotted.len() - 1] != '.');
    }
    assert(dotted.subrange(0, to) =~= dotted);
    lemma_pairs_are_single(dotted);
}

/// A character of a resource goes into the channel as it goes into a token, unless it
/// is a separator.
pub proof fn resource_characters(c: char)
    ensures
        'a' <= c <= 'z' || '0' <= c <= '9' || c == '_' || c == '-' ==> resource_char(c) == c,
        'A' <= c <= 'Z' ==> resource_char(c) as int == c as int + 32,
        c == '/' || c == '.' || c == ':' <==> resource_char(c) == '.',
        !ext_kit::fits(c) && c != '/' && c != '.' && c != ':' ==> resource_char(c) == '-',
{
}

/// A plus sign in a query stands for a space, and a percent sign before what is no
/// hexadecimal digit stands for itself.
pub proof fn signs_in_a_query(before: Seq<u8>, c: u8, after: Seq<u8>)
    requires
        forall|i: int| 0 <= i < before.len() ==> #[trigger] before[i] != 37 && before[i] != 43,
        forall|i: int| 0 <= i < after.len() ==> #[trigger] after[i] != 37 && after[i] != 43,
        encoding::hex_value(c as char) is None,
        c != 37,
        c != 43,
    ensures
        percent_text(before.push(43) + after) == Seq::new(
            before.len(),
            |i: int| before[i] as char,
        ).push(' ') + Seq::new(after.len(), |i: int| after[i] as char),
        percent_text(before.push(37).push(c) + after) == Seq::new(
            before.len(),
            |i: int| before[i] as char,
        ).push('%').push(c as char) + Seq::new(after.len(), |i: int| after[i] as char),
    decreases before.len(),
{
    let plus = before.push(43) + after;
    let percent = before.push(37).push(c) + after;
    let tail = Seq::new(after.len(), |i: int| after[i] as char);
    let head = Seq::new(before.len(), |i: int| before[i] as char);
    if before.len() == 0 {
        unescaped_text_is_kept(after);
        assert(plus.skip(1) =~= after);
        assert(seq![' '] + tail =~= head.push(' ') + tail);
        assert(percent.skip(1) =~= seq![c] + after);
        assert((seq![c] + after).skip(1) =~= after);
        assert(percent_text(percent) == seq!['%'] + percent_text(percent.skip(1)));
        assert(percent_text(seq![c] + after) == seq![c as char] + percent_text(after));
        assert(percent_text(percent) =~= head.push('%').push(c as char) + tail);
    } else {
        let rest = before.skip(1);
        assert forall|i: int| 0 <= i < rest.len() implies #[trigger] rest[i] != 37 && rest[i]
            != 43 by {
            assert(rest[i] == before[i + 1]);
        }
        signs_in_a_query(rest, c, after);
        let less = Seq::new(rest.len(), |i: int| rest[i] as char);
        assert(plus[0] == before[0] && percent[0] == before[0]);
        assert(plus.skip(1) =~= rest.push(43) + after);
        assert(percent.skip(1) =~= rest.push(37).push(c) + after);
        assert(head =~= seq![before[0] as char] + less);
        assert(percent_text(plus) =~= head.push(' ') + tail);
        assert(percent_text(percent) =~= head.push('%').push(c as char) + tail);
    }
}

/// The validation token is the value of the first pair of the query that is called
/// `validationToken`; other pairs do not count, and neither does their order behind it.
pub proof fn the_first_validation_token_counts(
    before: Seq<Seq<char>>,
    value: Seq<char>,
    after: Seq<Seq<char>>,
)
    requires
        !value.contains('&'),
        forall|i: int|
            0 <= i < before.len() ==> !(#[trigger] before[i]).contains('&') && !text::begins(
                before[i],
                "validationToken"@,
            ),
        forall|i: int| 0 <= i < after.len() ==> !(#[trigger] after[i]).contains('&'),
    ensures
        token_in(
            Some(text::join(before.push("validationToken="@ + value) + after, '&')),
        ) == Some(percent_text(vstd::utf8::encode_utf8(value))),
        before.len() > 0 ==> token_in(Some(text::join(before, '&'))) is None,
        token_in(None) is None,
{
    reveal_strlit("validationToken");
    reveal_strlit("validationToken=");
    let key = "validationToken"@;
    let pair = "validationToken="@ + value;
    assert(pair =~= key.push('=') + value);
    let pairs = before.push(pair) + after;
    assert forall|i: int| 0 <= i < pairs.len() implies !(#[trigger] pairs[i]).contains('&') by {
        if i < before.len() {
            assert(pairs[i] == before[i]);
        } else if i > before.len() {
            assert(pairs[i] == after[i - before.len() - 1]);
        } else {
            assert forall|k: int| 0 <= k < pair.len() implies pair[k] != '&' by {
                if k >= 16 {
                    assert(pair[k] == value[k - 16]);
                    assert(value.contains(value[k - 16]));
                }
            }
        }
    }
    text::split_undoes_join(pairs, '&');
    text::separator_parts_a_text(key, value, '=');
    lemma_first_token(before, pair, after, value);
    if before.len() > 0 {
        text::split_undoes_join(before, '&');
        lemma_no_token(before);
    }
}

proof fn lemma_key_begins(pair: Seq<char>)
    requires
        text::until(pair, '=') == "validationToken"@,
    ensures
        text::begins(pair, "validationToken"@),
{
    lemma_until_is_front(pair);
}

proof fn lemma_until_is_front(s: Seq<char>)
    ensures
        text::until(s, '=').len() <= s.len(),
        s.take(text::until(s, '=').len() as int) == text::until(s, '='),
    decreases s.len(),
{
    if s.len() > 0 && s[0] != '=' {
        lemma_until_is_front(s.drop_first());
        let n = text::until(s.drop_first(), '=').len() as int;
        assert(s.take(n + 1) =~= seq![s[0]] + s.drop_first().take(n));
    } else {
        assert(s.take(0) =~= Seq::<char>::empty());
    }
}

proof fn lemma_first_token(
    before: Seq<Seq<char>>,
    pair: Seq<char>,
    after: Seq<Seq<char>>,
    value: Seq<char>,
)
    requires
        forall|i: int|
            0 <= i < before.len() ==> !text::begins(#[trigger] before[i], "validationToken"@),
        text::until(pair, '=') == "validationToken"@,
        text::after(pair, '=') == value,
    ensures
        first_token(before.push(pair) + after) == Some(value),
    decreases before.len(),
{
    let pairs = before.push(pair) + after;
    if before.len() > 0 {
        assert(pairs[0] == before[0]);
        if text::until(before[0], '=') == "validationToken"@ {
            lemma_key_begins(before[0]);
        }
        let rest = before.drop_first();
        assert forall|i: int| 0 <= i < rest.len() implies !text::begins(
            #[trigger] rest[i],
            "validationToken"@,
        ) by {
            assert(rest[i] == before[i + 1]);
        }
        lemma_first_token(rest, pair, after, value);
        assert(pairs.drop_first() =~= rest.push(pair) + after);
    }
}

proof fn lemma_no_token(pairs: Seq<Seq<char>>)
    requires
        forall|i: int|
            0 <= i < pairs.len() ==> !text::begins(#[trigger] pairs[i], "validationToken"@),
    ensures
        first_token(pairs) is None,
    decreases pairs.len(),
{
    if pairs.len() > 0 {
        if text::until(pairs[0], '=') == "validationToken"@ {
            lemma_key_begins(pairs[0]);
        }
        let rest = pairs.drop_first();
        assert forall|i: int| 0 <= i < rest.len() implies !text::begins(
            #[trigger] rest[i],
            "validationToken"@,
        ) by {
            assert(rest[i] == pairs[i + 1]);
        }
        lemma_no_token(rest);
    }
}

/// A validation request, which is one by GET or POST in any case with a validation
/// token, is answered with 200, the token as plain text and no event. By any other
/// method the token does not count.
pub proof fn validation_answers(
    method: Seq<char>,
    query: Option<Seq<char>>,
    body: Seq<u8>,
    secret: Option<Seq<char>>,
    token: Seq<char>,
)
    requires
        token_in(query) == Some(token),
    ensures
        ext_kit::same_but_for_case(method, "get"@) || ext_kit::same_but_for_case(method, "post"@)
            ==> match teams_answer(method, query, encoding::base64(body), secret) {
            Ok((reply, events)) => {
                &&& reply.status == 200
                &&& reply.body == token
                &&& reply.headers == Map::empty().insert("content-type"@, "text/plain"@)
                &&& events.len() == 0
            },
            Err(_) => false,
        },
        !ext_kit::same_but_for_case(method, "get"@) && !ext_kit::same_but_for_case(
            method,
            "post"@,
        ) ==> teams_answer(method, query, encoding::base64(body), secret) == teams_answer(
            method,
            None,
            encoding::base64(body),
            secret,
        ),
{
    ext_kit::lemma_same_but_for_case(method, "get"@);
    ext_kit::lemma_same_but_for_case(method, "post"@);
    reveal_strlit("get");
    reveal_strlit("post");
    assert(text::lower("get"@) =~= "get"@);
    assert(text::lower("post"@) =~= "post"@);
}

/// Notifications are refused as a whole where one carries another text than the secret,
/// or none while the secret is not empty; a request without a secret, or with a body
/// that is no document, is refused too. Nothing is then emitted.
pub proof fn notifications_need_the_secret(
    method: Seq<char>,
    body: Seq<u8>,
    parsed: json::JsonValue,
    items: Seq<json::JsonValue>,
    secret: Seq<char>,
    i: int,
)
    requires
        json::document(body) == Some(parsed),
        json::member(parsed, "value"@) == Some(json::JsonValue::Array(items)),
        0 <= i < items.len(),
        match json::member(items[i], "clientState"@) {
            Some(json::JsonValue::Text(given)) => given != secret,
            _ => secret.len() > 0,
        },
    ensures
        match teams_answer(method, None, encoding::base64(body), Some(secret)) {
            Ok((reply, events)) => reply.status == 401 && reply.body == "invalid clientState"@
                && events.len() == 0,
            Err(_) => false,
        },
        match teams_answer(method, None, encoding::base64(body), None) {
            Ok((reply, events)) => reply.status == 401 && reply.body
                == "missing clientState secret"@ && events.len() == 0,
            Err(_) => false,
        },
{
    ext_kit::decoded_undoes_base64(body);
    assert(notifications(parsed) == items);
    assert(client_state(items[i]) != secret);
}

/// A body that is no base64, or no document, is an error; a document without a list of
/// notifications has none, which are all accepted.
pub proof fn bodies_without_notifications(
    method: Seq<char>,
    body: Seq<u8>,
    parsed: json::JsonValue,
    secret: Seq<char>,
)
    ensures
        json::document(body) is None ==> teams_answer(
            method,
            None,
            encoding::base64(body),
            Some(secret),
        ) == Err::<(messages::ReplyValue, Seq<messages::EventValue>), ExtError>(
            ExtError::TeamsJson,
        ),
        json::document(body) == Some(parsed) && !(json::member(parsed, "value"@) matches Some(
            json::JsonValue::Array(_),
        )) ==> match teams_answer(method, None, encoding::base64(body), Some(secret)) {
            Ok((reply, events)) => reply.status == 202 && events.len() == 0,
            Err(_) => false,
        },
{
    ext_kit::decoded_undoes_base64(body);
}

} // verus!
