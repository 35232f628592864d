//! What extensions are built from: decoding a dispatch, finding a header,
//! answering, and signing.

use vstd::prelude::*;
use vstd::string::*;

use crate::channel;
use crate::digest;
use crate::encoding;
use crate::json::Json;
use crate::messages;
use crate::messages::{Event, ExtMsg, HttpReply, PROTOCOL_VERSION, SrvMsg};
use crate::string_map;
use crate::string_map::StringMap;
use crate::text;

verus! {

/// Why an extension cannot answer a dispatch at all.
#[derive(Clone, Copy, Debug, PartialEq, Eq, Structural)]
pub enum ExtError {
    InvalidBase64,
    GithubJson,
    TeamsJson,
}

/// The sentence that reports an error.
pub open spec fn error_message(error: ExtError) -> Seq<char> {
    match error {
        ExtError::InvalidBase64 => "dispatch body is not valid base64"@,
        ExtError::GithubJson => "parse github webhook json"@,
        ExtError::TeamsJson => "parse teams notification json"@,
    }
}

impl ExtError {
    /// The sentence that reports this error.
    pub fn message(&self) -> (msg: String)
        ensures
            msg@ == error_message(*self),
    {
        match self {
            ExtError::InvalidBase64 => "dispatch body is not valid base64".to_owned(),
            ExtError::GithubJson => "parse github webhook json".to_owned(),
            ExtError::TeamsJson => "parse teams notification json".to_owned(),
        }
    }
}

/// The bytes that a text in base64 stands for; nothing for what is no base64.
pub open spec fn decoded(body_b64: Seq<char>) -> Option<Seq<u8>> {
    if exists|bytes: Seq<u8>| #[trigger] encoding::base64(bytes) == body_b64 {
        Some(choose|bytes: Seq<u8>| #[trigger] encoding::base64(bytes) == body_b64)
    } else {
        None
    }
}

/// Decoding gives back the bytes that were encoded.
pub proof fn decoded_undoes_base64(bytes: Seq<u8>)
    ensures
        decoded(encoding::base64(bytes)) == Some(bytes),
{
    let found = choose|any: Seq<u8>| #[trigger]
        encoding::base64(any) == encoding::base64(bytes);
    assert(encoding::base64(found) == encoding::base64(bytes));
    encoding::base64_is_injective(found, bytes);
}

/// The body of a dispatch.
pub fn decode_body_b64(body_b64: &str) -> (r: Result<Vec<u8>, ExtError>)
    ensures
        match r {
            Ok(body) => decoded(body_b64@) == Some(body@),
            Err(e) => decoded(body_b64@) is None && e == ExtError::InvalidBase64,
        },
{
    match encoding::decode_base64(body_b64) {
        Some(body) => {
            proof {
                decoded_undoes_base64(body@);
            }
            Ok(body)
        },
        None => Err(ExtError::InvalidBase64),
    }
}

/// An answer with a text and no headers.
pub open spec fn text_reply_value(status: u16, body: Seq<char>) -> messages::ReplyValue {
    messages::ReplyValue { status, headers: Map::empty(), body }
}

/// An answer with a text and no headers.
pub fn text_reply(status: u16, body: String) -> (reply: HttpReply)
    ensures
        reply@ == text_reply_value(status, body@),
{
    let headers: StringMap<String> = StringMap::new();
    assert(string_map::text_map(headers@) =~= Map::<Seq<char>, Seq<char>>::empty());
    HttpReply { status, headers, body }
}

/// Whether `key` is the first header, in the order of names, that is called
/// `name` in any case.
pub open spec fn is_header(
    headers: Map<Seq<char>, Seq<char>>,
    name: Seq<char>,
    key: Seq<char>,
) -> bool {
    &&& headers.contains_key(key)
    &&& text::lower(key) == text::lower(name)
    &&& forall|other: Seq<char>| #[trigger]
        headers.contains_key(other) && text::lower(other) == text::lower(name) ==> other == key
            || text::lex_lt(key, other)
}

/// The value of a header, whatever the case of its name.
pub open spec fn header_of(
    headers: Map<Seq<char>, Seq<char>>,
    name: Seq<char>,
) -> Option<Seq<char>> {
    if exists|key: Seq<char>| is_header(headers, name, key) {
        Some(headers[choose|key: Seq<char>| is_header(headers, name, key)])
    } else {
        None
    }
}

/// A header is found under its name in any case; where two headers differ in case
/// alone, the first in the order of names counts.
pub proof fn header_is_found(
    headers: Map<Seq<char>, Seq<char>>,
    name: Seq<char>,
    key: Seq<char>,
)
    requires
        is_header(headers, name, key),
    ensures
        header_of(headers, name) == Some(headers[key]),
{
    let found = choose|any: Seq<char>| is_header(headers, name, any);
    assert(is_header(headers, name, found));
    if found != key {
        assert(headers.contains_key(found) && headers.contains_key(key));
        text::lex_lt_transitive(key, found, key);
        text::lex_lt_irreflexive(key);
    }
}

/// The value of a header, whatever the case of its name.
pub fn header_value<'a>(headers: &'a StringMap<String>, name: &str) -> (value: Option<&'a str>)
    ensures
        match value {
            Some(v) => header_of(string_map::text_map(headers@), name@) == Some(v@),
            None => header_of(string_map::text_map(headers@), name@) is None,
        },
{
    let wanted: String = text::to_lower(name);
    let n: usize = headers.len();
    let ghost keys = headers.key_seq();
    let ghost values = string_map::text_map(headers@);
    let mut i: usize = 0;
    while i < n
        invariant
            i <= n == keys.len(),
            keys == headers.key_seq(),
            headers.keys_agree(),
            values == string_map::text_map(headers@),
            wanted@ == text::lower(name@),
            forall|j: int| 0 <= j < i ==> text::lower(#[trigger] keys[j]) != wanted@,
        decreases n - i,
    {
        let key: &String = headers.key_at(i);
        let lowered: String = text::to_lower(key.as_str());
        if text::same_text(lowered.as_str(), wanted.as_str()) {
            let value: &String = headers.value_at(i);
            proof {
                assert forall|other: Seq<char>| #[trigger]
                    values.contains_key(other) && text::lower(other) == text::lower(
                        name@,
                    ) implies other == key@ || text::lex_lt(key@, other) by {
                    assert(headers@.contains_key(other));
                    let k = keys.index_of(other);
                    assert(keys[k] == other);
                    if k > i {
                        assert(text::lex_lt(keys[i as int], keys[k]));
                    }
                }
                assert(is_header(values, name@, key@));
                header_is_found(values, name@, key@);
            }
            return Some(value.as_str());
        }
        i += 1;
    }
    assert forall|key: Seq<char>| !is_header(values, name@, key) by {
        if values.contains_key(key) {
            assert(headers@.contains_key(key));
            assert(keys[keys.index_of(key)] == key);
        }
    }
    None
}

/// The HMAC of a body under a secret, with SHA-256, in hexadecimal.
pub open spec fn hmac_hex(secret: Seq<char>, body: Seq<u8>) -> Seq<char> {
    encoding::hex(digest::hmac_sha256(vstd::utf8::encode_utf8(secret), body))
}

/// The HMAC of a body under a secret, with SHA-256, in hexadecimal.
pub fn hmac_sha256_hex(secret: &str, body: &[u8]) -> (signature: String)
    ensures
        signature@ == hmac_hex(secret@, body@),
{
    let mac: Vec<u8> = digest::mac_sha256(secret.as_bytes(), body);
    encoding::encode_hex(&mac)
}

/// Compares two texts in a time that does not depend on where they differ.
pub fn same_secret(a: &str, b: &str) -> (same: bool)
    ensures
        same == (a@ == b@),
{
    let left: &[u8] = a.as_bytes();
    let right: &[u8] = b.as_bytes();
    proof {
        vstd::utf8::encode_utf8_decode_utf8(a@);
        vstd::utf8::encode_utf8_decode_utf8(b@);
    }
    digest::same_bytes(left, right)
}

/// The message with which an extension registers.
pub fn register_message(
    id: &str,
    paths: Vec<String>,
    channels: Vec<String>,
    meta: Json,
) -> (msg: ExtMsg)
    ensures
        match msg {
            ExtMsg::Register { protocol, id: given, paths: p, channels: c, meta: m } => {
                &&& protocol == PROTOCOL_VERSION
                &&& given is Some
                &&& given->Some_0@ == id@
                &&& p == paths
                &&& c == channels
                &&& m == meta
            },
            _ => false,
        },
{
    ExtMsg::Register { protocol: PROTOCOL_VERSION, id: Some(id.to_owned()), paths, channels, meta }
}

/// What an extension does with a message of the router.
#[derive(Clone, Copy, Debug, PartialEq, Eq, Structural)]
pub enum ExtStep {
    /// Handle a dispatch and answer under its identifier.
    Handle { req_id: u128 },
    /// Stop.
    Stop,
}

/// Decides what an extension does with a message of the router.
pub fn extension_step(msg: &SrvMsg) -> (step: ExtStep)
    ensures
        step == (match *msg {
            SrvMsg::Dispatch { req_id, .. } => ExtStep::Handle { req_id },
            SrvMsg::Shutdown => ExtStep::Stop,
        }),
{
    match msg {
        SrvMsg::Dispatch { req_id, .. } => ExtStep::Handle { req_id: *req_id },
        SrvMsg::Shutdown => ExtStep::Stop,
    }
}

/// The value of what an extension answers: a reply and the events that it emits,
/// or why there is none.
pub open spec fn answered(
    r: Result<(HttpReply, Vec<Event>), ExtError>,
) -> Result<(messages::ReplyValue, Seq<messages::EventValue>), ExtError> {
    match r {
        Ok((http, events)) => Ok((http@, messages::event_values(events@))),
        Err(e) => Err(e),
    }
}

/// The answer with a text and without events.
pub open spec fn only_text(
    status: u16,
    body: Seq<char>,
) -> Result<(messages::ReplyValue, Seq<messages::EventValue>), ExtError> {
    Ok((text_reply_value(status, body), Seq::empty()))
}

/// Answers with a text and without events.
pub fn just_text(status: u16, body: &str) -> (r: Result<(HttpReply, Vec<Event>), ExtError>)
    ensures
        answered(r) == only_text(status, body@),
{
    let events: Vec<Event> = Vec::new();
    assert(messages::event_values(events@) =~= Seq::empty());
    Ok((text_reply(status, body.to_owned()), events))
}

/// The answer with a text and one event that carries a body.
pub open spec fn text_and_event(
    status: u16,
    text: Seq<char>,
    channel: Seq<char>,
    body: Seq<u8>,
) -> Result<(messages::ReplyValue, Seq<messages::EventValue>), ExtError> {
    Ok((text_reply_value(status, text), seq![event_value(channel, body)]))
}

/// The event on a channel that carries a body.
pub open spec fn event_value(channel: Seq<char>, body: Seq<u8>) -> messages::EventValue {
    messages::EventValue { channel, payload_b64: encoding::base64(body) }
}

/// Answers with a text and one event that carries a body.
pub fn emit_one(status: u16, text: String, channel: String, body: &[u8]) -> (r: Result<
    (HttpReply, Vec<Event>),
    ExtError,
>)
    ensures
        answered(r) == text_and_event(status, text@, channel@, body@),
{
    let mut events: Vec<Event> = Vec::new();
    events.push(Event { channel, payload_b64: encoding::encode_base64(body) });
    assert(messages::event_values(events@) =~= seq![event_value(channel@, body@)]);
    Ok((text_reply(status, text), events))
}

/// The answer to a message that is no dispatch.
pub open spec fn shutdown_answer() -> Result<
    (messages::ReplyValue, Seq<messages::EventValue>),
    ExtError,
> {
    only_text(200, "shutdown ignored"@)
}

/// One character of a channel token: letters in lower case, what does not fit as
/// a hyphen.
pub open spec fn token_char(c: char) -> char {
    if 'a' <= c <= 'z' || '0' <= c <= '9' || c == '_' || c == '-' {
        c
    } else if 'A' <= c <= 'Z' {
        text::lower_char(c)
    } else {
        '-'
    }
}

/// Makes a character of a channel token.
pub fn to_token_char(c: char) -> (r: char)
    ensures
        r == token_char(c),
{
    if ('a' <= c && c <= 'z') || ('0' <= c && c <= '9') || c == '_' || c == '-' {
        c
    } else if 'A' <= c && c <= 'Z' {
        text::to_lower_char(c)
    } else {
        '-'
    }
}

/// A text with the characters of channel tokens alone.
pub open spec fn token_chars(s: Seq<char>) -> Seq<char> {
    Seq::new(s.len(), |i: int| token_char(s[i]))
}

/// A text as a channel token: without the hyphens at its ends, and possibly
/// empty.
pub open spec fn token_of(s: Seq<char>) -> Seq<char> {
    text::stripped_of(token_chars(s), '-')
}

/// Makes a channel token of a text.
pub fn channel_token(input: &str) -> (token: String)
    ensures
        token@ == token_of(input@),
{
    let chars: Vec<char> = text::chars_of(input);
    let mut out: String = String::new();
    let mut i: usize = 0;
    while i < chars.len()
        invariant
            i <= chars@.len(),
            chars@ == input@,
            out@ == token_chars(input@.take(i as int)),
        decreases chars@.len() - i,
    {
        out.push(to_token_char(chars[i]));
        i += 1;
        assert(out@ =~= token_chars(input@.take(i as int)));
    }
    assert(input@.take(i as int) =~= input@);
    text::trim_char(out.as_str(), '-')
}

/// What [`channel_token`] makes of a text is a token of the channel grammar,
/// unless nothing is left of it.
pub proof fn token_is_plain_or_empty(s: Seq<char>)
    ensures
        token_of(s).len() == 0 || channel::plain_token(token_of(s)),
{
    let chars = token_chars(s);
    let plain = |c: char| channel::plain_char(c);
    assert forall|i: int| 0 <= i < chars.len() implies plain(#[trigger] chars[i]) by {
        let c = s[i];
        if 'A' <= c <= 'Z' {
            assert('a' <= text::lower_char(c) <= 'z');
        }
    }
    text::stripping_keeps(chars, '-', plain);
}

/// A text that begins and ends with a letter or a digit gives a token of the same
/// length, character by character: lower-case letters, digits, underscores and hyphens
/// stay, capitals become lower-case letters, and everything else becomes a hyphen.
pub proof fn tokens_are_made_character_by_character(s: Seq<char>)
    requires
        s.len() > 0,
        'a' <= s[0] <= 'z' || 'A' <= s[0] <= 'Z' || '0' <= s[0] <= '9' || s[0] == '_',
        'a' <= s.last() <= 'z' || 'A' <= s.last() <= 'Z' || '0' <= s.last() <= '9' || s.last()
            == '_',
    ensures
        token_of(s).len() == s.len(),
        forall|i: int|
            0 <= i < s.len() ==> {
                let c = #[trigger] s[i];
                let t = token_of(s)[i];
                if 'a' <= c <= 'z' || '0' <= c <= '9' || c == '_' || c == '-' {
                    t == c
                } else if 'A' <= c <= 'Z' {
                    t as int == c as int + 32
                } else {
                    t == '-'
                }
            },
{
    let chars = token_chars(s);
    let (from, to) = text::stripped_is_inner_part(chars, '-');
    assert(chars[0] != '-') by {
        assert(chars[0] == token_char(s[0]));
    }
    assert(chars[chars.len() - 1] != '-') by {
        assert(chars[chars.len() - 1] == token_char(s.last()));
    }
    assert(from == 0 && to == s.len());
    assert(chars.subrange(0, s.len() as int) =~= chars);
    assert forall|i: int| 0 <= i < s.len() implies token_of(s)[i] == token_char(
        #[trigger] s[i],
    ) by {}
}

/// A plain token that neither begins nor ends with a hyphen is its own token.
pub proof fn plain_token_is_kept(s: Seq<char>)
    requires
        s.len() == 0 || (s[0] != '-' && s.last() != '-'),
        forall|i: int|
            0 <= i < s.len() ==> 'a' <= (#[trigger] s[i]) <= 'z' || '0' <= s[i] <= '9' || s[i]
                == '_' || s[i] == '-',
    ensures
        token_of(s) == s,
{
    if s.len() > 0 {
        tokens_are_made_character_by_character(s);
        assert(token_of(s) =~= s);
    } else {
        assert(token_chars(s) =~= s);
        let (from, to) = text::stripped_is_inner_part(token_chars(s), '-');
        assert(token_of(s) =~= s);
    }
}

proof fn lemma_inner_part(chars: Seq<char>, n: int, m: int)
    requires
        0 <= n <= m <= chars.len(),
        forall|i: int| 0 <= i < n ==> #[trigger] chars[i] == '-',
        forall|i: int| m <= i < chars.len() ==> #[trigger] chars[i] == '-',
        n < m ==> chars[n] != '-' && chars[m - 1] != '-',
    ensures
        text::stripped_of(chars, '-') == chars.subrange(n, m),
{
    let (from, to) = text::stripped_is_inner_part(chars, '-');
    if n < m {
        assert(from <= n && m <= to);
        assert(chars[from] != '-' && chars[to - 1] != '-');
    } else {
        if from < to {
            assert(chars[from] == '-');
        }
        assert(chars.subrange(from, to) =~= chars.subrange(n, m));
    }
}

/// What stands around a text and fits into no token does not change its token; and
/// nothing is left of a text of which no character fits.
pub proof fn edges_do_not_count(before: Seq<char>, s: Seq<char>, after: Seq<char>)
    requires
        forall|i: int| 0 <= i < before.len() ==> !fits(#[trigger] before[i]),
        forall|i: int| 0 <= i < after.len() ==> !fits(#[trigger] after[i]),
        s.len() > 0 ==> fits(s[0]) && fits(s.last()),
    ensures
        token_of(before + s + after) == token_of(s),
        s.len() == 0 ==> token_of(before + s + after).len() == 0,
{
    let whole = before + s + after;
    let chars = token_chars(whole);
    let n = before.len() as int;
    let m = n + s.len();
    assert forall|i: int| 0 <= i < n implies #[trigger] chars[i] == '-' by {
        assert(whole[i] == before[i]);
    }
    assert forall|i: int| m <= i < chars.len() implies #[trigger] chars[i] == '-' by {
        assert(whole[i] == after[i - m]);
    }
    let inner = token_chars(s);
    if s.len() > 0 {
        assert(whole[n] == s[0] && whole[m - 1] == s.last());
        assert(inner[0] == chars[n] && inner[inner.len() - 1] == chars[m - 1]);
    }
    lemma_inner_part(chars, n, m);
    lemma_inner_part(inner, 0, inner.len() as int);
    assert(chars.subrange(n, m) =~= inner.subrange(0, inner.len() as int)) by {
        assert forall|i: int| 0 <= i < s.len() implies chars[n + i] == inner[i] by {
            assert(whole[n + i] == s[i]);
        }
    }
}

/// Whether a character can begin or end a token: a letter, a digit or an underscore.
pub open spec fn fits(c: char) -> bool {
    'a' <= c <= 'z' || 'A' <= c <= 'Z' || '0' <= c <= '9' || c == '_'
}

/// A header is found under its name in any case, where no other header has that name;
/// and nothing is found where no header has it.
pub proof fn header_is_found_in_any_case(
    headers: Map<Seq<char>, Seq<char>>,
    name: Seq<char>,
    key: Seq<char>,
)
    requires
        headers.contains_key(key),
        same_but_for_case(key, name),
        forall|other: Seq<char>| #[trigger]
            headers.contains_key(other) && same_but_for_case(other, name) ==> other == key,
    ensures
        header_of(headers, name) == Some(headers[key]),
        header_of(headers.remove(key), name) is None,
{
    lemma_same_but_for_case(key, name);
    assert forall|other: Seq<char>| #[trigger]
        headers.contains_key(other) && text::lower(other) == text::lower(name) implies other
        == key by {
        lemma_same_but_for_case(other, name);
    }
    assert(is_header(headers, name, key));
    header_is_found(headers, name, key);
    let rest = headers.remove(key);
    assert forall|other: Seq<char>| !is_header(rest, name, other) by {
        if rest.contains_key(other) && text::lower(other) == text::lower(name) {
            assert(headers.contains_key(other));
        }
    }
}

/// Whether two texts differ at most in the case of ASCII letters.
pub open spec fn same_but_for_case(a: Seq<char>, b: Seq<char>) -> bool {
    a.len() == b.len() && forall|i: int|
        0 <= i < a.len() ==> (#[trigger] a[i]) == b[i] || ('A' <= a[i] <= 'Z' && b[i] as int
            == a[i] as int + 32) || ('a' <= a[i] <= 'z' && a[i] as int == b[i] as int + 32)
}

pub proof fn lemma_same_but_for_case(a: Seq<char>, b: Seq<char>)
    ensures
        same_but_for_case(a, b) <==> text::lower(a) == text::lower(b),
{
    if same_but_for_case(a, b) {
        assert forall|i: int| 0 <= i < a.len() implies text::lower(a)[i] == text::lower(b)[i] by {
            assert(a[i] == b[i] || a[i] != b[i]);
        }
        assert(text::lower(a) =~= text::lower(b));
    }
    if text::lower(a) == text::lower(b) {
        assert(text::lower(a).len() == a.len() && text::lower(b).len() == b.len());
        assert forall|i: int| 0 <= i < a.len() implies (#[trigger] a[i]) == b[i] || ('A' <= a[i]
            <= 'Z' && b[i] as int == a[i] as int + 32) || ('a' <= a[i] <= 'z' && a[i] as int
            == b[i] as int + 32) by {
            assert(text::lower(a)[i] == text::lower(b)[i]);
        }
    }
}

/// Whether a text is a plain token that neither begins nor ends with a hyphen.
pub open spec fn is_own_token(s: Seq<char>) -> bool {
    &&& s.len() > 0
    &&& s[0] != '-'
    &&& s.last() != '-'
    &&& forall|i: int|
        0 <= i < s.len() ==> 'a' <= (#[trigger] s[i]) <= 'z' || '0' <= s[i] <= '9' || s[i] == '_'
            || s[i] == '-'
}

/// Answers are what they say: a status, a text, no headers, and no events, or one event
/// with the whole body.
pub proof fn answers_are_what_they_say(
    status: u16,
    body: Seq<char>,
    name: Seq<char>,
    bytes: Seq<u8>,
)
    ensures
        match only_text(status, body) {
            Ok((reply, events)) => {
                &&& reply.status == status
                &&& reply.body == body
                &&& forall|header: Seq<char>| !reply.headers.contains_key(header)
                &&& events.len() == 0
            },
            Err(_) => false,
        },
        match text_and_event(status, body, name, bytes) {
            Ok((reply, events)) => {
                &&& reply.status == status
                &&& reply.body == body
                &&& forall|header: Seq<char>| !reply.headers.contains_key(header)
                &&& events.len() == 1
                &&& events[0].channel == name
                &&& decoded(events[0].payload_b64) == Some(bytes)
            },
            Err(_) => false,
        },
        match shutdown_answer() {
            Ok((reply, events)) => reply.status == 200 && events.len() == 0,
            Err(_) => false,
        },
{
    decoded_undoes_base64(bytes);
}

/// An answer is taken as it is: its status, its headers, its text, and each event in its
/// place.
pub proof fn answers_are_taken_as_they_are(http: HttpReply, events: Vec<Event>, error: ExtError)
    ensures
        match answered(Ok((http, events))) {
            Ok((reply, taken)) => {
                &&& reply.status == http.status
                &&& forall|name: Seq<char>|
                    #[trigger] reply.headers.contains_key(name) <==> http.headers@.contains_key(name)
                &&& forall|name: Seq<char>|
                    http.headers@.contains_key(name) ==> #[trigger] reply.headers[name]
                        == http.headers@[name]@
                &&& reply.body == http.body@
                &&& taken.len() == events@.len()
                &&& forall|i: int|
                    0 <= i < taken.len() ==> (#[trigger] taken[i]).channel == events@[i].channel@
                        && taken[i].payload_b64 == events@[i].payload_b64@
            },
            Err(_) => false,
        },
        answered(Err(error)) == Err::<(messages::ReplyValue, Seq<messages::EventValue>), ExtError>(
            error,
        ),
{
}

/// An error is reported with what could not be read.
pub proof fn errors_are_reported()
    ensures
        error_message(ExtError::InvalidBase64) == "dispatch body is not valid base64"@,
        error_message(ExtError::GithubJson) == "parse github webhook json"@,
        error_message(ExtError::TeamsJson) == "parse teams notification json"@,
{
}

} // verus!
