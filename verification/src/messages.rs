//! The messages that the router exchanges with extensions, subscribers and the
//! control client.

use vstd::prelude::*;
use vstd::string::*;

use crate::ids;
use crate::json::Json;
use crate::string_map;
use crate::string_map::StringMap;
use crate::text;

verus! {

/// The version of the protocol between the router and its extensions.
pub const PROTOCOL_VERSION: u32 = 1;

/// How urgent a log line of an extension is.
#[derive(Clone, Copy, Debug, PartialEq, Eq, Structural)]
pub enum LogLevel {
    Trace,
    Debug,
    Info,
    Warn,
    Error,
}

/// An event on a channel, with its payload in base64.
#[derive(Debug, PartialEq, Eq)]
pub struct Event {
    pub channel: String,
    pub payload_b64: String,
}

/// The value of an [`Event`].
pub struct EventValue {
    pub channel: Seq<char>,
    pub payload_b64: Seq<char>,
}

impl View for Event {
    type V = EventValue;

    open spec fn view(&self) -> EventValue {
        EventValue { channel: self.channel@, payload_b64: self.payload_b64@ }
    }
}

impl Clone for Event {
    fn clone(&self) -> (copy: Self)
        ensures
            copy@ == self@,
    {
        Event { channel: self.channel.clone(), payload_b64: self.payload_b64.clone() }
    }
}

/// The values of a list of events.
pub open spec fn event_values(events: Seq<Event>) -> Seq<EventValue> {
    Seq::new(events.len(), |i: int| events[i]@)
}

/// The HTTP answer that an extension gives to a webhook.
pub struct HttpReply {
    pub status: u16,
    pub headers: StringMap<String>,
    pub body: String,
}

/// The value of an [`HttpReply`].
pub struct ReplyValue {
    pub status: u16,
    pub headers: Map<Seq<char>, Seq<char>>,
    pub body: Seq<char>,
}

impl View for HttpReply {
    type V = ReplyValue;

    open spec fn view(&self) -> ReplyValue {
        ReplyValue {
            status: self.status,
            headers: string_map::text_map(self.headers@),
            body: self.body@,
        }
    }
}

impl Clone for HttpReply {
    fn clone(&self) -> (copy: Self)
        ensures
            copy@ == self@,
    {
        HttpReply {
            status: self.status,
            headers: string_map::clone_text_map(&self.headers),
            body: self.body.clone(),
        }
    }
}

/// A message of an extension.
pub enum ExtMsg {
    Register {
        protocol: u32,
        id: Option<String>,
        paths: Vec<String>,
        channels: Vec<String>,
        meta: Json,
    },
    Result { req_id: u128, http: HttpReply, events: Vec<Event> },
    Event { ev: Event },
    Log { level: LogLevel, msg: String },
}

/// A message to an extension.
pub enum SrvMsg {
    Dispatch {
        req_id: u128,
        method: String,
        path: String,
        query: Option<String>,
        headers: StringMap<String>,
        body_b64: String,
        secret: Option<String>,
    },
    Shutdown,
}

/// An optional text as it is shown.
pub open spec fn shown_option(value: Option<Seq<char>>) -> Seq<char> {
    match value {
        Some(s) => "Some("@ + text::shown_quoted(s) + ")"@,
        None => "None"@,
    }
}

/// A secret as it is shown: no more than that there is one.
pub open spec fn shown_secret(secret: Option<Seq<char>>) -> Seq<char> {
    match secret {
        Some(_) => shown_option(Some("<redacted>"@)),
        None => "None"@,
    }
}

/// The first `n` headers as they are shown.
pub open spec fn shown_headers(
    keys: Seq<Seq<char>>,
    headers: Map<Seq<char>, Seq<char>>,
    n: nat,
) -> Seq<char>
    decreases n,
{
    if n == 0 {
        Seq::empty()
    } else {
        let before = shown_headers(keys, headers, (n - 1) as nat);
        let lead = if n == 1 {
            before
        } else {
            before + ", "@
        };
        lead + text::shown_quoted(keys[n - 1]) + ": "@ + text::shown_quoted(headers[keys[n - 1]])
    }
}

/// A message to an extension as it is shown: of a secret no more than that there
/// is one.
pub open spec fn shown_message(msg: SrvMsg) -> Seq<char> {
    match msg {
        SrvMsg::Shutdown => "Shutdown"@,
        SrvMsg::Dispatch { req_id, method, path, query, headers, body_b64, secret } => {
            "Dispatch { req_id: "@ + ids::id_chars(req_id) + ", method: "@ + text::shown_quoted(method@)
                + ", path: "@ + text::shown_quoted(path@) + ", query: "@ + shown_option(
                text::optional(query),
            ) + ", headers: {"@ + shown_headers(
                headers.key_seq(),
                string_map::text_map(headers@),
                headers.key_seq().len(),
            ) + "}, body_b64: "@ + text::shown_quoted(body_b64@) + ", secret: "@ + shown_secret(
                text::optional(secret),
            ) + " }"@
        },
    }
}

/// Shows an optional text.
fn show_option(value: &Option<String>) -> (shown: String)
    ensures
        shown@ == shown_option(text::optional(*value)),
{
    match value {
        Some(s) => {
            let mut shown: String = "Some(".to_owned();
            shown.append(text::quote(s.as_str()).as_str());
            shown.append(")");
            shown
        },
        None => "None".to_owned(),
    }
}

/// Shows headers.
fn show_headers(headers: &StringMap<String>) -> (shown: String)
    ensures
        shown@ == shown_headers(
            headers.key_seq(),
            string_map::text_map(headers@),
            headers.key_seq().len(),
        ),
{
    let n: usize = headers.len();
    let ghost keys = headers.key_seq();
    let ghost values = string_map::text_map(headers@);
    let mut shown: String = String::new();
    let mut i: usize = 0;
    assert(shown@ =~= shown_headers(keys, values, 0));
    while i < n
        invariant
            i <= n == keys.len(),
            keys == headers.key_seq(),
            headers.keys_agree(),
            values == string_map::text_map(headers@),
            shown@ == shown_headers(keys, values, i as nat),
        decreases n - i,
    {
        if i > 0 {
            shown.append(", ");
        }
        let key: &String = headers.key_at(i);
        let value: &String = headers.value_at(i);
        assert(values[key@] == value@);
        shown.append(text::quote(key.as_str()).as_str());
        shown.append(": ");
        shown.append(text::quote(value.as_str()).as_str());
        i += 1;
    }
    shown
}

impl SrvMsg {
    /// The message as it is shown in logs, without the secret.
    pub fn debug_text(&self) -> (shown: String)
        ensures
            shown@ == shown_message(*self),
    {
        match self {
            SrvMsg::Shutdown => "Shutdown".to_owned(),
            SrvMsg::Dispatch { req_id, method, path, query, headers, body_b64, secret } => {
                let mut shown: String = "Dispatch { req_id: ".to_owned();
                shown.append(ids::id_text(*req_id).as_str());
                shown.append(", method: ");
                shown.append(text::quote(method.as_str()).as_str());
                shown.append(", path: ");
                shown.append(text::quote(path.as_str()).as_str());
                shown.append(", query: ");
                shown.append(show_option(query).as_str());
                shown.append(", headers: {");
                shown.append(show_headers(headers).as_str());
                shown.append("}, body_b64: ");
                shown.append(text::quote(body_b64.as_str()).as_str());
                shown.append(", secret: ");
                let redacted: Option<String> = match secret {
                    Some(_) => Some("<redacted>".to_owned()),
                    None => None,
                };
                shown.append(show_option(&redacted).as_str());
                shown.append(" }");
                shown
            },
        }
    }
}

/// What is shown of a message does not depend on what its secret is: two messages
/// that differ in their secrets alone are shown alike, with a mark in place of the
/// secret.
pub proof fn secret_is_not_shown(
    req_id: u128,
    method: String,
    path: String,
    query: Option<String>,
    headers: StringMap<String>,
    body_b64: String,
    one: String,
    other: String,
)
    ensures
        shown_message(
            SrvMsg::Dispatch { req_id, method, path, query, headers, body_b64, secret: Some(one) },
        ) == shown_message(
            SrvMsg::Dispatch { req_id, method, path, query, headers, body_b64, secret: Some(other) },
        ),
        shown_secret(Some(one@)) == "Some(\"<redacted>\")"@,
{
    reveal_strlit("Some(");
    reveal_strlit("<redacted>");
    reveal_strlit(")");
    reveal_strlit("Some(\"<redacted>\")");
    assert(text::is_plain("<redacted>"@));
    assert(shown_secret(Some(one@)) =~= "Some(\"<redacted>\")"@);
}

/// The request to have the stored events after a sequence number sent again.
#[derive(Clone, Copy, Debug, PartialEq, Eq, Structural)]
pub struct ReplayRequest {
    pub after_seq: u64,
}

/// A message of a subscriber.
#[derive(Debug, PartialEq, Eq)]
pub enum SubClientMsg {
    Subscribe { patterns: Vec<String>, replay: Option<ReplayRequest> },
    Unsubscribe { patterns: Vec<String> },
    Ping,
}

/// A message to a subscriber.
#[derive(Debug, PartialEq, Eq)]
pub enum SubServerMsg {
    Welcome { name: String },
    Acked { op: String },
    Error { op: String, msg: String },
    Event { id: u128, seq: u64, ts_ms: u64, channel: String, payload_b64: String },
    Replayed { through_seq: u64 },
    ReplayGap { from_seq: u64, earliest_seq: u64 },
    Lagged { dropped: u64 },
    Pong,
    Closing { reason: ClosingReason },
}

/// The value of a [`SubServerMsg`].
pub enum SubServerValue {
    Welcome { name: Seq<char> },
    Acked { op: Seq<char> },
    Error { op: Seq<char>, msg: Seq<char> },
    Event { id: u128, seq: u64, ts_ms: u64, channel: Seq<char>, payload_b64: Seq<char> },
    Replayed { through_seq: u64 },
    ReplayGap { from_seq: u64, earliest_seq: u64 },
    Lagged { dropped: u64 },
    Pong,
    Closing { reason: ClosingReason },
}

impl View for SubServerMsg {
    type V = SubServerValue;

    open spec fn view(&self) -> SubServerValue {
        match *self {
            SubServerMsg::Welcome { name } => SubServerValue::Welcome { name: name@ },
            SubServerMsg::Acked { op } => SubServerValue::Acked { op: op@ },
            SubServerMsg::Error { op, msg } => SubServerValue::Error { op: op@, msg: msg@ },
            SubServerMsg::Event { id, seq, ts_ms, channel, payload_b64 } => SubServerValue::Event {
                id,
                seq,
                ts_ms,
                channel: channel@,
                payload_b64: payload_b64@,
            },
            SubServerMsg::Replayed { through_seq } => SubServerValue::Replayed { through_seq },
            SubServerMsg::ReplayGap { from_seq, earliest_seq } => SubServerValue::ReplayGap {
                from_seq,
                earliest_seq,
            },
            SubServerMsg::Lagged { dropped } => SubServerValue::Lagged { dropped },
            SubServerMsg::Pong => SubServerValue::Pong,
            SubServerMsg::Closing { reason } => SubServerValue::Closing { reason },
        }
    }
}

/// The values of a list of messages to a subscriber.
pub open spec fn server_values(msgs: Seq<SubServerMsg>) -> Seq<SubServerValue> {
    Seq::new(msgs.len(), |i: int| msgs[i]@)
}

/// Why the router closes the connection of a subscriber.
#[derive(Clone, Copy, Debug, PartialEq, Eq, Structural)]
pub enum ClosingReason {
    Shutdown,
    Revoked,
}

/// A request on the control socket.
#[derive(Debug, PartialEq, Eq)]
pub enum ControlRequest {
    Status,
    TokenAdd { name: String },
    TokenRotate { name: String },
    TokenRevoke { name: String },
    TokenList,
}

/// An answer on the control socket.
#[derive(Debug)]
pub enum ControlResponse {
    Status { status: Json },
    Token { name: String, token: String },
    Tokens { tokens: Vec<TokenSummary> },
    Done,
    Error { msg: String },
}

/// What is shown of a token.
#[derive(Debug, PartialEq, Eq)]
pub struct TokenSummary {
    pub name: String,
    pub fingerprint: String,
    pub created: String,
    pub active_conns: usize,
}

/// What is absent is shown as `None`, what is there between brackets, a secret as no more
/// than that there is one, and headers with a comma between each two.
pub proof fn values_are_shown(
    s: Seq<char>,
    keys: Seq<Seq<char>>,
    headers: Map<Seq<char>, Seq<char>>,
    n: nat,
)
    ensures
        shown_option(None) == "None"@,
        shown_option(Some(s)) == "Some("@ + text::shown_quoted(s) + ")"@,
        shown_secret(None) == "None"@,
        shown_secret(Some(s)) == "Some("@ + text::shown_quoted("<redacted>"@) + ")"@,
        shown_headers(keys, headers, 0).len() == 0,
        shown_headers(keys, headers, 1) == text::shown_quoted(keys[0]) + ": "@
            + text::shown_quoted(headers[keys[0]]),
        n > 0 ==> shown_headers(keys, headers, n + 1) == shown_headers(keys, headers, n) + ", "@
            + text::shown_quoted(keys[n as int]) + ": "@ + text::shown_quoted(
            headers[keys[n as int]],
        ),
{
    assert(shown_headers(keys, headers, 0) == Seq::<char>::empty());
    assert(shown_headers(keys, headers, 1) =~= text::shown_quoted(keys[0]) + ": "@
        + text::shown_quoted(headers[keys[0]]));
}

/// A request to an extension is shown with each of its parts behind its name.
pub proof fn requests_are_shown_part_by_part(
    req_id: u128,
    method: String,
    path: String,
    query: Option<String>,
    headers: StringMap<String>,
    body_b64: String,
    secret: Option<String>,
)
    ensures
        shown_message(SrvMsg::Dispatch { req_id, method, path, query, headers, body_b64, secret })
            == "Dispatch { req_id: "@ + ids::id_chars(req_id) + ", method: "@ + text::shown_quoted(
            method@,
        ) + ", path: "@ + text::shown_quoted(path@) + ", query: "@ + shown_option(
            text::optional(query),
        ) + ", headers: {"@ + shown_headers(
            headers.key_seq(),
            string_map::text_map(headers@),
            headers.key_seq().len(),
        ) + "}, body_b64: "@ + text::shown_quoted(body_b64@) + ", secret: "@ + shown_secret(
            text::optional(secret),
        ) + " }"@,
        shown_message(SrvMsg::Shutdown) == "Shutdown"@,
{
}

} // verus!
