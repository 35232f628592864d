//! What a subscriber reads from its connection.

use vstd::prelude::*;

use crate::encoding;
use crate::ext_kit;
use crate::messages::ClosingReason;

verus! {

/// An event as a subscriber gets it.
///
/// The identifier stays the same however often the event is delivered. Events are
/// ordered by their numbers; the time is for information.
#[derive(Debug, PartialEq, Eq)]
pub struct DeliveredEvent {
    pub id: u128,
    pub seq: u64,
    pub ts_ms: u64,
    pub channel: String,
    pub payload_b64: String,
}

/// The value of a [`DeliveredEvent`].
pub struct DeliveredValue {
    pub id: u128,
    pub seq: u64,
    pub ts_ms: u64,
    pub channel: Seq<char>,
    pub payload_b64: Seq<char>,
}

impl View for DeliveredEvent {
    type V = DeliveredValue;

    open spec fn view(&self) -> DeliveredValue {
        DeliveredValue {
            id: self.id,
            seq: self.seq,
            ts_ms: self.ts_ms,
            channel: self.channel@,
            payload_b64: self.payload_b64@,
        }
    }
}

/// The payload of an event is no base64.
#[derive(Clone, Copy, Debug, PartialEq, Eq, Structural)]
pub struct InvalidPayload;

impl DeliveredEvent {
    /// The bytes of the event.
    pub fn payload(&self) -> (r: Result<Vec<u8>, InvalidPayload>)
        ensures
            match r {
                Ok(bytes) => ext_kit::decoded(self.payload_b64@) == Some(bytes@),
                Err(_) => ext_kit::decoded(self.payload_b64@) is None,
            },
    {
        match ext_kit::decode_body_b64(self.payload_b64.as_str()) {
            Ok(bytes) => Ok(bytes),
            Err(_) => Err(InvalidPayload),
        }
    }
}

/// The bytes that an extension emits are the bytes that a subscriber reads.
pub proof fn payload_survives_delivery(event: DeliveredValue, body: Seq<u8>)
    requires
        event.payload_b64 == encoding::base64(body),
    ensures
        ext_kit::decoded(event.payload_b64) == Some(body),
{
    ext_kit::decoded_undoes_base64(body);
}

/// A message of a WebSocket.
#[derive(Debug, PartialEq, Eq)]
pub enum WsMessage {
    Text(String),
    Binary(Vec<u8>),
    Ping(Vec<u8>),
    Pong(Vec<u8>),
    Close,
    Frame,
}

/// What to do with a message of a WebSocket.
#[derive(Debug, PartialEq, Eq)]
pub enum WsAction {
    /// Read the text as a frame.
    Text(String),
    /// Answer a ping with these bytes.
    Pong(Vec<u8>),
    /// The other side has closed the connection.
    Closed,
    /// Read on.
    Ignore,
}

/// Whether an action is the right one for a message.
pub open spec fn fits(message: WsMessage, action: WsAction) -> bool {
    match message {
        WsMessage::Text(text) => action matches WsAction::Text(t) && t@ == text@,
        WsMessage::Ping(payload) => action matches WsAction::Pong(p) && p@ == payload@,
        WsMessage::Close => action is Closed,
        WsMessage::Binary(_) | WsMessage::Pong(_) | WsMessage::Frame => action is Ignore,
    }
}

/// Decides what to do with a message of a WebSocket: a ping is answered with its
/// own bytes.
pub fn classify(message: &WsMessage) -> (action: WsAction)
    ensures
        fits(*message, action),
{
    match message {
        WsMessage::Text(text) => WsAction::Text(text.clone()),
        WsMessage::Ping(payload) => {
            let bytes: Vec<u8> = payload.clone();
            assert(bytes@ =~= payload@);
            WsAction::Pong(bytes)
        },
        WsMessage::Close => WsAction::Closed,
        WsMessage::Binary(_) | WsMessage::Pong(_) | WsMessage::Frame => WsAction::Ignore,
    }
}

/// Whether a subscriber may not come back after it has been told to go: a revoked
/// token stays revoked, while a router that shuts down comes up again.
pub fn closing_is_fatal(reason: &ClosingReason) -> (fatal: bool)
    ensures
        fatal == (*reason == ClosingReason::Revoked),
{
    match reason {
        ClosingReason::Revoked => true,
        ClosingReason::Shutdown => false,
    }
}

/// A text is handed on as it came, a ping is answered with its own bytes, a close ends
/// the connection, and everything else is passed over.
pub proof fn each_message_has_its_action(
    text: String,
    payload: Vec<u8>,
    action: WsAction,
)
    ensures
        fits(WsMessage::Text(text), action) <==> (action matches WsAction::Text(t) && t@ == text@),
        fits(WsMessage::Ping(payload), action) <==> (action matches WsAction::Pong(p) && p@
            == payload@),
        fits(WsMessage::Close, action) <==> action is Closed,
        fits(WsMessage::Binary(payload), action) <==> action is Ignore,
        fits(WsMessage::Pong(payload), action) <==> action is Ignore,
        fits(WsMessage::Frame, action) <==> action is Ignore,
{
}

} // verus!
