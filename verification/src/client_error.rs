//! What can go wrong for a subscriber.

use vstd::prelude::*;
use vstd::string::*;

use crate::text;

verus! {

/// Why a session of a subscriber ended.
#[derive(Debug, PartialEq, Eq)]
pub enum ClientError {
    /// The upgrade was refused with 401.
    Auth,
    /// The upgrade was refused with another status.
    Http(u16),
    /// The token was revoked while the connection was open.
    Revoked,
    /// A handler failed.
    Handler(String),
    /// The cursor could not be loaded or saved.
    CursorStore(String),
    /// The connection failed.
    Transport(String),
    /// The connection was closed.
    ConnectionClosed,
    /// The request for the connection could not be made.
    Request(String),
}

/// The value of a [`ClientError`].
pub enum ErrorValue {
    Auth,
    Http(u16),
    Revoked,
    Handler(Seq<char>),
    CursorStore(Seq<char>),
    Transport(Seq<char>),
    ConnectionClosed,
    Request(Seq<char>),
}

impl View for ClientError {
    type V = ErrorValue;

    open spec fn view(&self) -> ErrorValue {
        match self {
            ClientError::Auth => ErrorValue::Auth,
            ClientError::Http(status) => ErrorValue::Http(*status),
            ClientError::Revoked => ErrorValue::Revoked,
            ClientError::Handler(why) => ErrorValue::Handler(why@),
            ClientError::CursorStore(why) => ErrorValue::CursorStore(why@),
            ClientError::Transport(why) => ErrorValue::Transport(why@),
            ClientError::ConnectionClosed => ErrorValue::ConnectionClosed,
            ClientError::Request(why) => ErrorValue::Request(why@),
        }
    }
}

/// The sentence that reports an error.
pub open spec fn error_message(error: ErrorValue) -> Seq<char> {
    match error {
        ErrorValue::Auth => "authentication failed (HTTP 401): token missing, wrong, or revoked"@,
        ErrorValue::Http(status) => "websocket upgrade failed with HTTP "@ + text::decimal(
            status as nat,
        ),
        ErrorValue::Revoked => "connection closed by server: token revoked"@,
        ErrorValue::Handler(why) => "event handler failed: "@ + why,
        ErrorValue::CursorStore(why) => "cursor store failed: "@ + why,
        ErrorValue::Transport(why) => "websocket transport error: "@ + why,
        ErrorValue::ConnectionClosed => "connection closed"@,
        ErrorValue::Request(why) => "invalid connection request: "@ + why,
    }
}

/// Whether no new connection can mend an error.
pub open spec fn fatal(error: ErrorValue) -> bool {
    match error {
        ErrorValue::Auth
        | ErrorValue::Revoked
        | ErrorValue::Handler(_)
        | ErrorValue::CursorStore(_)
        | ErrorValue::Request(_) => true,
        ErrorValue::Http(_) | ErrorValue::Transport(_) | ErrorValue::ConnectionClosed => false,
    }
}

impl ClientError {
    /// Whether the subscriber has to stop rather than connect again.
    pub fn is_fatal(&self) -> (stop: bool)
        ensures
            stop == fatal(self@),
    {
        match self {
            ClientError::Auth
            | ClientError::Revoked
            | ClientError::Handler(_)
            | ClientError::CursorStore(_)
            | ClientError::Request(_) => true,
            ClientError::Http(_) | ClientError::Transport(_) | ClientError::ConnectionClosed => false,
        }
    }

    /// The sentence that reports this error.
    pub fn message(&self) -> (msg: String)
        ensures
            msg@ == error_message(self@),
    {
        match self {
            ClientError::Auth => {
                "authentication failed (HTTP 401): token missing, wrong, or revoked".to_owned()
            },
            ClientError::Http(status) => {
                let mut msg: String = "websocket upgrade failed with HTTP ".to_owned();
                text::push_decimal(&mut msg, *status as u64);
                msg
            },
            ClientError::Revoked => "connection closed by server: token revoked".to_owned(),
            ClientError::Handler(why) => "event handler failed: ".to_owned().concat(why.as_str()),
            ClientError::CursorStore(why) => "cursor store failed: ".to_owned().concat(why.as_str()),
            ClientError::Transport(why) => "websocket transport error: ".to_owned().concat(why.as_str()),
            ClientError::ConnectionClosed => "connection closed".to_owned(),
            ClientError::Request(why) => "invalid connection request: ".to_owned().concat(why.as_str()),
        }
    }
}

/// Why no connection came about.
#[derive(Debug, PartialEq, Eq)]
pub enum ConnectFailure {
    /// The upgrade was answered with this status.
    Http(u16),
    /// The connection failed otherwise.
    Other(String),
}

/// Sorts out why no connection came about: 401 means that the token is wrong.
pub fn map_connect_error(failure: ConnectFailure) -> (error: ClientError)
    ensures
        error@ == (match failure {
            ConnectFailure::Http(status) => if status == 401 {
                ErrorValue::Auth
            } else {
                ErrorValue::Http(status)
            },
            ConnectFailure::Other(why) => ErrorValue::Transport(why@),
        }),
{
    match failure {
        ConnectFailure::Http(status) => if status == 401 {
            ClientError::Auth
        } else {
            ClientError::Http(status)
        },
        ConnectFailure::Other(why) => ClientError::Transport(why),
    }
}

/// A subscriber stops for what no new connection can mend: a wrong or revoked token, a
/// request that cannot be made, and a handler or a store of its own that fails. It
/// connects again after everything else: another status, a broken connection, a closed
/// one.
pub proof fn what_ends_a_subscriber(status: u16, why: Seq<char>)
    ensures
        fatal(ErrorValue::Auth),
        fatal(ErrorValue::Revoked),
        fatal(ErrorValue::Handler(why)),
        fatal(ErrorValue::CursorStore(why)),
        fatal(ErrorValue::Request(why)),
        !fatal(ErrorValue::Http(status)),
        !fatal(ErrorValue::Transport(why)),
        !fatal(ErrorValue::ConnectionClosed),
{
}

/// A reported error ends with what went wrong, as it was given where it was given.
pub proof fn reports_end_with_the_cause(status: u16, why: Seq<char>)
    ensures
        error_message(ErrorValue::Http(status)) == "websocket upgrade failed with HTTP "@
            + text::decimal(status as nat),
        error_message(ErrorValue::Handler(why)) == "event handler failed: "@ + why,
        error_message(ErrorValue::CursorStore(why)) == "cursor store failed: "@ + why,
        error_message(ErrorValue::Transport(why)) == "websocket transport error: "@ + why,
        error_message(ErrorValue::Request(why)) == "invalid connection request: "@ + why,
        error_message(ErrorValue::Auth)
            == "authentication failed (HTTP 401): token missing, wrong, or revoked"@,
        error_message(ErrorValue::Revoked) == "connection closed by server: token revoked"@,
        error_message(ErrorValue::ConnectionClosed) == "connection closed"@,
{
}

} // verus!
