//! What an extension says before it is ready: its registration.

use vstd::prelude::*;
use vstd::string::*;

use crate::messages::{ExtMsg, PROTOCOL_VERSION};
use crate::text;

verus! {

/// Who an extension says it is, and what it claims.
#[derive(Debug)]
pub struct ExtensionRegistration {
    pub id: String,
    pub paths: Vec<String>,
    pub channels: Vec<String>,
    /// How many events came before the registration and were dropped.
    pub dropped_events: usize,
}

/// How far a registration has come.
#[derive(Debug)]
pub enum Registering {
    /// Only events have come, and were dropped; the next line is waited for.
    Waiting { dropped_events: usize },
    /// The extension has registered.
    Done(ExtensionRegistration),
}

/// What came of waiting for a line of an extension that is not ready.
pub enum FirstLine {
    /// No line came in time.
    TimedOut,
    /// Reading failed.
    Failed { why: String },
    /// The extension ended its output.
    Ended,
    /// The line was blank.
    Blank,
    /// The line was no message.
    Malformed { why: String },
    /// The line was a message, which `shown` renders for the reader of a log.
    Message { msg: ExtMsg, shown: String },
}

/// Why a registration is refused.
#[derive(Debug, PartialEq, Eq)]
pub enum RegistrationError {
    TimedOut,
    Failed { why: String },
    Ended,
    Blank,
    UnsupportedProtocol { protocol: u32 },
    NotRegister { shown: String },
}

/// The sentence that reports a refusal.
pub open spec fn error_message(error: RegistrationError) -> Seq<char> {
    match error {
        RegistrationError::TimedOut => "extension register timeout"@,
        RegistrationError::Failed { why } => why@,
        RegistrationError::Ended => "extension exited before register"@,
        RegistrationError::Blank => "blank register line"@,
        RegistrationError::UnsupportedProtocol { protocol } => "unsupported protocol version "@
            + text::decimal(protocol as nat),
        RegistrationError::NotRegister { shown } => "expected register, got "@ + shown@,
    }
}

impl RegistrationError {
    /// The sentence that reports this refusal.
    pub fn message(&self) -> (msg: String)
        ensures
            msg@ == error_message(*self),
    {
        match self {
            RegistrationError::TimedOut => "extension register timeout".to_owned(),
            RegistrationError::Failed { why } => why.clone(),
            RegistrationError::Ended => "extension exited before register".to_owned(),
            RegistrationError::Blank => "blank register line".to_owned(),
            RegistrationError::UnsupportedProtocol { protocol } => {
                let mut msg: String = "unsupported protocol version ".to_owned();
                text::push_decimal(&mut msg, *protocol as u64);
                msg
            },
            RegistrationError::NotRegister { shown } => "expected register, got ".to_owned().concat(
                shown.as_str(),
            ),
        }
    }
}

/// Whether `registration` is what a line registers for a candidate.
pub open spec fn registers(
    first: FirstLine,
    candidate_id: Seq<char>,
    registration: ExtensionRegistration,
) -> bool {
    match first {
        FirstLine::Message {
            msg: ExtMsg::Register { protocol, id, paths, channels, meta: _ },
            shown: _,
        } => {
            &&& protocol == PROTOCOL_VERSION
            &&& registration.id@ == match id {
                Some(given) => given@,
                None => candidate_id,
            }
            &&& registration.paths@ == paths@
            &&& registration.channels@ == channels@
        },
        _ => false,
    }
}

/// Whether a line is an event, which nobody takes from an extension that is not ready.
pub open spec fn is_early_event(line: FirstLine) -> bool {
    match line {
        FirstLine::Message { msg: ExtMsg::Event { .. }, shown: _ } => true,
        _ => false,
    }
}

/// Whether `error` is why a line registers nothing.
pub open spec fn refuses(first: FirstLine, error: RegistrationError) -> bool {
    match first {
        FirstLine::TimedOut => error is TimedOut,
        FirstLine::Failed { why } => error == (RegistrationError::Failed { why }),
        FirstLine::Ended => error is Ended,
        FirstLine::Blank => error is Blank,
        FirstLine::Malformed { why } => error == (RegistrationError::Failed { why }),
        FirstLine::Message {
            msg: ExtMsg::Register { protocol, .. },
            shown: _,
        } => protocol != PROTOCOL_VERSION && error == (RegistrationError::UnsupportedProtocol {
            protocol,
        }),
        FirstLine::Message { msg: ExtMsg::Event { .. }, shown: _ } => false,
        FirstLine::Message { msg: _, shown } => error == (RegistrationError::NotRegister { shown }),
    }
}

/// Reads a line of a candidate that is not ready. An event is dropped and counted,
/// and the next line is waited for; any other message must be the registration. An
/// extension that names no identifier has that of its file.
pub fn read_registration(candidate_id: &str, dropped_events: usize, line: FirstLine) -> (r: Result<
    Registering,
    RegistrationError,
>)
    ensures
        match r {
            Ok(Registering::Done(registration)) => {
                &&& registers(line, candidate_id@, registration)
                &&& registration.dropped_events == dropped_events
            },
            Ok(Registering::Waiting { dropped_events: now }) => {
                &&& is_early_event(line)
                &&& now == (if dropped_events < usize::MAX {
                    dropped_events + 1
                } else {
                    dropped_events as int
                })
            },
            Err(error) => refuses(line, error),
        },
{
    match line {
        FirstLine::TimedOut => Err(RegistrationError::TimedOut),
        FirstLine::Failed { why } => Err(RegistrationError::Failed { why }),
        FirstLine::Ended => Err(RegistrationError::Ended),
        FirstLine::Blank => Err(RegistrationError::Blank),
        FirstLine::Malformed { why } => Err(RegistrationError::Failed { why }),
        FirstLine::Message { msg, shown } => match msg {
            ExtMsg::Register { protocol, id, paths, channels, meta: _ } => {
                if protocol != PROTOCOL_VERSION {
                    return Err(RegistrationError::UnsupportedProtocol { protocol });
                }
                let id: String = match id {
                    Some(given) => given,
                    None => candidate_id.to_owned(),
                };
                Ok(
                    Registering::Done(
                        ExtensionRegistration { id, paths, channels, dropped_events },
                    ),
                )
            },
            ExtMsg::Event { .. } => Ok(
                Registering::Waiting { dropped_events: dropped_events.saturating_add(1) },
            ),
            _ => Err(RegistrationError::NotRegister { shown }),
        },
    }
}

/// Only a registration under the right protocol registers: under the identifier that it
/// names, or that of the file where it names none, and with the paths and channels that
/// it claims. Nothing both registers and is refused.
pub proof fn registrations_are_taken_as_they_are(
    line: FirstLine,
    candidate_id: Seq<char>,
    registration: ExtensionRegistration,
    error: RegistrationError,
)
    requires
        registers(line, candidate_id, registration),
    ensures
        !refuses(line, error),
        !is_early_event(line),
        match line {
            FirstLine::Message {
                msg: ExtMsg::Register { protocol, id, paths, channels, meta: _ },
                shown: _,
            } => {
                &&& protocol == 1
                &&& match id {
                    Some(given) => registration.id@ == given@,
                    None => registration.id@ == candidate_id,
                }
                &&& registration.paths@ == paths@
                &&& registration.channels@ == channels@
            },
            _ => false,
        },
{
}

/// A refused registration is reported with its reason, and with the version or the message
/// that came in its place.
pub proof fn refusals_are_reported(given: String, version: u32)
    ensures
        error_message(RegistrationError::TimedOut) == "extension register timeout"@,
        error_message(RegistrationError::Failed { why: given }) == given@,
        error_message(RegistrationError::Ended) == "extension exited before register"@,
        error_message(RegistrationError::Blank) == "blank register line"@,
        error_message(RegistrationError::UnsupportedProtocol { protocol: version })
            == "unsupported protocol version "@ + text::decimal(version as nat),
        error_message(RegistrationError::NotRegister { shown: given }) == "expected register, got "@
            + given@,
{
}

} // verus!
