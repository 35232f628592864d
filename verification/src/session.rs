//! A session of a subscriber: what each message of the router leads to.

use vstd::prelude::*;

use crate::channel;
use crate::client_error;
use crate::client_error::ClientError;
use crate::delivery_log;
use crate::frame::{closing_is_fatal, DeliveredEvent};
use crate::frame;
use crate::messages;
use crate::messages::{ClosingReason, SubServerMsg};
use crate::resume;
use crate::resume::ResumeState;
use crate::subscriber_ws;
use crate::text;

verus! {

/// What a handler is called for.
#[derive(Debug, PartialEq, Eq)]
pub enum Hook {
    /// A new event.
    Event(DeliveredEvent),
    /// The replay has come to its end.
    Replayed { through_seq: u64 },
    /// Events between the two numbers are gone.
    ReplayGap { from_seq: u64, earliest_seq: u64 },
    /// Events were dropped because the subscriber is slow.
    Lagged { dropped: u64 },
    /// The router keeps no events to replay.
    ReplayUnavailable { msg: String },
}

/// The value of a [`Hook`].
pub enum HookValue {
    Event(frame::DeliveredValue),
    Replayed { through_seq: u64 },
    ReplayGap { from_seq: u64, earliest_seq: u64 },
    Lagged { dropped: u64 },
    ReplayUnavailable { msg: Seq<char> },
}

impl View for Hook {
    type V = HookValue;

    open spec fn view(&self) -> HookValue {
        match self {
            Hook::Event(event) => HookValue::Event(event@),
            Hook::Replayed { through_seq } => HookValue::Replayed { through_seq: *through_seq },
            Hook::ReplayGap { from_seq, earliest_seq } => HookValue::ReplayGap {
                from_seq: *from_seq,
                earliest_seq: *earliest_seq,
            },
            Hook::Lagged { dropped } => HookValue::Lagged { dropped: *dropped },
            Hook::ReplayUnavailable { msg } => HookValue::ReplayUnavailable { msg: msg@ },
        }
    }
}

/// How a session goes on once the handler has been called.
#[derive(Clone, Copy, Debug, PartialEq, Eq, Structural)]
pub enum Next {
    /// Read the next message.
    Read,
    /// End the session, connect again and resume from the cursor.
    Reconnect,
    /// Stop: the token is revoked.
    Revoked,
}

/// What a message of the router leads to. Where the handler fails, the session
/// ends with that.
#[derive(Debug, PartialEq, Eq)]
pub struct SessionStep {
    pub hook: Option<Hook>,
    pub next: Next,
}

/// The value of the hook of a step.
pub open spec fn hook_value(hook: Option<Hook>) -> Option<HookValue> {
    match hook {
        Some(hook) => Some(hook@),
        None => None,
    }
}

/// What the handler is called for.
pub open spec fn hook_for(
    state: resume::ResumeValue,
    msg: messages::SubServerValue,
) -> Option<HookValue> {
    match msg {
        messages::SubServerValue::Event { id, seq, ts_ms, channel, payload_b64 } => if resume::is_new(
            state,
            id,
            seq,
        ) {
            Some(
                HookValue::Event(
                    frame::DeliveredValue { id, seq, ts_ms, channel, payload_b64 },
                ),
            )
        } else {
            None
        },
        messages::SubServerValue::Replayed { through_seq } => Some(
            HookValue::Replayed { through_seq },
        ),
        messages::SubServerValue::ReplayGap { from_seq, earliest_seq } => Some(
            HookValue::ReplayGap { from_seq, earliest_seq },
        ),
        messages::SubServerValue::Lagged { dropped } => Some(HookValue::Lagged { dropped }),
        messages::SubServerValue::Error { op, msg } => if op == "replay"@ {
            Some(HookValue::ReplayUnavailable { msg })
        } else {
            None
        },
        _ => None,
    }
}

/// How the session goes on.
pub open spec fn next_after(msg: messages::SubServerValue) -> Next {
    match msg {
        messages::SubServerValue::Lagged { .. } => Next::Reconnect,
        messages::SubServerValue::Closing { reason } => if reason == ClosingReason::Revoked {
            Next::Revoked
        } else {
            Next::Reconnect
        },
        _ => Next::Read,
    }
}

/// Decides what a message of the router leads to. An event is handed on only if
/// it is new.
pub fn on_message(state: &ResumeState, msg: SubServerMsg) -> (step: SessionStep)
    ensures
        hook_value(step.hook) == hook_for(state@, msg@),
        step.next == next_after(msg@),
{
    match msg {
        SubServerMsg::Event { id, seq, ts_ms, channel, payload_b64 } => {
            if state.should_process(id, seq) {
                let event: DeliveredEvent = DeliveredEvent {
                    id,
                    seq,
                    ts_ms,
                    channel,
                    payload_b64,
                };
                SessionStep { hook: Some(Hook::Event(event)), next: Next::Read }
            } else {
                SessionStep { hook: None, next: Next::Read }
            }
        },
        SubServerMsg::Replayed { through_seq } => SessionStep {
            hook: Some(Hook::Replayed { through_seq }),
            next: Next::Read,
        },
        SubServerMsg::ReplayGap { from_seq, earliest_seq } => SessionStep {
            hook: Some(Hook::ReplayGap { from_seq, earliest_seq }),
            next: Next::Read,
        },
        SubServerMsg::Lagged { dropped } => SessionStep {
            hook: Some(Hook::Lagged { dropped }),
            next: Next::Reconnect,
        },
        SubServerMsg::Error { op, msg } => {
            if text::same_text(op.as_str(), "replay") {
                SessionStep { hook: Some(Hook::ReplayUnavailable { msg }), next: Next::Read }
            } else {
                SessionStep { hook: None, next: Next::Read }
            }
        },
        SubServerMsg::Closing { reason } => {
            if closing_is_fatal(&reason) {
                SessionStep { hook: None, next: Next::Revoked }
            } else {
                SessionStep { hook: None, next: Next::Reconnect }
            }
        },
        SubServerMsg::Welcome { .. } | SubServerMsg::Acked { .. } | SubServerMsg::Pong => {
            SessionStep { hook: None, next: Next::Read }
        },
    }
}

/// Notes that an event has been handled; the cursor that comes back is to be
/// saved. A handler that fails leaves the cursor where it is.
pub fn on_handled(state: &mut ResumeState, event: &DeliveredEvent) -> (cursor: u64)
    ensures
        final(state)@ == resume::recorded(old(state)@, event.id, event.seq),
        cursor == final(state)@.cursor,
{
    state.record(event.id, event.seq);
    state.cursor()
}

/// What a subscriber does when a session has ended.
#[derive(Debug, PartialEq, Eq)]
pub enum AfterSession {
    /// Wait a while and connect again.
    Reconnect,
    /// Give up.
    Stop(ClientError),
}

/// Decides what to do when a session has ended: only what no new connection can
/// mend is given up for.
pub fn after_session(outcome: Result<(), ClientError>) -> (next: AfterSession)
    ensures
        match outcome {
            Ok(()) => next is Reconnect,
            Err(e) => if client_error::fatal(e@) {
                next == AfterSession::Stop(e)
            } else {
                next is Reconnect
            },
        },
{
    match outcome {
        Ok(()) => AfterSession::Reconnect,
        Err(e) => {
            if e.is_fatal() {
                AfterSession::Stop(e)
            } else {
                AfterSession::Reconnect
            }
        },
    }
}

/// What identifies stored events to a subscriber.
pub open spec fn marks(rows: Seq<delivery_log::StampedValue>) -> Seq<resume::Mark> {
    Seq::new(rows.len(), |i: int| resume::Mark { id: rows[i].id, seq: rows[i].seq })
}

/// Resuming loses nothing and repeats nothing. A subscriber that asks for a replay
/// after its cursor handles every stored event after the cursor, up to the head,
/// that it asked for, once and in order; here the stored events have identifiers
/// of their own, and those after the cursor are not among those handled lately.
pub proof fn resuming_handles_the_whole_replay(
    state: resume::ResumeValue,
    rows: Seq<delivery_log::StampedValue>,
    floor: u64,
    head: u64,
    patterns: Seq<Seq<char>>,
    row: delivery_log::StampedValue,
)
    requires
        state.cursor < u64::MAX,
        forall|i: int, j: int|
            0 <= i < j < rows.len() ==> (#[trigger] rows[i]).seq < (#[trigger] rows[j]).seq,
        forall|i: int, j: int|
            0 <= i < j < rows.len() ==> (#[trigger] rows[i]).id != (#[trigger] rows[j]).id,
        forall|i: int|
            0 <= i < rows.len() && (#[trigger] rows[i]).seq > state.cursor
                ==> !state.recent.contains(rows[i].id),
        floor == (if rows.len() == 0 {
            0
        } else {
            rows[0].seq
        }),
    ensures
        ({
            let sent = subscriber_ws::replayed_events(
                rows,
                subscriber_ws::replay_start(state.cursor, floor),
                head,
                patterns,
            );
            &&& resume::handled(state, marks(sent)) == marks(sent)
            &&& sent.contains(row) <==> (rows.contains(row) && state.cursor < row.seq <= head
                && channel::selected_by_any(patterns, row.channel))
        }),
{
    let start = subscriber_ws::replay_start(state.cursor, floor);
    let sent = subscriber_ws::replayed_events(rows, start, head, patterns);
    let seen = marks(sent);
    subscriber_ws::replay_is_complete(rows, state.cursor, floor, head, patterns, row);
    subscriber_ws::replay_is_ordered(rows, start, head, patterns);
    assert forall|i: int| 0 <= i < sent.len() implies (#[trigger] sent[i]).seq > state.cursor
        && rows.contains(sent[i]) by {
        subscriber_ws::replay_is_complete(rows, state.cursor, floor, head, patterns, sent[i]);
        assert(sent.contains(sent[i]));
    }
    assert forall|i: int| 0 <= i < seen.len() implies (#[trigger] seen[i]).seq > state.cursor
        && !state.recent.contains(seen[i].id) by {
        let k = rows.index_of(sent[i]);
        assert(rows[k] == sent[i]);
    }
    assert forall|i: int, j: int| 0 <= i < j < seen.len() implies (#[trigger] seen[i]).seq < (
    #[trigger] seen[j]).seq && seen[i].id != seen[j].id by {
        assert(sent[i].seq < sent[j].seq);
        let k = rows.index_of(sent[i]);
        let l = rows.index_of(sent[j]);
        assert(rows[k] == sent[i] && rows[l] == sent[j]);
        if k < l {
            assert(rows[k].id != rows[l].id);
        } else if l < k {
            assert(rows[l].id != rows[k].id);
        }
    }
    resume::fresh_events_are_all_handled(state, seen);
}

/// What is stored after a subscriber has heard of the head is new to it, whatever is
/// stored, pruned and opened again in between: a cursor never hides a later event
/// whose identifier was not handled lately.
pub proof fn later_events_are_new(
    log: delivery_log::StoredLog,
    steps: Seq<delivery_log::LogStep>,
    rows: Seq<delivery_log::Row>,
    i: int,
    state: resume::ResumeValue,
    id: u128,
)
    requires
        delivery_log::sound(log),
        delivery_log::all_possible(log, steps),
        delivery_log::possible(
            delivery_log::after_steps(log, steps),
            delivery_log::LogStep::Append { rows },
        ),
        0 <= i < rows.len(),
        state.cursor <= log.counters.head,
        !state.recent.contains(id),
    ensures
        resume::is_new(state, id, rows[i].seq),
{
    delivery_log::head_never_goes_back(log, steps);
}

/// A new event is handed on as it came: with its identifier, its number, its time, its
/// channel and its payload. One that is not new is not handed on.
pub proof fn events_are_handed_on_whole(
    state: resume::ResumeValue,
    id: u128,
    seq: u64,
    ts_ms: u64,
    channel: Seq<char>,
    payload_b64: Seq<char>,
)
    ensures
        ({
            let msg = messages::SubServerValue::Event { id, seq, ts_ms, channel, payload_b64 };
            &&& seq > state.cursor && !state.recent.contains(id) ==> match hook_for(state, msg) {
                Some(HookValue::Event(event)) => {
                    &&& event.id == id
                    &&& event.seq == seq
                    &&& event.ts_ms == ts_ms
                    &&& event.channel == channel
                    &&& event.payload_b64 == payload_b64
                },
                _ => false,
            }
            &&& seq <= state.cursor || state.recent.contains(id) ==> hook_for(state, msg) is None
            &&& next_after(msg) == Next::Read
        }),
{
}

/// What else the handler is called for, and how the session goes on: the end of a
/// replay and a gap in it, with their numbers; that events were dropped, after which the
/// session resumes from the cursor; and that there is no replay. Only a revoked token
/// ends it for good.
pub proof fn other_messages_are_handed_on(
    state: resume::ResumeValue,
    a: u64,
    b: u64,
    op: Seq<char>,
    msg: Seq<char>,
)
    ensures
        hook_for(state, messages::SubServerValue::Replayed { through_seq: a }) == Some(
            HookValue::Replayed { through_seq: a },
        ),
        hook_for(state, messages::SubServerValue::ReplayGap { from_seq: a, earliest_seq: b })
            == Some(HookValue::ReplayGap { from_seq: a, earliest_seq: b }),
        hook_for(state, messages::SubServerValue::Lagged { dropped: a }) == Some(
            HookValue::Lagged { dropped: a },
        ),
        hook_for(state, messages::SubServerValue::Error { op: "replay"@, msg }) == Some(
            HookValue::ReplayUnavailable { msg },
        ),
        op != "replay"@ ==> hook_for(state, messages::SubServerValue::Error { op, msg }) is None,
        next_after(messages::SubServerValue::Lagged { dropped: a }) == Next::Reconnect,
        next_after(messages::SubServerValue::Replayed { through_seq: a }) == Next::Read,
        next_after(messages::SubServerValue::ReplayGap { from_seq: a, earliest_seq: b })
            == Next::Read,
        next_after(messages::SubServerValue::Error { op, msg }) == Next::Read,
        next_after(messages::SubServerValue::Closing { reason: ClosingReason::Revoked })
            == Next::Revoked,
        next_after(messages::SubServerValue::Closing { reason: ClosingReason::Shutdown })
            == Next::Reconnect,
{
}

/// What is handed on is what was to be handed on, and nothing where nothing was.
pub proof fn handed_on_as_it_is(hook: Hook)
    ensures
        hook_value(Some(hook)) == Some(hook@),
        hook_value(None) is None,
{
}

} // verus!
