//! The subscriber plane: what one connection of a subscriber does, message by
//! message.

use vstd::prelude::*;

use crate::channel;
use crate::channel::Pattern;
use crate::delivery_log;
use crate::delivery_log::{DeliveryLog, StampedEvent};
use crate::messages;
use crate::messages::{ClosingReason, SubClientMsg, SubServerMsg};
use crate::outbound_queue;
use crate::outbound_queue::Frame;
use crate::subscribers;
use crate::subscribers::SubscriberRegistry;
use crate::text;

verus! {

/// The token in the value of an `Authorization` header.
pub fn bearer_token(authorization: Option<&str>) -> (token: Option<String>)
    ensures
        match authorization {
            Some(value) => match token {
                Some(t) => text::begins(value@, "Bearer "@) && t@ == value@.skip(
                    "Bearer "@.len() as int,
                ),
                None => !text::begins(value@, "Bearer "@),
            },
            None => token is None,
        },
{
    match authorization {
        Some(value) => text::strip_prefix(value, "Bearer "),
        None => None,
    }
}

/// Whether a replay that begins after `after_seq` misses events that are no
/// longer stored.
pub open spec fn misses_events(after_seq: u64, floor: u64) -> bool {
    floor != 0 && after_seq + 1 < floor
}

/// The number after which a replay begins: where events are gone, just before
/// the first that is stored.
pub open spec fn replay_start(after_seq: u64, floor: u64) -> u64 {
    if misses_events(after_seq, floor) {
        (floor - 1) as u64
    } else {
        after_seq
    }
}

/// What is sent ahead of a replay: the acknowledgement, and where events are
/// gone, which.
pub open spec fn replay_lead(after_seq: u64, floor: u64) -> Seq<messages::SubServerValue> {
    let acked = messages::SubServerValue::Acked { op: "subscribe"@ };
    if misses_events(after_seq, floor) {
        seq![
            acked,
            messages::SubServerValue::ReplayGap { from_seq: after_seq, earliest_seq: floor },
        ]
    } else {
        seq![acked]
    }
}

/// What a message of a subscriber asks the connection to do.
pub enum SubscriberReply {
    /// Put these messages into the queue of the connection.
    Queue { messages: Vec<SubServerMsg> },
    /// Read the log after `after_seq`, and send the frames of the replay past the
    /// queue: a large window would otherwise evict itself.
    Replay { lead: Vec<SubServerMsg>, after_seq: u64, through_seq: u64, patterns: Vec<Pattern> },
}

/// Whether a reply is to put exactly `expected` into the queue.
pub open spec fn queues(reply: SubscriberReply, expected: Seq<messages::SubServerValue>) -> bool {
    match reply {
        SubscriberReply::Queue { messages: msgs } => messages::server_values(msgs@) == expected,
        _ => false,
    }
}

/// The reply to a subscription with valid patterns.
pub open spec fn replies_to_subscription(
    reply: SubscriberReply,
    asked: Seq<Seq<char>>,
    replay: Option<messages::ReplayRequest>,
    log: Option<DeliveryLog>,
) -> bool {
    match replay {
        None => queues(reply, seq![messages::SubServerValue::Acked { op: "subscribe"@ }]),
        Some(request) => match log {
            None => queues(
                reply,
                seq![
                    messages::SubServerValue::Acked { op: "subscribe"@ },
                    messages::SubServerValue::Error {
                        op: "replay"@,
                        msg: "durable delivery is not enabled"@,
                    },
                ],
            ),
            Some(counters) => match reply {
                SubscriberReply::Replay { lead, after_seq, through_seq, patterns } => {
                    &&& messages::server_values(lead@) == replay_lead(
                        request.after_seq,
                        counters.floor,
                    )
                    &&& after_seq == replay_start(request.after_seq, counters.floor)
                    &&& through_seq == counters.head
                    &&& channel::pattern_texts(patterns@) == asked
                },
                _ => false,
            },
        },
    }
}

fn one(msg: SubServerMsg) -> (msgs: Vec<SubServerMsg>)
    ensures
        messages::server_values(msgs@) == seq![msg@],
{
    let mut msgs: Vec<SubServerMsg> = Vec::new();
    msgs.push(msg);
    assert(messages::server_values(msgs@) =~= seq![msg@]);
    msgs
}

fn two(first: SubServerMsg, second: SubServerMsg) -> (msgs: Vec<SubServerMsg>)
    ensures
        messages::server_values(msgs@) == seq![first@, second@],
{
    let mut msgs: Vec<SubServerMsg> = Vec::new();
    msgs.push(first);
    msgs.push(second);
    assert(messages::server_values(msgs@) =~= seq![first@, second@]);
    msgs
}

/// The patterns of a list of texts that are all valid.
fn parsed_patterns(patterns: &[String]) -> (parsed: Vec<Pattern>)
    requires
        subscribers::first_pattern_error(text::texts(patterns@)) is None,
    ensures
        channel::pattern_texts(parsed@) == text::texts(patterns@),
{
    let ghost all = text::texts(patterns@);
    let mut parsed: Vec<Pattern> = Vec::new();
    let mut i: usize = 0;
    while i < patterns.len()
        invariant
            i <= patterns@.len(),
            all == text::texts(patterns@),
            subscribers::first_pattern_error(all) is None,
            parsed@.len() == i,
            forall|j: int| 0 <= j < i ==> (#[trigger] parsed@[j])@ == all[j],
        decreases patterns@.len() - i,
    {
        proof {
            subscribers::lemma_no_pattern_error(all, i as int);
            assert(all[i as int] == patterns@[i as int]@);
        }
        if let Ok(pattern) = Pattern::new(patterns[i].clone()) {
            parsed.push(pattern);
        }
        i += 1;
    }
    assert(channel::pattern_texts(parsed@) =~= all);
    parsed
}

/// Handles one message of the subscriber with the number `id`.
pub fn handle_subscriber_msg(
    registry: &mut SubscriberRegistry,
    id: u64,
    msg: SubClientMsg,
    log: Option<&DeliveryLog>,
) -> (reply: SubscriberReply)
    requires
        old(registry)@.ids_unique(),
    ensures
        final(registry)@.ids_unique(),
        match msg {
            SubClientMsg::Subscribe { patterns, replay } => match subscribers::first_pattern_error(
                text::texts(patterns@),
            ) {
                Some(fault) => final(registry)@ == old(registry)@ && queues(
                    reply,
                    seq![
                        messages::SubServerValue::Error {
                            op: "subscribe"@,
                            msg: "invalid pattern: "@ + channel::fault_message(fault),
                        },
                    ],
                ),
                None => final(registry)@ == old(registry)@.with(
                    id,
                    |s: subscribers::SubscriberValue|
                        subscribers::SubscriberValue {
                            patterns: subscribers::with_patterns(
                                s.patterns,
                                text::texts(patterns@),
                            ),
                            ..s
                        },
                ) && replies_to_subscription(
                    reply,
                    text::texts(patterns@),
                    replay,
                    match log {
                        Some(counters) => Some(*counters),
                        None => None,
                    },
                ),
            },
            SubClientMsg::Unsubscribe { patterns } => final(registry)@ == old(registry)@.with(
                id,
                |s: subscribers::SubscriberValue|
                    subscribers::SubscriberValue {
                        patterns: subscribers::without_patterns(s.patterns, text::texts(patterns@)),
                        ..s
                    },
            ) && queues(reply, seq![messages::SubServerValue::Acked { op: "unsubscribe"@ }]),
            SubClientMsg::Ping => final(registry)@ == old(registry)@ && queues(
                reply,
                seq![messages::SubServerValue::Pong],
            ),
        },
{
    match msg {
        SubClientMsg::Subscribe { patterns, replay } => {
            match registry.subscribe(id, &patterns) {
                Err(msg) => {
                    return SubscriberReply::Queue {
                        messages: one(SubServerMsg::Error { op: "subscribe".to_owned(), msg }),
                    };
                },
                Ok(()) => {},
            }
            let acked: SubServerMsg = SubServerMsg::Acked { op: "subscribe".to_owned() };
            match replay {
                None => SubscriberReply::Queue { messages: one(acked) },
                Some(request) => match log {
                    // Live subscription is active; replay alone is refused.
                    None => SubscriberReply::Queue {
                        messages: two(
                            acked,
                            SubServerMsg::Error {
                                op: "replay".to_owned(),
                                msg: "durable delivery is not enabled".to_owned(),
                            },
                        ),
                    },
                    Some(counters) => {
                        let floor: u64 = counters.floor;
                        let after: u64 = request.after_seq;
                        let parsed: Vec<Pattern> = parsed_patterns(&patterns);
                        if floor != 0 && after < floor - 1 {
                            SubscriberReply::Replay {
                                lead: two(
                                    acked,
                                    SubServerMsg::ReplayGap {
                                        from_seq: after,
                                        earliest_seq: floor,
                                    },
                                ),
                                after_seq: floor - 1,
                                through_seq: counters.head,
                                patterns: parsed,
                            }
                        } else {
                            SubscriberReply::Replay {
                                lead: one(acked),
                                after_seq: after,
                                through_seq: counters.head,
                                patterns: parsed,
                            }
                        }
                    },
                },
            }
        },
        SubClientMsg::Unsubscribe { patterns } => {
            registry.unsubscribe(id, &patterns);
            SubscriberReply::Queue {
                messages: one(SubServerMsg::Acked { op: "unsubscribe".to_owned() }),
            }
        },
        SubClientMsg::Ping => SubscriberReply::Queue { messages: one(SubServerMsg::Pong) },
    }
}

/// The rows at the front up to the first that lies beyond `through_seq`.
pub open spec fn up_to(
    rows: Seq<delivery_log::StampedValue>,
    through_seq: u64,
) -> Seq<delivery_log::StampedValue>
    decreases rows.len(),
{
    if rows.len() == 0 || rows[0].seq > through_seq {
        Seq::empty()
    } else {
        seq![rows[0]] + up_to(rows.drop_first(), through_seq)
    }
}

/// The message that carries a stored event.
pub open spec fn event_message(row: delivery_log::StampedValue) -> messages::SubServerValue {
    messages::SubServerValue::Event {
        id: row.id,
        seq: row.seq,
        ts_ms: row.ts_ms,
        channel: row.channel,
        payload_b64: row.payload_b64,
    }
}

/// The messages that carry stored events.
pub open spec fn event_messages(rows: Seq<delivery_log::StampedValue>) -> Seq<
    messages::SubServerValue,
> {
    Seq::new(rows.len(), |i: int| event_message(rows[i]))
}

/// The events of a replay.
pub open spec fn replayed_events(
    rows: Seq<delivery_log::StampedValue>,
    after_seq: u64,
    through_seq: u64,
    patterns: Seq<Seq<char>>,
) -> Seq<delivery_log::StampedValue> {
    up_to(delivery_log::events_after(rows, after_seq, Some(patterns)), through_seq)
}

/// The message that carries a stamped event.
pub fn event_frame(row: &StampedEvent) -> (msg: SubServerMsg)
    ensures
        msg@ == event_message(row@),
{
    SubServerMsg::Event {
        id: row.id,
        seq: row.seq,
        ts_ms: row.ts_ms,
        channel: row.channel.clone(),
        payload_b64: row.payload_b64.clone(),
    }
}

proof fn lemma_up_to_step(rows: Seq<delivery_log::StampedValue>, i: int, through_seq: u64)
    requires
        0 <= i <= rows.len(),
        forall|j: int| 0 <= j < i ==> (#[trigger] rows[j]).seq <= through_seq,
    ensures
        up_to(rows, through_seq) == rows.take(i) + up_to(rows.skip(i), through_seq),
    decreases i,
{
    if i == 0 {
        assert(rows.skip(0) =~= rows);
        assert(rows.take(0) + up_to(rows, through_seq) =~= up_to(rows, through_seq));
    } else {
        let rest = rows.drop_first();
        assert(rows[0].seq <= through_seq);
        assert forall|j: int| 0 <= j < i - 1 implies (#[trigger] rest[j]).seq <= through_seq by {
            assert(rest[j] == rows[j + 1]);
        }
        lemma_up_to_step(rest, i - 1, through_seq);
        assert(rest.skip(i - 1) =~= rows.skip(i));
        assert(seq![rows[0]] + rest.take(i - 1) =~= rows.take(i));
        assert(up_to(rows, through_seq) =~= rows.take(i) + up_to(rows.skip(i), through_seq));
    }
}

/// The frames of a replay: its lead, then the stored events that the subscriber
/// asked for up to `through_seq`, then the end of the window.
pub fn replay_frames(
    lead: Vec<SubServerMsg>,
    rows: Vec<StampedEvent>,
    after_seq: u64,
    through_seq: u64,
    patterns: &[Pattern],
) -> (frames: Vec<SubServerMsg>)
    ensures
        messages::server_values(frames@) == messages::server_values(lead@) + event_messages(
            replayed_events(
                delivery_log::stamped_values(rows@),
                after_seq,
                through_seq,
                channel::pattern_texts(patterns@),
            ),
        ).push(messages::SubServerValue::Replayed { through_seq }),
{
    let ghost start = messages::server_values(lead@);
    let selected: Vec<StampedEvent> = delivery_log::read_after(rows, after_seq, Some(patterns));
    let ghost all = delivery_log::stamped_values(selected@);
    let mut frames: Vec<SubServerMsg> = lead;
    let mut i: usize = 0;
    let mut going: bool = true;
    assert(event_messages(all.take(0)) =~= Seq::<messages::SubServerValue>::empty());
    assert(start + event_messages(all.take(0)) =~= start);
    while going && i < selected.len()
        invariant
            i <= selected@.len(),
            all == delivery_log::stamped_values(selected@),
            messages::server_values(frames@) == start + event_messages(all.take(i as int)),
            forall|j: int| 0 <= j < i ==> (#[trigger] all[j]).seq <= through_seq,
            !going ==> i < selected@.len() && all[i as int].seq > through_seq,
        decreases selected@.len() - i, going as int,
    {
        assert(all[i as int] == selected@[i as int]@);
        if selected[i].seq > through_seq {
            going = false;
        } else {
            let ghost before = messages::server_values(frames@);
            frames.push(event_frame(&selected[i]));
            proof {
                assert(messages::server_values(frames@) =~= before.push(
                    event_message(all[i as int]),
                ));
                assert(start + event_messages(all.take(i as int + 1)) =~= before.push(
                    event_message(all[i as int]),
                ));
            }
            i += 1;
        }
    }
    proof {
        lemma_up_to_step(all, i as int, through_seq);
        if i == all.len() {
            assert(all.skip(i as int) =~= Seq::<delivery_log::StampedValue>::empty());
        } else {
            assert(all.skip(i as int)[0] == all[i as int]);
        }
        assert(up_to(all, through_seq) =~= all.take(i as int));
    }
    let ghost before = messages::server_values(frames@);
    frames.push(SubServerMsg::Replayed { through_seq });
    assert(messages::server_values(frames@) =~= before.push(
        messages::SubServerValue::Replayed { through_seq },
    ));
    frames
}

/// What happens to the connection of a subscriber.
#[derive(Debug)]
pub enum SocketEvent {
    /// The connection of a subscriber with this name is there.
    Opened { name: String },
    /// The idle timeout has passed once more.
    Tick,
    /// A frame was taken from the queue, along with the count of drops that the
    /// subscriber has not been told of.
    Frame { lag: Option<usize>, frame: Frame },
    /// The registry wants something of the connection: that it closes, or
    /// nothing yet.
    CloseAsked { reason: Option<ClosingReason> },
    /// The registry is gone.
    RegistryGone,
    Text { text: String },
    Ping { payload: Vec<u8> },
    Pong,
    Other,
    /// The peer closed, the stream ended or reading failed.
    Ended,
    /// What the connection was to do last has been done.
    Done,
    /// What the connection was to do last has failed.
    Failed,
}

/// What the connection of a subscriber does next.
#[derive(Debug)]
pub enum SocketAction {
    Wait,
    /// Write the welcome.
    Welcome { name: String },
    /// Handle a message of the subscriber.
    Handle { text: String },
    SendPing,
    SendPong { payload: Vec<u8> },
    /// Report the drops, if there are any, then write the frame. If it says that
    /// the connection closes, it is the last.
    Write { lagged: Option<u64>, text: String, close: bool },
    /// Say why the connection closes.
    SayClosing { reason: ClosingReason },
    /// Leave the registry and drop the connection.
    Leave,
}

/// How far a connection has come.
#[derive(Clone, Copy, Debug, PartialEq, Eq, Structural)]
pub enum SocketStage {
    /// Nothing has been written.
    Fresh,
    /// The subscriber has been welcomed.
    Open,
    /// Nothing more is written.
    Leaving,
}

/// The part of a connection that outlasts a message: how far it has come, and
/// whether a ping of ours is still unanswered.
#[derive(Clone, Copy, Debug, PartialEq, Eq, Structural)]
pub struct SubscriberSocket {
    pub stage: SocketStage,
    pub awaiting_pong: bool,
}

/// The next state of a connection.
pub open spec fn next_socket(socket: SubscriberSocket, event: SocketEvent) -> SubscriberSocket {
    let leaving = SubscriberSocket { stage: SocketStage::Leaving, ..socket };
    match socket.stage {
        SocketStage::Leaving => socket,
        SocketStage::Fresh => match event {
            SocketEvent::Opened { .. } => SubscriberSocket { stage: SocketStage::Open, ..socket },
            SocketEvent::RegistryGone => leaving,
            SocketEvent::Ended => leaving,
            SocketEvent::Failed => leaving,
            _ => socket,
        },
        SocketStage::Open => match event {
            SocketEvent::Tick => if socket.awaiting_pong {
                leaving
            } else {
                SubscriberSocket { awaiting_pong: true, ..socket }
            },
            SocketEvent::Pong => SubscriberSocket { awaiting_pong: false, ..socket },
            SocketEvent::Frame { frame, .. } => if frame.closing {
                leaving
            } else {
                socket
            },
            SocketEvent::CloseAsked { reason: Some(_) } => leaving,
            SocketEvent::RegistryGone => leaving,
            SocketEvent::Ended => leaving,
            SocketEvent::Failed => leaving,
            _ => socket,
        },
    }
}

/// Whether `action` is what an open connection does next.
pub open spec fn answers_event(
    awaiting_pong: bool,
    event: SocketEvent,
    action: SocketAction,
) -> bool {
    match event {
        SocketEvent::Opened { .. } => action is Wait,
        SocketEvent::Tick => if awaiting_pong {
            action is Leave
        } else {
            action is SendPing
        },
        SocketEvent::Frame { lag, frame } => match action {
            SocketAction::Write { lagged, text, close } => {
                &&& text@ == frame.text@
                &&& close == frame.closing
                &&& match lag {
                    Some(n) => lagged == Some(n as u64),
                    None => lagged is None,
                }
            },
            _ => false,
        },
        SocketEvent::CloseAsked { reason: Some(reason) } => action == (SocketAction::SayClosing {
            reason,
        }),
        SocketEvent::CloseAsked { reason: None } => action is Wait,
        SocketEvent::RegistryGone => action is Leave,
        SocketEvent::Text { text } => match action {
            SocketAction::Handle { text: handled } => handled@ == text@,
            _ => false,
        },
        SocketEvent::Ping { payload } => match action {
            SocketAction::SendPong { payload: echoed } => echoed@ == payload@,
            _ => false,
        },
        SocketEvent::Pong => action is Wait,
        SocketEvent::Other => action is Wait,
        SocketEvent::Ended => action is Leave,
        SocketEvent::Done => action is Wait,
        SocketEvent::Failed => action is Leave,
    }
}

/// Whether `action` is what the connection does next.
pub open spec fn reacts(
    socket: SubscriberSocket,
    event: SocketEvent,
    action: SocketAction,
) -> bool {
    match socket.stage {
        SocketStage::Fresh => match event {
            SocketEvent::Opened { name } => match action {
                SocketAction::Welcome { name: greeted } => greeted@ == name@,
                _ => false,
            },
            SocketEvent::RegistryGone => action is Leave,
            SocketEvent::Ended => action is Leave,
            SocketEvent::Failed => action is Leave,
            _ => action is Wait,
        },
        SocketStage::Open => answers_event(socket.awaiting_pong, event, action),
        SocketStage::Leaving => action is Leave,
    }
}

impl SubscriberSocket {
    /// A new connection.
    pub fn new() -> (socket: SubscriberSocket)
        ensures
            socket == (SubscriberSocket { stage: SocketStage::Fresh, awaiting_pong: false }),
    {
        SubscriberSocket { stage: SocketStage::Fresh, awaiting_pong: false }
    }

    /// Whether nothing more is written.
    pub fn is_leaving(&self) -> (yes: bool)
        ensures
            yes == (self.stage is Leaving),
    {
        match self.stage {
            SocketStage::Leaving => true,
            _ => false,
        }
    }

    fn leave(&mut self) -> (action: SocketAction)
        ensures
            *final(self) == (SubscriberSocket { stage: SocketStage::Leaving, ..*old(self) }),
            action is Leave,
    {
        self.stage = SocketStage::Leaving;
        SocketAction::Leave
    }

    /// Decides what the connection does after `event`.
    pub fn step(&mut self, event: SocketEvent) -> (action: SocketAction)
        ensures
            *final(self) == next_socket(*old(self), event),
            reacts(*old(self), event, action),
    {
        match self.stage {
            SocketStage::Fresh => match event {
                SocketEvent::Opened { name } => {
                    self.stage = SocketStage::Open;
                    SocketAction::Welcome { name }
                },
                SocketEvent::RegistryGone | SocketEvent::Ended | SocketEvent::Failed => self.leave(),
                _ => SocketAction::Wait,
            },
            SocketStage::Open => self.step_open(event),
            SocketStage::Leaving => SocketAction::Leave,
        }
    }

    fn step_open(&mut self, event: SocketEvent) -> (action: SocketAction)
        requires
            old(self).stage is Open,
        ensures
            *final(self) == next_socket(*old(self), event),
            reacts(*old(self), event, action),
    {
        match event {
            SocketEvent::Tick => {
                if self.awaiting_pong {
                    return self.leave();
                }
                self.awaiting_pong = true;
                SocketAction::SendPing
            },
            SocketEvent::Frame { lag, frame } => {
                let lagged: Option<u64> = match lag {
                    Some(n) => Some(n as u64),
                    None => None,
                };
                if frame.closing {
                    self.stage = SocketStage::Leaving;
                }
                SocketAction::Write { lagged, text: frame.text, close: frame.closing }
            },
            SocketEvent::CloseAsked { reason } => match reason {
                Some(reason) => {
                    self.stage = SocketStage::Leaving;
                    SocketAction::SayClosing { reason }
                },
                None => SocketAction::Wait,
            },
            SocketEvent::Text { text } => SocketAction::Handle { text },
            SocketEvent::Ping { payload } => SocketAction::SendPong { payload },
            SocketEvent::Pong => {
                self.awaiting_pong = false;
                SocketAction::Wait
            },
            SocketEvent::RegistryGone | SocketEvent::Ended | SocketEvent::Failed => self.leave(),
            SocketEvent::Opened { .. } | SocketEvent::Other | SocketEvent::Done => {
                SocketAction::Wait
            },
        }
    }
}

/// Decides what the connection of a subscriber does after `event`. One that leaves is
/// taken out of the registry.
pub fn step_connection(
    registry: &mut SubscriberRegistry,
    id: u64,
    socket: &mut SubscriberSocket,
    event: SocketEvent,
) -> (action: SocketAction)
    requires
        old(registry)@.ids_unique(),
    ensures
        *final(socket) == next_socket(*old(socket), event),
        reacts(*old(socket), event, action),
        final(registry)@ == (if action is Leave {
            subscribers::RegistryValue {
                subscribers: old(registry)@.subscribers.filter(
                    |s: subscribers::SubscriberValue| s.id != id,
                ),
                ..old(registry)@
            }
        } else {
            old(registry)@
        }),
        final(registry)@.ids_unique(),
        action is Leave ==> !final(registry)@.has(id),
{
    let action: SocketAction = socket.step(event);
    match action {
        SocketAction::Leave => registry.remove(id),
        _ => {},
    }
    action
}

/// The state of a connection after a run of events.
pub open spec fn socket_after(
    socket: SubscriberSocket,
    events: Seq<SocketEvent>,
) -> SubscriberSocket
    decreases events.len(),
{
    if events.len() == 0 {
        socket
    } else {
        next_socket(socket_after(socket, events.drop_last()), events.last())
    }
}

/// Whether these are the actions of a connection on a run of events, one for each.
pub open spec fn acts_on(
    socket: SubscriberSocket,
    events: Seq<SocketEvent>,
    actions: Seq<SocketAction>,
) -> bool {
    &&& actions.len() == events.len()
    &&& forall|i: int|
        0 <= i < events.len() ==> reacts(
            socket_after(socket, events.take(i)),
            events[i],
            #[trigger] actions[i],
        )
}

/// Whether an action does something for the subscriber.
pub open spec fn is_active(action: SocketAction) -> bool {
    !(action is Wait) && !(action is Leave)
}

/// Whether an action is the last that does something for the subscriber.
pub open spec fn is_end(action: SocketAction) -> bool {
    match action {
        SocketAction::Leave => true,
        SocketAction::SayClosing { .. } => true,
        SocketAction::Write { close, .. } => close,
        _ => false,
    }
}

proof fn lemma_one_more_event(socket: SubscriberSocket, events: Seq<SocketEvent>, i: int)
    requires
        0 <= i < events.len(),
    ensures
        socket_after(socket, events.take(i + 1)) == next_socket(
            socket_after(socket, events.take(i)),
            events[i],
        ),
{
    assert(events.take(i + 1).drop_last() =~= events.take(i));
    assert(events.take(i + 1).last() == events[i]);
}

proof fn lemma_fresh_while_idle(
    socket: SubscriberSocket,
    events: Seq<SocketEvent>,
    actions: Seq<SocketAction>,
    i: int,
)
    requires
        socket.stage is Fresh,
        acts_on(socket, events, actions),
        0 <= i <= events.len(),
    ensures
        socket_after(socket, events.take(i)).stage is Fresh ==> forall|j: int|
            0 <= j < i ==> !is_active(#[trigger] actions[j]),
        socket_after(socket, events.take(i)).stage is Open ==> exists|j: int|
            0 <= j < i && is_active(#[trigger] actions[j]),
    decreases i,
{
    if i > 0 {
        lemma_fresh_while_idle(socket, events, actions, i - 1);
        lemma_one_more_event(socket, events, i - 1);
        let before = socket_after(socket, events.take(i - 1));
        assert(reacts(before, events[i - 1], actions[i - 1]));
        if socket_after(socket, events.take(i)).stage is Open {
            if before.stage is Fresh {
                assert(is_active(actions[i - 1]));
            }
        }
    } else {
        assert(events.take(0).len() == 0);
    }
}

/// The welcome comes first, and once: what a connection does first for a subscriber is
/// to welcome it, and what it does later is something else.
pub proof fn the_welcome_comes_first(
    socket: SubscriberSocket,
    events: Seq<SocketEvent>,
    actions: Seq<SocketAction>,
    i: int,
)
    requires
        socket.stage is Fresh,
        acts_on(socket, events, actions),
        0 <= i < events.len(),
        is_active(actions[i]),
    ensures
        actions[i] is Welcome <==> forall|j: int| 0 <= j < i ==> !is_active(#[trigger] actions[j]),
{
    lemma_fresh_while_idle(socket, events, actions, i);
    assert(reacts(socket_after(socket, events.take(i)), events[i], actions[i]));
}

/// Nothing follows the end: once a closing frame was written, or the connection has
/// said that it closes or has left, all that it does is to leave.
pub proof fn nothing_follows_the_end(
    socket: SubscriberSocket,
    events: Seq<SocketEvent>,
    actions: Seq<SocketAction>,
    i: int,
    j: int,
)
    requires
        acts_on(socket, events, actions),
        0 <= i < j < events.len(),
        is_end(actions[i]),
    ensures
        actions[j] is Leave,
{
    lemma_leaving_stays(socket, events, actions, i, j);
    assert(reacts(socket_after(socket, events.take(j)), events[j], actions[j]));
}

proof fn lemma_leaving_stays(
    socket: SubscriberSocket,
    events: Seq<SocketEvent>,
    actions: Seq<SocketAction>,
    i: int,
    j: int,
)
    requires
        acts_on(socket, events, actions),
        0 <= i < j <= events.len(),
        is_end(actions[i]),
    ensures
        socket_after(socket, events.take(j)).stage is Leaving,
    decreases j,
{
    lemma_one_more_event(socket, events, j - 1);
    if j == i + 1 {
        assert(reacts(socket_after(socket, events.take(i)), events[i], actions[i]));
    } else {
        lemma_leaving_stays(socket, events, actions, i, j - 1);
    }
}

/// A subscriber that answers no ping is dropped at the next tick: whatever else
/// happens after a tick, without a pong the connection leaves by the tick that
/// follows.
pub proof fn silence_closes_the_connection(
    socket: SubscriberSocket,
    between: Seq<SocketEvent>,
    action: SocketAction,
)
    requires
        !(socket.stage is Fresh),
        forall|i: int| 0 <= i < between.len() ==> !(#[trigger] between[i] is Pong),
        reacts(
            socket_after(next_socket(socket, SocketEvent::Tick), between),
            SocketEvent::Tick,
            action,
        ),
    ensures
        action is Leave,
{
    lemma_still_awaiting(next_socket(socket, SocketEvent::Tick), between);
}

proof fn lemma_still_awaiting(socket: SubscriberSocket, between: Seq<SocketEvent>)
    requires
        socket.stage is Leaving || (socket.stage is Open && socket.awaiting_pong),
        forall|i: int| 0 <= i < between.len() ==> !(#[trigger] between[i] is Pong),
    ensures
        ({
            let after = socket_after(socket, between);
            after.stage is Leaving || (after.stage is Open && after.awaiting_pong)
        }),
    decreases between.len(),
{
    if between.len() > 0 {
        let head = between.drop_last();
        assert forall|i: int| 0 <= i < head.len() implies !(#[trigger] head[i] is Pong) by {
            assert(head[i] == between[i]);
        }
        lemma_still_awaiting(socket, head);
        assert(!(between[between.len() - 1] is Pong));
    }
}

proof fn lemma_up_to_of_ascending(
    rows: Seq<delivery_log::StampedValue>,
    through_seq: u64,
    row: delivery_log::StampedValue,
)
    requires
        forall|i: int, j: int|
            0 <= i < j < rows.len() ==> (#[trigger] rows[i]).seq < (#[trigger] rows[j]).seq,
    ensures
        up_to(rows, through_seq).contains(row) <==> (rows.contains(row) && row.seq <= through_seq),
    decreases rows.len(),
{
    if rows.len() > 0 {
        let rest = rows.drop_first();
        assert forall|i: int, j: int| 0 <= i < j < rest.len() implies (#[trigger] rest[i]).seq < (
        #[trigger] rest[j]).seq by {
            assert(rest[i] == rows[i + 1] && rest[j] == rows[j + 1]);
        }
        assert(rows.contains(row) <==> (row == rows[0] || rest.contains(row))) by {
            if rows.contains(row) {
                let i = rows.index_of(row);
                if i > 0 {
                    assert(rest[i - 1] == row);
                }
            }
            if rest.contains(row) {
                assert(rows[rest.index_of(row) + 1] == row);
            }
            if row == rows[0] {
                assert(rows.contains(rows[0]));
            }
        }
        if rows[0].seq > through_seq {
            if rows.contains(row) {
                let i = rows.index_of(row);
                if i > 0 {
                    assert(rows[0].seq < rows[i].seq);
                }
            }
        } else {
            lemma_up_to_of_ascending(rest, through_seq, row);
            let tail = up_to(rest, through_seq);
            let whole = seq![rows[0]] + tail;
            if whole.contains(row) {
                let i = whole.index_of(row);
                if i > 0 {
                    assert(tail[i - 1] == row);
                }
            }
            if row == rows[0] {
                assert(whole[0] == row);
            }
            if tail.contains(row) {
                assert(whole[tail.index_of(row) + 1] == row);
            }
        }
    }
}

proof fn lemma_events_after(
    rows: Seq<delivery_log::StampedValue>,
    after_seq: u64,
    patterns: Option<Seq<Seq<char>>>,
    row: delivery_log::StampedValue,
)
    requires
        forall|i: int, j: int|
            0 <= i < j < rows.len() ==> (#[trigger] rows[i]).seq < (#[trigger] rows[j]).seq,
    ensures
        ({
            let read = delivery_log::events_after(rows, after_seq, patterns);
            &&& forall|i: int, j: int|
                0 <= i < j < read.len() ==> (#[trigger] read[i]).seq < (#[trigger] read[j]).seq
            &&& forall|i: int| 0 <= i < read.len() ==> rows.contains(#[trigger] read[i])
            &&& read.contains(row) <==> (rows.contains(row) && row.seq >= delivery_log::next_seq(
                after_seq,
            ) && delivery_log::wanted(patterns, row.channel))
        }),
    decreases rows.len(),
{
    let keep = |r: delivery_log::StampedValue|
        r.seq >= delivery_log::next_seq(after_seq) && delivery_log::wanted(patterns, r.channel);
    reveal(Seq::filter);
    let read = rows.filter(keep);
    if rows.len() > 0 {
        let head = rows.drop_last();
        let last = rows.last();
        assert forall|i: int, j: int| 0 <= i < j < head.len() implies (#[trigger] head[i]).seq < (
        #[trigger] head[j]).seq by {
            assert(head[i] == rows[i] && head[j] == rows[j]);
        }
        lemma_events_after(head, after_seq, patterns, row);
        let before = head.filter(keep);
        assert forall|r: delivery_log::StampedValue| head.contains(r) implies r.seq < last.seq
            && rows.contains(r) by {
            let i = head.index_of(r);
            assert(rows[i] == r);
            assert(rows[i].seq < rows[rows.len() - 1].seq);
        }
        assert(rows.contains(row) <==> (head.contains(row) || row == last)) by {
            if rows.contains(row) {
                let i = rows.index_of(row);
                if i < head.len() {
                    assert(head[i] == row);
                }
            }
            if row == last {
                assert(rows[rows.len() - 1] == row);
            }
        }
        if keep(last) {
            assert(read == before.push(last));
            assert forall|i: int, j: int|
                0 <= i < j < read.len() implies (#[trigger] read[i]).seq < (
            #[trigger] read[j]).seq by {
                assert(read[i] == before[i]);
                assert(head.contains(before[i]));
                if j < before.len() {
                    assert(read[j] == before[j]);
                }
            }
            assert forall|i: int| 0 <= i < read.len() implies rows.contains(#[trigger] read[i]) by {
                if i < before.len() {
                    assert(head.contains(before[i]));
                } else {
                    assert(rows[rows.len() - 1] == read[i]);
                }
            }
            if read.contains(row) {
                let i = read.index_of(row);
                if i < before.len() {
                    assert(before[i] == row);
                }
            }
            if before.contains(row) {
                assert(read[before.index_of(row)] == row);
            }
            if row == last {
                assert(read[before.len() as int] == row);
            }
        } else {
            assert(read == before);
            assert forall|i: int| 0 <= i < read.len() implies rows.contains(#[trigger] read[i]) by {
                assert(head.contains(before[i]));
            }
        }
    }
}

proof fn lemma_up_to_is_front(rows: Seq<delivery_log::StampedValue>, through_seq: u64)
    ensures
        up_to(rows, through_seq).len() <= rows.len(),
        up_to(rows, through_seq) == rows.take(up_to(rows, through_seq).len() as int),
    decreases rows.len(),
{
    let front = up_to(rows, through_seq);
    if rows.len() > 0 && rows[0].seq <= through_seq {
        let rest = rows.drop_first();
        lemma_up_to_is_front(rest, through_seq);
        let tail = up_to(rest, through_seq);
        assert forall|i: int| 0 <= i < front.len() implies front[i] == rows[i] by {
            if i > 0 {
                assert(front[i] == tail[i - 1]);
                assert(rest.take(tail.len() as int)[i - 1] == rows[i]);
            }
        }
    }
    assert(front =~= rows.take(front.len() as int));
}

/// A replay sends events in the order of their numbers, and none twice.
pub proof fn replay_is_ordered(
    rows: Seq<delivery_log::StampedValue>,
    after_seq: u64,
    through_seq: u64,
    patterns: Seq<Seq<char>>,
)
    requires
        forall|i: int, j: int|
            0 <= i < j < rows.len() ==> (#[trigger] rows[i]).seq < (#[trigger] rows[j]).seq,
    ensures
        ({
            let sent = replayed_events(rows, after_seq, through_seq, patterns);
            forall|i: int, j: int|
                0 <= i < j < sent.len() ==> (#[trigger] sent[i]).seq < (#[trigger] sent[j]).seq
        }),
{
    let read = delivery_log::events_after(rows, after_seq, Some(patterns));
    let sent = replayed_events(rows, after_seq, through_seq, patterns);
    lemma_up_to_is_front(read, through_seq);
    assert forall|i: int, j: int| 0 <= i < j < sent.len() implies (#[trigger] sent[i]).seq < (
    #[trigger] sent[j]).seq by {
        lemma_events_after(rows, after_seq, Some(patterns), sent[i]);
        assert(sent[i] == read[i] && sent[j] == read[j]);
    }
}

/// A replay leaves nothing out and adds nothing. The events that it sends are
/// exactly the stored ones after the requested number, up to the head, that the
/// subscriber asked for; and unless a gap is announced, nothing between the
/// requested number and the head has been pruned. An announced gap ends where the
/// stored events begin.
pub proof fn replay_is_complete(
    rows: Seq<delivery_log::StampedValue>,
    after_seq: u64,
    floor: u64,
    head: u64,
    patterns: Seq<Seq<char>>,
    row: delivery_log::StampedValue,
)
    requires
        after_seq < u64::MAX,
        forall|i: int, j: int|
            0 <= i < j < rows.len() ==> (#[trigger] rows[i]).seq < (#[trigger] rows[j]).seq,
        floor == (if rows.len() == 0 {
            0
        } else {
            rows[0].seq
        }),
    ensures
        replayed_events(rows, replay_start(after_seq, floor), head, patterns).contains(row) <==> (
        rows.contains(row) && after_seq < row.seq <= head && channel::selected_by_any(
            patterns,
            row.channel,
        )),
        rows.len() > 0 && !misses_events(after_seq, floor) ==> floor <= after_seq + 1,
        misses_events(after_seq, floor) ==> forall|i: int|
            0 <= i < rows.len() ==> (#[trigger] rows[i]).seq >= floor,
{
    let start = replay_start(after_seq, floor);
    lemma_events_after(rows, start, Some(patterns), row);
    let read = delivery_log::events_after(rows, start, Some(patterns));
    lemma_up_to_of_ascending(read, head, row);
    assert forall|i: int| 0 <= i < rows.len() implies (#[trigger] rows[i]).seq >= floor by {
        if i > 0 {
            assert(rows[0].seq < rows[i].seq);
        }
    }
    if rows.contains(row) {
        let i = rows.index_of(row);
        assert(rows[i].seq >= floor);
    }
}

/// What happens on the way of events to a subscriber.
pub enum PlaneStep {
    /// An event is stored.
    Store { row: delivery_log::StampedValue },
    /// A stored event is fanned out to those who are subscribed.
    FanOut { row: delivery_log::StampedValue },
    /// A subscription becomes active, and the head of the log is read for its replay.
    Subscribe,
}

/// The head of the log after some steps.
pub open spec fn head_after(head: u64, steps: Seq<PlaneStep>) -> u64
    decreases steps.len(),
{
    if steps.len() == 0 {
        head
    } else {
        match steps.last() {
            PlaneStep::Store { row } => row.seq,
            _ => head_after(head, steps.drop_last()),
        }
    }
}

/// Whether events get ascending numbers, and are stored before they are fanned out.
pub open spec fn stored_first(head: u64, steps: Seq<PlaneStep>) -> bool {
    forall|i: int|
        0 <= i < steps.len() ==> match #[trigger] steps[i] {
            PlaneStep::Store { row } => row.seq > head_after(head, steps.take(i)),
            PlaneStep::FanOut { row } => row.seq <= head_after(head, steps.take(i)),
            PlaneStep::Subscribe => true,
        }
}

proof fn lemma_head_ascends(head: u64, steps: Seq<PlaneStep>, i: int, j: int)
    requires
        stored_first(head, steps),
        0 <= i <= j <= steps.len(),
    ensures
        head_after(head, steps.take(i)) <= head_after(head, steps.take(j)),
    decreases j - i,
{
    if i < j {
        lemma_head_ascends(head, steps, i, j - 1);
        assert(steps.take(j).drop_last() =~= steps.take(j - 1));
        assert(steps.take(j).last() == steps[j - 1]);
    }
}

proof fn lemma_more_patterns(held: Seq<Seq<char>>, asked: Seq<Seq<char>>, pattern: Seq<char>)
    requires
        asked.contains(pattern),
    ensures
        subscribers::with_patterns(held, asked).contains(pattern),
    decreases asked.len(),
{
    let before = subscribers::with_patterns(held, asked.drop_last());
    let after = subscribers::with_patterns(held, asked);
    let i = asked.index_of(pattern);
    if i < asked.len() - 1 {
        assert(asked.drop_last()[i] == pattern);
        lemma_more_patterns(held, asked.drop_last(), pattern);
        let k = before.index_of(pattern);
        assert(after[k] == pattern);
    } else if !before.contains(asked.last()) {
        assert(after[before.len() as int] == pattern);
    }
}

/// Replay and live delivery together leave nothing out. A subscription becomes active
/// in the step in which the head of the log is read. An event above the cursor whose
/// channel is asked for is then either among the events of the replay, if its number
/// is up to that head and it is still stored; or it lies beyond that head, is fanned
/// out only once the subscription is active, and is offered to the subscriber's queue.
pub proof fn replay_and_live_leave_nothing_out(
    head: u64,
    steps: Seq<PlaneStep>,
    subscribed: int,
    fanned_out: int,
    row: delivery_log::StampedValue,
    rows: Seq<delivery_log::StampedValue>,
    cursor: u64,
    floor: u64,
    held: Seq<Seq<char>>,
    asked: Seq<Seq<char>>,
    queue: outbound_queue::QueueValue,
    text: Seq<char>,
)
    requires
        stored_first(head, steps),
        0 <= subscribed < steps.len(),
        steps[subscribed] is Subscribe,
        0 <= fanned_out < steps.len(),
        steps[fanned_out] == (PlaneStep::FanOut { row }),
        cursor < row.seq,
        channel::selected_by_any(asked, row.channel),
        forall|i: int, j: int|
            0 <= i < j < rows.len() ==> (#[trigger] rows[i]).seq < (#[trigger] rows[j]).seq,
        forall|i: int| 0 <= i < rows.len() ==> (#[trigger] rows[i]).seq >= floor,
    ensures
        ({
            let through = head_after(head, steps.take(subscribed));
            if row.seq <= through {
                rows.contains(row) ==> replayed_events(
                    rows,
                    replay_start(cursor, floor),
                    through,
                    asked,
                ).contains(row)
            } else {
                &&& subscribed < fanned_out
                &&& subscribers::fanned(
                    queue,
                    subscribers::with_patterns(held, asked),
                    seq![subscribers::DeliveryValue { channel: row.channel, text }],
                ) == queue.with_event(text)
            }
        }),
{
    let through = head_after(head, steps.take(subscribed));
    let start = replay_start(cursor, floor);
    if row.seq <= through {
        if rows.contains(row) {
            let i = rows.index_of(row);
            assert(rows[i].seq >= floor);
            lemma_events_after(rows, start, Some(asked), row);
            let read = delivery_log::events_after(rows, start, Some(asked));
            lemma_up_to_of_ascending(read, through, row);
        }
    } else {
        if fanned_out <= subscribed {
            lemma_head_ascends(head, steps, fanned_out, subscribed);
        }
        let patterns = subscribers::with_patterns(held, asked);
        let delivery = subscribers::DeliveryValue { channel: row.channel, text };
        assert(channel::selected_by_any(patterns, row.channel)) by {
            let k = choose|k: int|
                0 <= k < asked.len() && channel::selects(#[trigger] asked[k], row.channel);
            assert(asked.contains(asked[k]));
            lemma_more_patterns(held, asked, asked[k]);
            let m = patterns.index_of(asked[k]);
            assert(patterns[m] == asked[k]);
        }
        let one = seq![delivery];
        assert(one.drop_last() =~= Seq::<subscribers::DeliveryValue>::empty());
        assert(subscribers::fanned(queue, patterns, one.drop_last()) == queue);
    }
}

/// A replay begins with the acknowledgement. Where stored events begin later than the
/// one after the requested number, it goes on to say so, with the requested number and
/// the first that is stored; where nothing is missing, or nothing is stored, it does
/// not.
pub proof fn replays_announce_what_is_missing(after_seq: u64, floor: u64)
    requires
        after_seq < u64::MAX,
    ensures
        replay_lead(after_seq, floor).len() >= 1,
        replay_lead(after_seq, floor)[0] == (messages::SubServerValue::Acked { op: "subscribe"@ }),
        floor > after_seq + 1 ==> replay_lead(after_seq, floor).len() == 2 && replay_lead(
            after_seq,
            floor,
        )[1] == (messages::SubServerValue::ReplayGap { from_seq: after_seq, earliest_seq: floor })
            && replay_start(after_seq, floor) + 1 == floor,
        floor <= after_seq + 1 ==> replay_lead(after_seq, floor).len() == 1 && replay_start(
            after_seq,
            floor,
        ) == after_seq,
{
}

/// A message carries a stored event whole.
pub proof fn messages_carry_the_event(row: delivery_log::StampedValue)
    ensures
        match event_message(row) {
            messages::SubServerValue::Event { id, seq, ts_ms, channel, payload_b64 } => {
                &&& id == row.id
                &&& seq == row.seq
                &&& ts_ms == row.ts_ms
                &&& channel == row.channel
                &&& payload_b64 == row.payload_b64
            },
            _ => false,
        },
{
}

/// A subscription with valid patterns is always acknowledged. Without a replay that is
/// all; where events are not stored, the replay alone is refused; and otherwise it goes
/// up to the head of the log, with the patterns that were asked for.
pub proof fn subscriptions_are_acknowledged(
    reply: SubscriberReply,
    asked: Seq<Seq<char>>,
    after_seq: u64,
    log: DeliveryLog,
)
    ensures
        replies_to_subscription(reply, asked, None, Some(log)) ==> match reply {
            SubscriberReply::Queue { messages: msgs } => msgs@.len() == 1 && msgs@[0]@ == (
            messages::SubServerValue::Acked { op: "subscribe"@ }),
            _ => false,
        },
        replies_to_subscription(
            reply,
            asked,
            Some(messages::ReplayRequest { after_seq }),
            None,
        ) ==> match reply {
            SubscriberReply::Queue { messages: msgs } => {
                &&& msgs@.len() == 2
                &&& msgs@[0]@ == (messages::SubServerValue::Acked { op: "subscribe"@ })
                &&& match msgs@[1]@ {
                    messages::SubServerValue::Error { op, .. } => op == "replay"@,
                    _ => false,
                }
            },
            _ => false,
        },
        replies_to_subscription(
            reply,
            asked,
            Some(messages::ReplayRequest { after_seq }),
            Some(log),
        ) ==> match reply {
            SubscriberReply::Replay { lead, after_seq: start, through_seq, patterns } => {
                &&& through_seq == log.head
                &&& start >= after_seq
                &&& lead@.len() >= 1
                &&& lead@[0]@ == (messages::SubServerValue::Acked { op: "subscribe"@ })
                &&& patterns@.len() == asked.len()
                &&& forall|i: int|
                    0 <= i < asked.len() ==> (#[trigger] patterns@[i])@ == asked[i]
            },
            _ => false,
        },
{
    let acked = messages::SubServerValue::Acked { op: "subscribe"@ };
    match reply {
        SubscriberReply::Queue { messages: msgs } => {
            let values = messages::server_values(msgs@);
            if replies_to_subscription(reply, asked, None, Some(log)) {
                assert(values[0] == seq![acked][0]);
                assert(values.len() == 1);
                assert(values[0] == msgs@[0]@);
            }
            if replies_to_subscription(
                reply,
                asked,
                Some(messages::ReplayRequest { after_seq }),
                None,
            ) {
                assert(values.len() == 2);
                assert(values[0] == msgs@[0]@);
                assert(values[1] == msgs@[1]@);
            }
        },
        SubscriberReply::Replay { lead, after_seq: _, through_seq: _, patterns } => {
            if replies_to_subscription(
                reply,
                asked,
                Some(messages::ReplayRequest { after_seq }),
                Some(log),
            ) {
                let values = messages::server_values(lead@);
                assert(values == replay_lead(after_seq, log.floor));
                assert(values.len() >= 1);
                assert(values[0] == acked);
                assert(values[0] == lead@[0]@);
                let texts = channel::pattern_texts(patterns@);
                assert(texts == asked);
                assert forall|i: int| 0 <= i < asked.len() implies (#[trigger] patterns@[i])@
                    == asked[i] by {
                    assert(texts[i] == patterns@[i]@);
                }
            }
        },
    }
}

/// An open connection answers a ping with its own bytes, hands a text on as it came,
/// and writes a frame as it was queued, after the count of drops if there is one.
pub proof fn open_connections_pass_things_on(
    socket: SubscriberSocket,
    action: SocketAction,
    text: String,
    payload: Vec<u8>,
    frame: Frame,
    lag: Option<usize>,
)
    requires
        socket.stage is Open,
    ensures
        reacts(socket, SocketEvent::Ping { payload }, action) ==> (action matches SocketAction::SendPong {
            payload: echoed,
        } && echoed@ == payload@),
        reacts(socket, SocketEvent::Text { text }, action) ==> (action matches SocketAction::Handle {
            text: handled,
        } && handled@ == text@),
        reacts(socket, SocketEvent::Frame { lag, frame }, action) ==> (
        action matches SocketAction::Write { lagged, text: written, close } && written@
            == frame.text@ && close == frame.closing && (lag is None <==> lagged is None) && (
        lag is Some ==> lagged == Some(lag->Some_0 as u64))),
        next_socket(socket, SocketEvent::Pong).awaiting_pong == false,
        next_socket(socket, SocketEvent::Ping { payload }) == socket,
        next_socket(socket, SocketEvent::Text { text }) == socket,
{
}

} // verus!
