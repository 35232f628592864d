//! Events on their way to the subscribers.

use whdr::channel::Pattern;
use whdr::delivery_log::{read_after, DeliveryLog, Retention, Row, StampedEvent};
use whdr::messages::{
    ClosingReason, Event, ReplayRequest, SubClientMsg, SubServerMsg,
};
use whdr::outbound_queue::{Frame, OutboundQueue};
use whdr::resume::ResumeState;
use whdr::subscriber_ws::{
    bearer_token, event_frame, handle_subscriber_msg, replay_frames, step_connection, SocketAction,
    SocketEvent, SubscriberReply, SubscriberSocket,
};
use whdr::subscribers::{Delivery, SubscriberRegistration, SubscriberRegistry};

const PONG: &str = r#"{"type":"pong"}"#;

fn event(text: &str) -> String {
    text.to_string()
}

fn ev(channel: &str, payload_b64: &str) -> Event {
    Event { channel: channel.to_string(), payload_b64: payload_b64.to_string() }
}

fn pattern(text: &str) -> Pattern {
    Pattern::new(text.to_string()).unwrap()
}

// The queue of a subscriber

#[test]
fn pop_returns_frames_in_order() {
    let mut queue = OutboundQueue::new(8, 1024);
    queue.push_event(event("one"));
    queue.push_control(PONG.to_string(), false);

    assert_eq!(queue.pop().unwrap().text, "one");
    assert_eq!(queue.pop().unwrap().text, PONG);
    assert_eq!(queue.delivered(), 1);
    assert_eq!(queue.pop(), None);
}

#[test]
fn count_overflow_evicts_oldest_event() {
    let mut queue = OutboundQueue::new(2, 1024);
    queue.push_event(event("a"));
    queue.push_event(event("b"));
    queue.push_event(event("c"));

    assert_eq!(queue.pop().unwrap().text, "b");
    assert_eq!(queue.pop().unwrap().text, "c");
    assert_eq!(queue.dropped(), 1);
}

#[test]
fn byte_overflow_evicts_oldest_until_incoming_fits() {
    let mut queue = OutboundQueue::new(64, 10);
    queue.push_event(event("aaaa"));
    queue.push_event(event("bbbb"));
    queue.push_event(event("cccccc"));

    assert_eq!(queue.pop().unwrap().text, "bbbb");
    assert_eq!(queue.pop().unwrap().text, "cccccc");
    assert_eq!(queue.dropped(), 1);
}

#[test]
fn oversized_event_is_rejected_not_queued() {
    let mut queue = OutboundQueue::new(64, 10);
    queue.push_event(event("this frame is far too large"));

    assert_eq!(queue.dropped(), 1);
    queue.push_event(event("fits"));
    assert_eq!(queue.pop().unwrap().text, "fits");
}

#[test]
fn eviction_records_pending_lag_once_until_taken() {
    let mut queue = OutboundQueue::new(1, 1 << 20);
    queue.push_event(event("a"));
    queue.push_event(event("b"));
    queue.push_event(event("c"));
    assert_eq!(queue.take_pending_lag(), Some(2));
    assert_eq!(queue.take_pending_lag(), None, "coalesced; cleared after take");
}

#[test]
fn control_frames_are_never_evicted() {
    let mut queue = OutboundQueue::new(1, 4);
    queue.push_control(PONG.to_string(), false);
    queue.push_event(event("x"));
    queue.push_event(event("y"));

    assert_eq!(queue.pop().unwrap().text, PONG);
    assert_eq!(queue.pop().unwrap().text, "y");
    assert_eq!(queue.dropped(), 1);
}

#[test]
fn closing_control_frame_is_flagged() {
    let mut queue = OutboundQueue::new(8, 1024);
    queue.push_control(r#"{"type":"closing","reason":"shutdown"}"#.to_string(), true);
    let frame = queue.pop().unwrap();
    assert!(frame.closing);
    assert!(!frame.is_event);
}

#[test]
fn every_event_is_delivered_dropped_or_waiting() {
    let mut queue = OutboundQueue::new(3, 20);
    for n in 0..50usize {
        queue.push_event("x".repeat(n % 23));
        if n % 7 == 0 {
            queue.pop();
        }
    }
    let mut waiting = 0;
    while queue.pop().is_some() {
        waiting += 1;
    }
    assert!(waiting <= 3);
    assert_eq!(queue.delivered() + queue.dropped(), 50);
}

// The log

const LIMITS: Retention =
    Retention { retention_secs: 86_400, max_bytes: 1 << 30, max_events: 1_000_000 };

/// A log in memory: the counters, and the rows that a store would hold.
struct Log {
    counters: DeliveryLog,
    rows: Vec<StampedEvent>,
}

fn copy(row: &StampedEvent) -> StampedEvent {
    StampedEvent {
        seq: row.seq,
        id: row.id,
        ts_ms: row.ts_ms,
        channel: row.channel.clone(),
        payload_b64: row.payload_b64.clone(),
    }
}

impl Log {
    fn open(rows: Vec<StampedEvent>, limits: Retention) -> Log {
        Log::reopen(rows, 0, limits)
    }

    fn reopen(rows: Vec<StampedEvent>, last_head: u64, limits: Retention) -> Log {
        let sizes = Log::sizes(&rows);
        Log { counters: DeliveryLog::recover(&sizes, last_head, limits), rows }
    }

    fn sizes(rows: &[StampedEvent]) -> Vec<Row> {
        rows.iter().map(|r| Row { seq: r.seq, bytes: 10, ts_ms: r.ts_ms }).collect()
    }

    fn append(&mut self, events: Vec<Event>, ts_ms: u64) -> Vec<u64> {
        let stamped = self.counters.stamp(events, ts_ms);
        self.counters.commit(&stamped, 10 * stamped.len() as u64);
        let seqs = stamped.iter().map(|e| e.seq).collect();
        self.rows.extend(stamped);
        seqs
    }

    fn prune(&mut self, now_ms: u64) -> u64 {
        let sizes = Log::sizes(&self.rows);
        let pruned = self.counters.prune(&sizes, now_ms);
        self.rows.drain(..pruned as usize);
        pruned
    }

    fn read(&self, after_seq: u64, patterns: Option<&[Pattern]>) -> Vec<StampedEvent> {
        read_after(self.rows.iter().map(copy).collect(), after_seq, patterns)
    }

    fn seqs(&self) -> Vec<u64> {
        self.read(0, None).iter().map(|e| e.seq).collect()
    }
}

#[test]
fn append_assigns_contiguous_seq_and_reads_back_in_order() {
    let mut log = Log::open(vec![], LIMITS);
    let a = log.append(vec![ev("dev.one", "MQ=="), ev("dev.two", "Mg==")], 1);
    assert_eq!(a[0], 1);
    assert_eq!(a[1], 2);
    let b = log.append(vec![ev("dev.three", "Mw==")], 2);
    assert_eq!(b[0], 3);

    let read = log.read(0, None);
    assert_eq!(read.iter().map(|e| e.seq).collect::<Vec<_>>(), vec![1, 2, 3]);
    assert_eq!(read[0].id, log.rows[0].id);
}

#[test]
fn seq_resumes_across_reopen() {
    let mut log = Log::open(vec![], LIMITS);
    log.append(vec![ev("dev.one", "MQ==")], 1);
    let mut log = Log::open(log.rows, LIMITS);
    let next = log.append(vec![ev("dev.two", "Mg==")], 2);
    assert_eq!(next[0], 2, "seq must not reset on reopen");
    assert_eq!(log.counters.floor, 1);
    assert_eq!(log.counters.head, 2);
}

#[test]
fn seq_resumes_after_everything_was_pruned() {
    let limits = Retention { retention_secs: 1, max_bytes: 1_000_000, max_events: 1_000_000 };
    let mut log = Log::open(vec![], limits);
    assert_eq!(log.append(vec![ev("dev.one", "MQ=="), ev("dev.two", "Mg==")], 0), vec![1, 2]);
    let mut state = ResumeState::new(0, 8);
    for row in &log.rows {
        assert!(state.should_process(row.id, row.seq));
        state.record(row.id, row.seq);
    }
    assert_eq!(log.prune(10_000), 2);
    assert!(log.rows.is_empty());

    let head = log.counters.head;
    assert_eq!(head, 2);
    let mut log = Log::reopen(log.rows, head, limits);
    assert_eq!(log.counters.head, 2);
    assert_eq!(log.counters.floor, 0);
    assert_eq!(log.append(vec![ev("dev.three", "Mw==")], 11_000), vec![3]);
    assert_eq!(log.counters.floor, 3);
    let new = &log.rows[0];
    assert!(state.should_process(new.id, new.seq), "a later event is new");
}

#[test]
fn the_larger_of_the_stored_head_and_the_last_row_counts() {
    let row = |seq| Row { seq, bytes: 10, ts_ms: 0 };
    assert_eq!(DeliveryLog::recover(&[], 7, LIMITS).head, 7);
    assert_eq!(DeliveryLog::recover(&[row(3), row(4)], 0, LIMITS).head, 4);
    assert_eq!(DeliveryLog::recover(&[row(3), row(4)], 9, LIMITS).head, 9);
    assert_eq!(DeliveryLog::recover(&[row(3), row(4)], 2, LIMITS).head, 4);
}

#[test]
fn prune_by_ttl_drops_old_events_and_raises_floor() {
    let mut log = Log::open(vec![], LIMITS);
    let base = 1_000_000_000_000u64;
    log.append(vec![ev("dev.old", "MQ==")], base);
    log.append(vec![ev("dev.new", "Mg==")], base + 100_000_000);
    let now = base + 100_000_000 + 86_400_000 + 1;
    let pruned = log.prune(now);
    assert_eq!(pruned, 1);
    assert_eq!(log.counters.floor, 2);
    assert_eq!(log.seqs(), vec![2]);
}

#[test]
fn prune_by_max_events_keeps_newest() {
    let mut log = Log::open(vec![], Retention { max_events: 2, ..LIMITS });
    for i in 0..5 {
        log.append(vec![ev("dev.x", "MQ==")], 1_000 + i);
    }
    log.prune(1_010);
    assert_eq!(log.seqs(), vec![4, 5], "only newest max_events survive");
}

#[test]
fn prune_by_bytes_keeps_newest() {
    let mut log = Log::open(vec![], Retention { max_bytes: 25, ..LIMITS });
    for _ in 0..4 {
        log.append(vec![ev("dev.x", "MQ==")], 1_000);
    }
    assert_eq!(log.prune(1_000), 2);
    assert_eq!(log.counters.retained_bytes, 20);
    assert_eq!(log.counters.retained_count, 2);
    assert_eq!(log.counters.floor, 3);
}

#[test]
fn read_after_filters_by_patterns() {
    let mut log = Log::open(vec![], LIMITS);
    log.append(vec![ev("github.push", "MQ=="), ev("stripe.charge", "Mg==")], 1);
    let pats = vec![pattern("github.>")];
    let got = log.read(0, Some(&pats));
    assert_eq!(got.len(), 1);
    assert_eq!(got[0].channel, "github.push");
    assert!(log.read(1, Some(&pats)).is_empty());
}

#[test]
fn identifiers_of_stored_events_are_random() {
    let mut log = Log::open(vec![], LIMITS);
    log.append(vec![ev("dev.a", ""), ev("dev.b", "")], 1);
    let (a, b) = (log.rows[0].id, log.rows[1].id);
    assert_ne!(a, b);
    assert_eq!((a >> 76) & 0xf, 4);
    assert_eq!((a >> 62) & 0x3, 2);
}

// The subscribers

fn join(registry: &mut SubscriberRegistry, name: &str, queue: OutboundQueue) -> u64 {
    registry.insert(SubscriberRegistration { name: name.to_string(), remote_addr: None, queue })
}

fn delivery(channel: &str, text: &str) -> Delivery {
    Delivery { channel: channel.to_string(), text: text.to_string() }
}

#[test]
fn subscribe_deduplicates_and_unsubscribe_removes_patterns() {
    let mut registry = SubscriberRegistry::new();
    let id = join(&mut registry, "project", OutboundQueue::new(1, 1024));

    registry.subscribe(id, &["github.>".to_string(), "github.>".to_string()]).unwrap();

    let snapshots = registry.snapshots();
    assert_eq!(snapshots[0].patterns, vec!["github.>".to_string()]);

    registry.unsubscribe(id, &["github.>".to_string()]);

    let snapshots = registry.snapshots();
    assert_eq!(snapshots[0].patterns, Vec::<String>::new());
}

#[test]
fn fanout_tracks_delivered_and_dropped_events() {
    let mut registry = SubscriberRegistry::new();
    let id = join(&mut registry, "project", OutboundQueue::new(1, 1024));
    registry.subscribe(id, &["dev.>".to_string()]).unwrap();

    registry.fanout(&[delivery("dev.one", "1"), delivery("dev.two", "2")]);

    let (lag, frame) = registry.next_frame(id).unwrap();
    assert_eq!(lag, Some(1));
    assert_eq!(frame.text, "2");
    let snapshots = registry.snapshots();
    assert_eq!(snapshots[0].delivered, 1);
    assert_eq!(snapshots[0].dropped, 1);
}

#[test]
fn fanout_stamps_one_id_shared_by_all_subscribers() {
    let mut registry = SubscriberRegistry::new();
    let mut ids = Vec::new();
    for name in ["a", "b"] {
        let id = join(&mut registry, name, OutboundQueue::new(4, 1024));
        registry.subscribe(id, &["dev.>".to_string()]).unwrap();
        ids.push(id);
    }

    let stamped = registry.stamp(vec![ev("dev.one", "MQ==")], 77);
    assert!(stamped[0].ts_ms > 0);
    assert_eq!(stamped[0].seq, 1);
    let text = format!("{}", stamped[0].id);
    registry.fanout(&[Delivery { channel: stamped[0].channel.clone(), text: text.clone() }]);

    for id in ids {
        assert_eq!(registry.next_frame(id).unwrap().1.text, text);
    }
}

#[test]
fn active_connection_counts_groups_by_name() {
    let mut registry = SubscriberRegistry::new();
    for name in ["project", "project", "other"] {
        join(&mut registry, name, OutboundQueue::new(1, 1024));
    }

    let counts = registry.active_connection_counts();
    assert_eq!(counts.get("project"), Some(&2));
    assert_eq!(counts.get("other"), Some(&1));
}

#[test]
fn overlapping_patterns_deliver_an_event_once() {
    let mut registry = SubscriberRegistry::new();
    let id = join(&mut registry, "p", OutboundQueue::new(9, 1024));
    registry.subscribe(id, &["dev.>".to_string(), "dev.*".to_string(), ">".to_string()]).unwrap();
    registry.fanout(&[delivery("dev.x", "once"), delivery("Bad", "never")]);
    assert_eq!(registry.next_frame(id).unwrap().1.text, "once");
    assert_eq!(registry.next_frame(id), None);
}

#[test]
fn a_bad_pattern_changes_nothing() {
    let mut registry = SubscriberRegistry::new();
    let id = join(&mut registry, "p", OutboundQueue::new(9, 1024));
    let r = registry.subscribe(id, &["dev.>".to_string(), "a..b".to_string()]);
    assert_eq!(r, Err("invalid pattern: empty token".to_string()));
    assert!(registry.snapshots()[0].patterns.is_empty());
}

#[test]
fn connections_are_asked_to_close() {
    let mut registry = SubscriberRegistry::new();
    let a = join(&mut registry, "a", OutboundQueue::new(1, 9));
    let b = join(&mut registry, "b", OutboundQueue::new(1, 9));
    registry.close_named("a", ClosingReason::Revoked);
    assert_eq!(registry.closing(a), Some(ClosingReason::Revoked));
    assert_eq!(registry.closing(b), None);
    registry.close_all(ClosingReason::Shutdown);
    assert_eq!(registry.closing(b), Some(ClosingReason::Shutdown));
    registry.remove(a);
    registry.remove(b);
    assert!(registry.is_empty());
}

// The connection of a subscriber

#[test]
fn bearer_tokens_are_read() {
    assert_eq!(bearer_token(Some("Bearer tok_x")), Some("tok_x".to_string()));
    assert_eq!(bearer_token(Some("bearer tok_x")), None);
    assert_eq!(bearer_token(Some("Bearer")), None);
    assert_eq!(bearer_token(None), None);
}

fn subscribe(patterns: &[&str], after_seq: Option<u64>) -> SubClientMsg {
    SubClientMsg::Subscribe {
        patterns: patterns.iter().map(|p| p.to_string()).collect(),
        replay: after_seq.map(|after_seq| ReplayRequest { after_seq }),
    }
}

fn queued(reply: SubscriberReply) -> Vec<SubServerMsg> {
    match reply {
        SubscriberReply::Queue { messages } => messages,
        SubscriberReply::Replay { .. } => panic!("expected no replay"),
    }
}

fn acked(op: &str) -> SubServerMsg {
    SubServerMsg::Acked { op: op.to_string() }
}

#[test]
fn messages_of_subscribers_are_answered() {
    let mut registry = SubscriberRegistry::new();
    let id = join(&mut registry, "p", OutboundQueue::new(9, 1024));
    let reply = handle_subscriber_msg(&mut registry, id, subscribe(&["dev.>"], None), None);
    assert_eq!(queued(reply), vec![acked("subscribe")]);
    let reply = handle_subscriber_msg(&mut registry, id, SubClientMsg::Ping, None);
    assert_eq!(queued(reply), vec![SubServerMsg::Pong]);
    let gone = SubClientMsg::Unsubscribe { patterns: vec!["dev.>".to_string()] };
    let reply = handle_subscriber_msg(&mut registry, id, gone, None);
    assert_eq!(queued(reply), vec![acked("unsubscribe")]);
    let reply = handle_subscriber_msg(&mut registry, id, subscribe(&["a..b"], None), None);
    assert_eq!(
        queued(reply),
        vec![SubServerMsg::Error {
            op: "subscribe".to_string(),
            msg: "invalid pattern: empty token".to_string(),
        }]
    );
}

#[test]
fn replay_is_refused_without_a_log() {
    let mut registry = SubscriberRegistry::new();
    let id = join(&mut registry, "p", OutboundQueue::new(9, 1024));
    let reply = handle_subscriber_msg(&mut registry, id, subscribe(&["dev.>"], Some(0)), None);
    assert_eq!(
        queued(reply),
        vec![
            acked("subscribe"),
            SubServerMsg::Error {
                op: "replay".to_string(),
                msg: "durable delivery is not enabled".to_string(),
            },
        ]
    );
    assert_eq!(registry.snapshots()[0].patterns, vec!["dev.>".to_string()]);
}

fn replayed(log: &Log, patterns: &[&str], after: u64) -> Vec<SubServerMsg> {
    let mut registry = SubscriberRegistry::new();
    let id = join(&mut registry, "p", OutboundQueue::new(9, 1024));
    let msg = subscribe(patterns, Some(after));
    match handle_subscriber_msg(&mut registry, id, msg, Some(&log.counters)) {
        SubscriberReply::Replay { lead, after_seq, through_seq, patterns } => {
            let rows = log.rows.iter().map(copy).collect();
            replay_frames(lead, rows, after_seq, through_seq, &patterns)
        }
        SubscriberReply::Queue { .. } => panic!("expected a replay"),
    }
}

#[test]
fn a_replay_sends_what_was_missed_and_says_where_it_ends() {
    let mut log = Log::open(vec![], LIMITS);
    log.append(vec![ev("dev.a", "MQ=="), ev("x.b", "Mg=="), ev("dev.c", "Mw==")], 5);
    let frames = replayed(&log, &["dev.>"], 0);
    assert_eq!(
        frames,
        vec![
            acked("subscribe"),
            event_frame(&log.rows[0]),
            event_frame(&log.rows[2]),
            SubServerMsg::Replayed { through_seq: 3 },
        ]
    );
    assert_eq!(
        replayed(&log, &["dev.>"], 2),
        vec![
            acked("subscribe"),
            event_frame(&log.rows[2]),
            SubServerMsg::Replayed { through_seq: 3 },
        ]
    );
    assert_eq!(
        replayed(&log, &["dev.>"], u64::MAX),
        vec![acked("subscribe"), SubServerMsg::Replayed { through_seq: 3 }]
    );
}

#[test]
fn a_replay_below_the_floor_announces_the_gap() {
    let mut log = Log::open(vec![], Retention { max_events: 1, ..LIMITS });
    for _ in 0..5 {
        log.append(vec![ev("dev.a", "MQ==")], 5);
    }
    log.prune(5);
    assert_eq!(
        replayed(&log, &[">"], 1),
        vec![
            acked("subscribe"),
            SubServerMsg::ReplayGap { from_seq: 1, earliest_seq: 5 },
            event_frame(&log.rows[0]),
            SubServerMsg::Replayed { through_seq: 5 },
        ]
    );
    // Nothing is missing where the next event is stored.
    assert_eq!(replayed(&log, &[">"], 4).len(), 3);
}

fn opened() -> SubscriberSocket {
    let mut socket = SubscriberSocket::new();
    match socket.step(SocketEvent::Opened { name: "alice".to_string() }) {
        SocketAction::Welcome { name } => assert_eq!(name, "alice"),
        other => panic!("unexpected {other:?}"),
    }
    socket
}

#[test]
fn a_silent_connection_is_closed() {
    let mut socket = opened();
    assert!(matches!(socket.step(SocketEvent::Tick), SocketAction::SendPing));
    assert!(matches!(socket.step(SocketEvent::Other), SocketAction::Wait));
    assert!(matches!(socket.step(SocketEvent::Tick), SocketAction::Leave));

    let mut socket = opened();
    socket.step(SocketEvent::Tick);
    assert!(matches!(socket.step(SocketEvent::Pong), SocketAction::Wait));
    assert!(matches!(socket.step(SocketEvent::Tick), SocketAction::SendPing));
}

#[test]
fn a_connection_answers_and_writes() {
    let mut socket = opened();
    match socket.step(SocketEvent::Ping { payload: vec![1, 2] }) {
        SocketAction::SendPong { payload } => assert_eq!(payload, vec![1, 2]),
        other => panic!("unexpected {other:?}"),
    }
    match socket.step(SocketEvent::Text { text: "t".to_string() }) {
        SocketAction::Handle { text } => assert_eq!(text, "t"),
        other => panic!("unexpected {other:?}"),
    }
    let frame = Frame { text: "f".to_string(), closing: false, is_event: true };
    match socket.step(SocketEvent::Frame { lag: Some(3), frame }) {
        SocketAction::Write { lagged, text, close } => {
            assert_eq!((lagged, text.as_str(), close), (Some(3), "f", false));
        }
        other => panic!("unexpected {other:?}"),
    }
    let nothing = SocketEvent::CloseAsked { reason: None };
    assert!(matches!(socket.step(nothing), SocketAction::Wait));
    assert!(matches!(socket.step(SocketEvent::Done), SocketAction::Wait));
    assert!(!socket.is_leaving());
}

#[test]
fn the_first_frame_is_the_welcome() {
    let mut socket = SubscriberSocket::new();
    assert!(matches!(socket.step(SocketEvent::Tick), SocketAction::Wait));
    let ping = SocketEvent::Ping { payload: vec![1] };
    assert!(matches!(socket.step(ping), SocketAction::Wait));
    match socket.step(SocketEvent::Opened { name: "bob".to_string() }) {
        SocketAction::Welcome { name } => assert_eq!(name, "bob"),
        other => panic!("unexpected {other:?}"),
    }
    let again = SocketEvent::Opened { name: "bob".to_string() };
    assert!(matches!(socket.step(again), SocketAction::Wait));
}

#[test]
fn nothing_follows_a_closing_frame() {
    let closing = |reason| SocketEvent::CloseAsked { reason: Some(reason) };
    let frame = Frame { text: "f".to_string(), closing: true, is_event: false };

    let mut socket = opened();
    match socket.step(SocketEvent::Frame { lag: None, frame }) {
        SocketAction::Write { lagged, text, close } => {
            assert_eq!((lagged, text.as_str(), close), (None, "f", true));
        }
        other => panic!("unexpected {other:?}"),
    }
    assert!(socket.is_leaving());
    assert!(matches!(socket.step(closing(ClosingReason::Shutdown)), SocketAction::Leave));
    assert!(matches!(socket.step(SocketEvent::Tick), SocketAction::Leave));

    let mut socket = opened();
    match socket.step(closing(ClosingReason::Revoked)) {
        SocketAction::SayClosing { reason } => assert_eq!(reason, ClosingReason::Revoked),
        other => panic!("unexpected {other:?}"),
    }
    assert!(matches!(socket.step(SocketEvent::Done), SocketAction::Leave));

    for end in [SocketEvent::Ended, SocketEvent::RegistryGone, SocketEvent::Failed] {
        let mut socket = opened();
        assert!(matches!(socket.step(end), SocketAction::Leave));
        let ping = SocketEvent::Ping { payload: vec![] };
        assert!(matches!(socket.step(ping), SocketAction::Leave));
    }
}

#[test]
fn a_connection_that_leaves_is_not_registered_any_more() {
    let mut registry = SubscriberRegistry::new();
    let alice = join(&mut registry, "alice", OutboundQueue::new(4, 1000));
    let bob = join(&mut registry, "bob", OutboundQueue::new(4, 1000));
    let mut socket = opened();
    let ping = SocketEvent::Ping { payload: vec![] };
    let action = step_connection(&mut registry, alice, &mut socket, ping);
    assert!(matches!(action, SocketAction::SendPong { .. }));
    assert_eq!(registry.snapshots().len(), 2);
    let action = step_connection(&mut registry, alice, &mut socket, SocketEvent::Ended);
    assert!(matches!(action, SocketAction::Leave));
    assert_eq!(registry.snapshots().len(), 1);
    assert!(registry.subscribe(bob, &["a.b".to_string()]).is_ok());
}
