//! The subscriber's side.

use whdr::client::Client;
use whdr::client_error::{map_connect_error, ClientError, ConnectFailure};
use whdr::connection::{authorization_value, build_request, subscribe_msg, welcomed_name};
use whdr::cursor::MemoryCursorStore;
use whdr::frame::{
    classify, closing_is_fatal, DeliveredEvent, InvalidPayload, WsAction, WsMessage,
};
use whdr::messages::{ClosingReason, SubClientMsg, SubServerMsg};
use whdr::resume::ResumeState;
use whdr::session::{after_session, on_handled, on_message, AfterSession, Hook, Next};
use whdr::subscriber_ws::bearer_token;

fn id(n: u128) -> u128 {
    n
}

fn event(id: u128, seq: u64) -> SubServerMsg {
    SubServerMsg::Event {
        id,
        seq,
        ts_ms: 5,
        channel: "dev.x".to_string(),
        payload_b64: "AA==".to_string(),
    }
}

#[test]
fn skips_seq_at_or_below_cursor() {
    let mut state = ResumeState::new(0, 16);
    assert!(state.should_process(id(1), 1));
    state.record(id(1), 1);
    assert_eq!(state.cursor(), 1);
    assert!(!state.should_process(id(1), 1));
    assert!(!state.should_process(id(99), 1));
    assert!(state.should_process(id(2), 2));
}

#[test]
fn dedups_by_id_across_replay_live_boundary() {
    let mut state = ResumeState::new(5, 16);
    assert!(state.should_process(id(7), 6));
    state.record(id(7), 6);
    assert!(!state.should_process(id(7), 6), "duplicate id skipped");
    assert!(!state.should_process(id(7), 8));
}

#[test]
fn cursor_advances_only_via_record() {
    let mut state = ResumeState::new(10, 16);
    assert!(state.should_process(id(1), 11));
    assert_eq!(state.cursor(), 10);
    state.record(id(1), 11);
    assert_eq!(state.cursor(), 11);
}

#[test]
fn bounded_seen_set_evicts_oldest() {
    let mut state = ResumeState::new(0, 2);
    state.record(id(1), 1);
    state.record(id(2), 2);
    state.record(id(3), 3);
    assert!(!state.should_process(id(1), 1));
    assert!(!state.should_process(id(2), 2));
}

#[test]
fn an_evicted_identifier_counts_as_new_above_the_cursor() {
    let mut state = ResumeState::new(0, 2);
    for n in 1..=3 {
        state.record(id(n), n as u64);
    }
    assert!(state.should_process(id(1), 4));
    assert!(!state.should_process(id(3), 4));
    state.record(id(3), 2);
    assert_eq!(state.cursor(), 3);
    let one = ResumeState::new(0, 0);
    assert!(one.should_process(id(1), 1));
}

#[test]
fn memory_store_round_trips() {
    let mut store = MemoryCursorStore::new(42);
    assert_eq!(store.load(), 42);
    store.save(100);
    assert_eq!(store.load(), 100);
    assert_eq!(store.get(), 100);
    assert_eq!(MemoryCursorStore::default().get(), 0);
}

#[test]
fn subscribe_msg_uses_cursor_as_after_seq() {
    let patterns = vec!["github.>".to_string()];
    match subscribe_msg(&patterns, Some(128)) {
        SubClientMsg::Subscribe { patterns, replay } => {
            assert_eq!(patterns, vec!["github.>".to_string()]);
            assert_eq!(replay.unwrap().after_seq, 128);
        }
        other => panic!("expected subscribe, got {other:?}"),
    }
    match subscribe_msg(&patterns, None) {
        SubClientMsg::Subscribe { replay, .. } => assert!(replay.is_none()),
        other => panic!("expected subscribe, got {other:?}"),
    }
}

#[test]
fn build_request_sets_bearer_header() {
    let request = build_request("ws://127.0.0.1:8788/subscribe", "tok_abc").unwrap();
    let auth = request.headers().get("Authorization").unwrap();
    assert_eq!(auth, "Bearer tok_abc");
    assert_eq!(request.uri().to_string(), "ws://127.0.0.1:8788/subscribe");
    assert_eq!(request.headers().get("Upgrade").unwrap(), "websocket");
    assert_eq!(request.headers().len(), 6);
}

#[test]
fn a_request_needs_an_address_and_a_token_that_fits_a_header() {
    match build_request("ws://127.0.0.1/", "a\nb") {
        Err(ClientError::Request(why)) => assert_eq!(why, "invalid Authorization header value"),
        other => panic!("unexpected {other:?}"),
    }
    assert!(build_request("ws://127.0.0.1/", "a\tb \u{e9}").is_ok());
    assert!(build_request("ws://127.0.0.1/", "\u{7f}").is_err());
    match build_request("/subscribe", "a\nb") {
        Err(ClientError::Request(why)) => assert_eq!(why, "URL error: No host name in the URL"),
        other => panic!("unexpected {other:?}"),
    }
}

#[test]
fn the_token_is_read_from_the_header() {
    assert_eq!(authorization_value("tok_abc"), "Bearer tok_abc");
    assert_eq!(
        bearer_token(Some(authorization_value("tok_abc").as_str())),
        Some("tok_abc".to_string())
    );
}

#[test]
fn maps_401_to_auth_error() {
    assert!(matches!(map_connect_error(ConnectFailure::Http(401)), ClientError::Auth));
    assert!(matches!(map_connect_error(ConnectFailure::Http(503)), ClientError::Http(503)));
    assert_eq!(
        map_connect_error(ConnectFailure::Other("reset".to_string())),
        ClientError::Transport("reset".to_string())
    );
}

#[test]
fn ping_classifies_as_pong() {
    let ping = WsMessage::Ping(vec![1, 2, 3]);
    assert_eq!(classify(&ping), WsAction::Pong(vec![1, 2, 3]));
}

#[test]
fn text_and_close_classify() {
    assert_eq!(
        classify(&WsMessage::Text("hi".to_string())),
        WsAction::Text("hi".to_string())
    );
    assert_eq!(classify(&WsMessage::Close), WsAction::Closed);
    assert_eq!(classify(&WsMessage::Pong(vec![])), WsAction::Ignore);
    assert_eq!(classify(&WsMessage::Binary(vec![1])), WsAction::Ignore);
    assert_eq!(classify(&WsMessage::Frame), WsAction::Ignore);
}

#[test]
fn closing_reason_fatality() {
    assert!(closing_is_fatal(&ClosingReason::Revoked));
    assert!(!closing_is_fatal(&ClosingReason::Shutdown));
}

#[test]
fn delivered_event_decodes_payload() {
    let ev = DeliveredEvent {
        id: 0,
        seq: 1,
        ts_ms: 0,
        channel: "dev.x".to_string(),
        payload_b64: base64::Engine::encode(
            &base64::engine::general_purpose::STANDARD,
            b"hello",
        ),
    };
    assert_eq!(ev.payload().unwrap(), b"hello");
    let broken = DeliveredEvent { payload_b64: "?".to_string(), ..ev };
    assert_eq!(broken.payload(), Err(InvalidPayload));
}

#[test]
fn builder_defaults_and_overrides() {
    let client = Client::builder("ws://x/subscribe".to_string(), "tok_x".to_string())
        .pattern("a.>".to_string())
        .patterns(vec!["b.>".to_string(), "c.>".to_string()])
        .resume_cursor(9)
        .dedup_capacity(4)
        .build();
    assert_eq!(client.patterns, vec!["a.>", "b.>", "c.>"]);
    assert_eq!(client.dedup_capacity, 4);
    assert_eq!(client.cursor_store.load(), 9);
    assert_eq!(client.resume_state().cursor(), 9);
    let plain = Client::builder(String::new(), String::new()).dedup_capacity(0).build();
    assert_eq!(plain.dedup_capacity, 1);
    assert_eq!(
        Client::builder(String::new(), String::new()).build().dedup_capacity,
        8192
    );
}

#[test]
fn explicit_cursor_store_overrides_resume_seed() {
    let client = Client::builder("ws://x/subscribe".to_string(), "tok_x".to_string())
        .resume_cursor(9)
        .cursor_store(MemoryCursorStore::new(500))
        .build();
    assert_eq!(client.cursor_store.load(), 500);
    match client.subscription(500) {
        SubClientMsg::Subscribe { replay, .. } => assert_eq!(replay.unwrap().after_seq, 500),
        other => panic!("unexpected {other:?}"),
    }
}

#[test]
fn a_session_handles_new_events_once() {
    let mut state = ResumeState::new(1, 8);
    let step = on_message(&state, event(10, 2));
    assert_eq!(step.next, Next::Read);
    let handled = match step.hook {
        Some(Hook::Event(e)) => e,
        other => panic!("unexpected {other:?}"),
    };
    assert_eq!((handled.id, handled.seq, handled.ts_ms), (10, 2, 5));
    // Until it has been handled the cursor stays where it is.
    assert_eq!(state.cursor(), 1);
    assert_eq!(on_handled(&mut state, &handled), 2);
    assert_eq!(on_message(&state, event(10, 2)).hook, None);
    assert_eq!(on_message(&state, event(10, 3)).hook, None);
    assert!(on_message(&state, event(11, 3)).hook.is_some());
}

#[test]
fn a_session_follows_the_signals_of_the_router() {
    let state = ResumeState::new(0, 8);
    let step = on_message(&state, SubServerMsg::Replayed { through_seq: 3 });
    assert_eq!((step.hook, step.next), (Some(Hook::Replayed { through_seq: 3 }), Next::Read));
    let step = on_message(&state, SubServerMsg::ReplayGap { from_seq: 1, earliest_seq: 5 });
    assert_eq!(
        (step.hook, step.next),
        (Some(Hook::ReplayGap { from_seq: 1, earliest_seq: 5 }), Next::Read)
    );
    let step = on_message(&state, SubServerMsg::Lagged { dropped: 2 });
    assert_eq!((step.hook, step.next), (Some(Hook::Lagged { dropped: 2 }), Next::Reconnect));
    let refused = SubServerMsg::Error { op: "replay".to_string(), msg: "off".to_string() };
    let step = on_message(&state, refused);
    assert_eq!(
        (step.hook, step.next),
        (Some(Hook::ReplayUnavailable { msg: "off".to_string() }), Next::Read)
    );
    let other = SubServerMsg::Error { op: "subscribe".to_string(), msg: "bad".to_string() };
    assert_eq!(on_message(&state, other).hook, None);
    let shutdown = SubServerMsg::Closing { reason: ClosingReason::Shutdown };
    assert_eq!(on_message(&state, shutdown).next, Next::Reconnect);
    let revoked = SubServerMsg::Closing { reason: ClosingReason::Revoked };
    assert_eq!(on_message(&state, revoked).next, Next::Revoked);
    assert_eq!(on_message(&state, SubServerMsg::Pong).next, Next::Read);
    let welcome = SubServerMsg::Welcome { name: "p".to_string() };
    assert_eq!(welcomed_name(welcome), Some("p".to_string()));
    assert_eq!(welcomed_name(SubServerMsg::Pong), None);
}

#[test]
fn only_fatal_errors_stop_the_subscriber() {
    let fatal = [
        ClientError::Auth,
        ClientError::Revoked,
        ClientError::Handler("h".to_string()),
        ClientError::CursorStore("c".to_string()),
        ClientError::Request("r".to_string()),
    ];
    for e in fatal {
        assert!(e.is_fatal());
        assert!(matches!(after_session(Err(e)), AfterSession::Stop(_)));
    }
    let transient = [
        ClientError::Http(503),
        ClientError::Transport("t".to_string()),
        ClientError::ConnectionClosed,
    ];
    for e in transient {
        assert!(!e.is_fatal());
        assert_eq!(after_session(Err(e)), AfterSession::Reconnect);
    }
    assert_eq!(after_session(Ok(())), AfterSession::Reconnect);
}

#[test]
fn errors_of_the_subscriber_are_reported() {
    assert_eq!(
        ClientError::Auth.message(),
        "authentication failed (HTTP 401): token missing, wrong, or revoked"
    );
    assert_eq!(ClientError::Http(503).message(), "websocket upgrade failed with HTTP 503");
    assert_eq!(ClientError::Revoked.message(), "connection closed by server: token revoked");
    assert_eq!(ClientError::Handler("x".to_string()).message(), "event handler failed: x");
    assert_eq!(ClientError::CursorStore("x".to_string()).message(), "cursor store failed: x");
    assert_eq!(ClientError::Transport("x".to_string()).message(), "websocket transport error: x");
    assert_eq!(ClientError::ConnectionClosed.message(), "connection closed");
    assert_eq!(ClientError::Request("x".to_string()).message(), "invalid connection request: x");
}
