//! The router: registration, dispatch, supervision and what it shows.

use whdr::channel_claims::{
    filter_owned_events, first_channel_segment, validate_emitted_channel, validate_path_claim,
    validate_registration_claims, ClaimError,
};
use whdr::config::{
    BindAddr, Config, DeliveryConfig, ExtensionsConfig, IpAddress, LimitsConfig, ServerConfig,
    SubscribersConfig, TimeoutsConfig,
};
use whdr::daemon::{Daemon, EventStats, StartError};
use whdr::discovery::{candidate_id, discover_extensions, is_executable, FoundFile};
use whdr::dispatch::{DispatchTicket, ReaderAction, WebhookRequest};
use whdr::dispatch_window::{
    release_in_flight, reserve_in_flight, DispatchReservation, DispatchWait, DispatchWindow,
};
use whdr::extension_registration::{
    read_registration, ExtensionRegistration, FirstLine, Registering, RegistrationError,
};
use whdr::ingest::{
    accept_request, collect_headers, reply_headers, reply_status, route_key_from_path, server_reply,
    DispatchError, Header, ServerReply,
};
use whdr::json::{parse, Json};
use whdr::messages::{Event, ExtMsg, HttpReply, LogLevel, SrvMsg};
use whdr::metrics::render_prometheus;
use whdr::string_map::StringMap;
use whdr::subscribers::SubscriberSnapshot;
use whdr::supervisor::{
    exit_reason, next_stop, shutdown_wait_ms, AfterExit, ExitCause, StopAction, StopLook, StopStage,
    StopStep,
    INITIAL_RESPAWN_BACKOFF_MS, MAX_RESPAWN_BACKOFF_MS,
};

fn texts(list: &[&str]) -> Vec<String> {
    list.iter().map(|s| s.to_string()).collect()
}

fn map(pairs: &[(&str, &str)]) -> StringMap<String> {
    let mut map: StringMap<String> = StringMap::new();
    for (key, value) in pairs {
        map.insert(key.to_string(), value.to_string());
    }
    map
}

fn ev(channel: &str) -> Event {
    Event { channel: channel.to_string(), payload_b64: "AA==".to_string() }
}

fn loopback() -> BindAddr {
    BindAddr { ip: IpAddress::V4([127, 0, 0, 1]), port: 0 }
}

fn test_config() -> Config {
    Config {
        server: ServerConfig {
            listen_addr: loopback(),
            sub_addr: loopback(),
            control_socket: "/t/ctl.sock".to_string(),
            metrics_addr: None,
        },
        subscribers: SubscribersConfig::default(),
        extensions: ExtensionsConfig::default(),
        limits: LimitsConfig {
            dispatch_timeout_ms: 250,
            crashloop_threshold: 20,
            ..LimitsConfig::default()
        },
        timeouts: TimeoutsConfig { register_ms: 500, drain_ms: 100, term_grace_ms: 50 },
        delivery: DeliveryConfig::default(),
        secrets_file: None,
        secrets: map(&[("dev", "s3cret")]),
    }
}

fn router(config: Config) -> Daemon {
    match Daemon::new(config) {
        Ok(daemon) => daemon,
        Err(err) => panic!("{}", err.message()),
    }
}

fn registration(id: &str, paths: &[&str], channels: &[&str]) -> ExtensionRegistration {
    ExtensionRegistration {
        id: id.to_string(),
        paths: texts(paths),
        channels: texts(channels),
        dropped_events: 0,
    }
}

fn start(daemon: &mut Daemon, id: &str) -> u128 {
    let reg = registration(id, &[], &[]);
    daemon.register(id, "/bin/whdr-ext", reg, Some(1)).unwrap()
}

fn webhook() -> WebhookRequest {
    WebhookRequest {
        method: "POST".to_string(),
        path: "/dev".to_string(),
        query: None,
        headers: StringMap::new(),
        body: b"{}".to_vec(),
    }
}

fn begin(daemon: &mut Daemon, key: &str) -> (DispatchTicket, SrvMsg) {
    match daemon.begin_dispatch(key, webhook()) {
        Ok(pair) => pair,
        Err(e) => panic!("{e:?}"),
    }
}

fn answer(req_id: u128, events: Vec<Event>) -> ExtMsg {
    ExtMsg::Result {
        req_id,
        http: HttpReply { status: 204, headers: StringMap::new(), body: String::new() },
        events,
    }
}

// Requests

#[test]
fn route_key_uses_first_non_empty_path_segment() {
    assert_eq!(route_key_from_path("/github/hooks"), Some("github".to_string()));
    assert_eq!(route_key_from_path("teams"), Some("teams".to_string()));
    assert_eq!(route_key_from_path("/"), None);
    assert_eq!(route_key_from_path(""), None);
}

#[test]
fn requests_are_accepted_or_refused() {
    assert_eq!(accept_request("//dev/x", 10, 10), Ok("dev".to_string()));
    let too_large = accept_request("/dev", 11, 10).unwrap_err();
    assert_eq!((too_large.status, too_large.retry_after), (413, false));
    let no_route = accept_request("/", 0, 10).unwrap_err();
    assert_eq!(no_route.status, 404);
}

#[test]
fn each_dispatch_error_has_its_status() {
    let reply = |e| {
        let ServerReply { status, retry_after } = server_reply(e);
        (status, retry_after)
    };
    assert_eq!(reply(DispatchError::Busy), (429, false));
    assert_eq!(reply(DispatchError::Starting), (503, true));
    assert_eq!(reply(DispatchError::Failed), (503, false));
    assert_eq!(reply(DispatchError::Timeout), (504, false));
    assert_eq!(reply(DispatchError::Dead), (503, false));
    assert_eq!(reply(DispatchError::NotFound), (404, false));
    assert_eq!(reply_status(204), 204);
    assert_eq!(reply_status(99), 500);
    assert_eq!(reply_status(999), 999);
    assert_eq!(reply_status(1000), 500);
}

#[test]
fn headers_are_collected() {
    let header = |name: &str, value: Option<&str>| Header {
        name: name.to_string(),
        value: value.map(|v| v.to_string()),
    };
    let collected = collect_headers(&[
        header("a", Some("1")),
        header("b", None),
        header("a", Some("2")),
    ]);
    assert_eq!(collected.len(), 1);
    assert_eq!(collected.get("a").map(String::as_str), Some("2"));
}

#[test]
fn only_headers_that_http_can_carry_go_out() {
    let sent = reply_headers(&map(&[
        ("Content-Type", "text/plain"),
        ("X-A", "1"),
        ("bad name", "2"),
        ("", "3"),
        ("line", "a\nb"),
        ("tab", "a\tb"),
        ("x-a", "4"),
        ("n\u{e9}", "5"),
    ]));
    assert_eq!(sent.len(), 3);
    assert_eq!(sent.get("content-type").map(String::as_str), Some("text/plain"));
    assert_eq!(sent.get("tab").map(String::as_str), Some("a\tb"));
    assert_eq!(sent.get("x-a").map(String::as_str), Some("4"));
    assert_eq!(reply_headers(&map(&[(&"a".repeat(65_535), "1")])).len(), 1);
    assert_eq!(reply_headers(&map(&[(&"a".repeat(65_536), "1")])).len(), 0);
}

// Claims

#[test]
fn registration_rejects_channel_prefix_that_collides_with_existing_route() {
    let routes = map(&[("github", "github")]);
    let prefixes: StringMap<String> = StringMap::new();

    let err = validate_registration_claims(
        "teams",
        &texts(&["teams"]),
        &texts(&["github.notifications"]),
        &routes,
        &prefixes,
    )
    .unwrap_err();

    assert!(err
        .message()
        .contains("channel prefix github.notifications collides with route github"));
}

#[test]
fn emitted_event_channel_must_be_valid_and_owned() {
    let registered_prefixes = texts(&["alerts.ops"]);

    assert!(validate_emitted_channel(
        "teams.message",
        "teams",
        &texts(&["teams"]),
        &registered_prefixes
    )
    .is_ok());
    assert!(validate_emitted_channel(
        "alerts.ops.high",
        "teams",
        &texts(&["teams"]),
        &registered_prefixes
    )
    .is_ok());

    let err = validate_emitted_channel(
        "github.push",
        "teams",
        &texts(&["teams"]),
        &registered_prefixes,
    )
    .unwrap_err();
    assert!(err.message().contains("channel github.push is not owned by extension teams"));
}

#[test]
fn each_fault_of_a_claim_is_reported() {
    let none: StringMap<String> = StringMap::new();
    let routes = map(&[("held", "owner")]);
    let prefixes = map(&[("pre.x", "owner")]);
    let check = |claims: &[&str], channels: &[&str]| {
        match validate_registration_claims(
            "me",
            &texts(claims),
            &texts(channels),
            &routes,
            &prefixes,
        ) {
            Ok(()) => String::new(),
            Err(e) => e.message(),
        }
    };
    assert_eq!(check(&["fine"], &["fine.sub"]), "");
    assert_eq!(check(&["Bad"], &[]), "invalid path claim: Bad");
    assert_eq!(check(&["a", "a"], &[]), "duplicate path claim: a");
    assert_eq!(check(&["held"], &[]), "path collision: held already claimed by owner");
    assert_eq!(
        check(&["pre"], &[]),
        "path claim pre collides with channel prefix pre.x owned by owner"
    );
    assert_eq!(check(&["a"], &["b..c"]), "invalid channel prefix: b..c");
    assert_eq!(
        check(&["a"], &["b.c", "b"]),
        "channel prefix b collides with channel prefix b.c"
    );
    assert_eq!(
        check(&["a"], &["held.z"]),
        "channel prefix held.z collides with route held owned by owner"
    );
    assert_eq!(
        check(&["a"], &["pre.x.y"]),
        "channel prefix pre.x.y collides with channel prefix pre.x owned by owner"
    );
    assert!(validate_path_claim("a-b_9").is_ok());
    assert!(validate_path_claim("a/b").is_err());
    assert_eq!(first_channel_segment("a.b"), "a");
    let e = validate_emitted_channel("a..b", "me", &[], &[]).unwrap_err();
    assert!(matches!(e, ClaimError::InvalidEventChannel { .. }));
    assert_eq!(e.message(), "invalid event channel: a..b");
    assert!(validate_registration_claims("x", &texts(&["x"]), &[], &none, &none).is_ok());
}

#[test]
fn foreign_events_are_dropped_and_counted() {
    let mut violations: usize = 4;
    let kept = filter_owned_events(
        "dev",
        &texts(&["dev"]),
        &texts(&["alerts.dev"]),
        &mut violations,
        vec![ev("dev.a"), ev("github.push"), ev("alerts.dev.x"), ev("alerts.other"), ev("Dev")],
    );
    let channels: Vec<&str> = kept.iter().map(|e| e.channel.as_str()).collect();
    assert_eq!(channels, vec!["dev.a", "alerts.dev.x"]);
    assert_eq!(violations, 7);
    let again = filter_owned_events(
        "dev",
        &texts(&["dev"]),
        &texts(&["alerts.dev"]),
        &mut violations,
        kept,
    );
    assert_eq!(again.len(), 2);
    assert_eq!(violations, 7);
}

// Registration

fn register_line(protocol: u32, id: Option<&str>) -> FirstLine {
    FirstLine::Message {
        msg: ExtMsg::Register {
            protocol,
            id: id.map(|s| s.to_string()),
            paths: texts(&["dev"]),
            channels: texts(&["dev.>"]),
            meta: Json::Null,
        },
        shown: String::new(),
    }
}

fn registration_error(first: FirstLine) -> RegistrationError {
    match read_registration("candidate", 0, first) {
        Ok(_) => panic!("expected an error"),
        Err(e) => e,
    }
}

#[test]
fn read_registration_applies_candidate_id_fallback() {
    let registration = match read_registration("candidate", 0, register_line(1, None)) {
        Ok(Registering::Done(registration)) => registration,
        Ok(waiting) => panic!("unexpected {waiting:?}"),
        Err(e) => panic!("{}", e.message()),
    };

    assert_eq!(registration.id, "candidate");
    assert_eq!(registration.paths, ["dev"]);
    assert_eq!(registration.channels, ["dev.>"]);
}

#[test]
fn read_registration_rejects_non_register_first_frame() {
    let first = FirstLine::Message {
        msg: ExtMsg::Log { level: LogLevel::Info, msg: "hello".to_string() },
        shown: "Log { level: Info, msg: \"hello\" }".to_string(),
    };
    let err = registration_error(first);
    assert!(err.message().contains("expected register"));
}

#[test]
fn early_events_are_dropped_and_count_as_protocol_errors() {
    let event = || FirstLine::Message {
        msg: ExtMsg::Event { ev: ev("dev.early") },
        shown: String::new(),
    };
    let mut dropped = 0;
    for n in 1..=2 {
        match read_registration("early", dropped, event()) {
            Ok(Registering::Waiting { dropped_events }) => dropped = dropped_events,
            other => panic!("unexpected {other:?}"),
        }
        assert_eq!(dropped, n);
    }
    let registration = match read_registration("early", dropped, register_line(1, None)) {
        Ok(Registering::Done(registration)) => registration,
        other => panic!("unexpected {other:?}"),
    };
    assert_eq!(registration.dropped_events, 2);
    let mut daemon = router(test_config());
    let registration = ExtensionRegistration { channels: vec![], ..registration };
    daemon.register("early", "/bin/whdr-ext", registration, None).unwrap();
    assert_eq!(daemon.extensions.get("early").unwrap().protocol_errors, 2);
    match read_registration("early", usize::MAX, event()) {
        Ok(Registering::Waiting { dropped_events }) => assert_eq!(dropped_events, usize::MAX),
        other => panic!("unexpected {other:?}"),
    }
}

#[test]
fn read_registration_reports_timeout() {
    assert_eq!(registration_error(FirstLine::TimedOut).message(), "extension register timeout");
}

#[test]
fn read_registration_reports_eof_before_register() {
    assert_eq!(registration_error(FirstLine::Ended).message(), "extension exited before register");
}

#[test]
fn read_registration_rejects_blank_first_line() {
    assert_eq!(registration_error(FirstLine::Blank).message(), "blank register line");
}

#[test]
fn read_registration_rejects_protocol_mismatch() {
    let err = registration_error(register_line(999, None));
    assert_eq!(err.message(), "unsupported protocol version 999");
}

#[test]
fn a_registration_gets_its_routes_and_prefixes() {
    let mut daemon = router(test_config());
    let reg = registration("registered", &["gh"], &["alerts.ops"]);
    let generation = daemon.register("candidate", "/bin/x", reg, Some(7)).unwrap();
    assert!(daemon.is_active("registered", generation));
    assert!(!daemon.is_active("registered", generation ^ 1));
    assert!(daemon.candidate_is_active("candidate"));
    assert_eq!(daemon.routes.get("gh"), Some(&"registered".to_string()));
    assert_eq!(daemon.routes.get("registered"), Some(&"registered".to_string()));
    assert_eq!(daemon.channel_prefixes.get("alerts.ops"), Some(&"registered".to_string()));

    let again = registration("registered", &[], &[]);
    let e = daemon.register("candidate", "/bin/x", again, None).unwrap_err();
    assert!(matches!(e, StartError::AlreadyRunning { .. }));
    assert_eq!(e.message(), "extension collision: registered is already running");
    let rival = registration("rival", &["gh"], &[]);
    let e = daemon.register("rival", "/bin/y", rival, None).unwrap_err();
    assert_eq!(e.message(), "path collision: gh already claimed by registered");
    assert_eq!(daemon.routes.len(), 2);
}

// Dispatch

#[test]
fn event_stats_record_tracks_count_and_recency() {
    let mut stats = EventStats::new();
    assert_eq!(stats.last_event_at_ms(), None);

    stats.record(0, 5);
    assert_eq!(stats.emitted, 0);
    assert_eq!(stats.last_event_at_ms(), None);

    stats.record(3, 6);
    assert_eq!(stats.emitted, 3);
    assert!(stats.last_event_at_ms().is_some());
    assert_eq!(stats.last_event_at_ms(), Some(6));
}

#[test]
fn a_webhook_is_handed_to_its_extension_and_answered_once() {
    let mut daemon = router(test_config());
    let generation = start(&mut daemon, "dev");
    let (ticket, msg) = begin(&mut daemon, "dev");
    let req_id = ticket.reservation.req_id();
    match msg {
        SrvMsg::Dispatch { req_id: sent, body_b64, secret, path, .. } => {
            assert_eq!(sent, req_id);
            assert_eq!(body_b64, "e30=");
            assert_eq!(secret, Some("s3cret".to_string()));
            assert_eq!(path, "/dev");
        }
        SrvMsg::Shutdown => panic!("expected a dispatch"),
    }
    let events = vec![ev("dev.a"), ev("spoof.b")];
    let events = match daemon.on_ext_msg("dev", generation, answer(req_id, events), 9) {
        ReaderAction::Answer { req_id: answered, http, events } => {
            assert_eq!(answered, req_id);
            assert_eq!(http.status, 204);
            events
        }
        _ => panic!("expected an answer"),
    };
    assert!(matches!(
        daemon.on_ext_msg("dev", generation, answer(req_id, vec![]), 9),
        ReaderAction::Unknown { .. }
    ));
    let out = daemon.finish_dispatch(ticket, events, 9);
    assert_eq!(out.len(), 1);
    assert_eq!(out[0].channel, "dev.a");
    let handle = daemon.extensions.get("dev").unwrap();
    assert_eq!(handle.namespace_violations, 1);
    assert_eq!(handle.event_stats.emitted, 1);
    assert_eq!(handle.dispatches.in_flight(), 0);
}

#[test]
fn only_so_many_webhooks_are_in_flight() {
    let mut config = test_config();
    config.limits.max_in_flight = 1;
    let mut daemon = router(config);
    let generation = start(&mut daemon, "slow");
    let (mut first, _) = begin(&mut daemon, "slow");
    assert!(matches!(
        daemon.begin_dispatch("slow", webhook()),
        Err(DispatchError::Busy)
    ));
    assert!(!daemon.is_drained("slow", generation));
    // A webhook that nobody waits for any more gives its place back.
    daemon.abandon_dispatch(&mut first);
    assert_eq!(daemon.extensions.get("slow").unwrap().dispatches.in_flight(), 0);
    assert!(daemon.is_drained("slow", generation));
    begin(&mut daemon, "slow");
}

#[test]
fn a_late_answer_does_not_free_the_place_of_another() {
    let mut config = test_config();
    config.limits.max_in_flight = 1;
    let mut daemon = router(config);
    let generation = start(&mut daemon, "late");
    let (mut first, _) = begin(&mut daemon, "late");
    let late = first.reservation.req_id();
    assert_eq!(daemon.dispatch_timed_out(&mut first), None);
    let (_second, _) = begin(&mut daemon, "late");
    assert!(matches!(
        daemon.on_ext_msg("late", generation, answer(late, vec![]), 1),
        ReaderAction::Unknown { .. }
    ));
    assert!(matches!(daemon.begin_dispatch("late", webhook()), Err(DispatchError::Busy)));
}

#[test]
fn a_hung_extension_is_to_be_killed() {
    let mut config = test_config();
    config.limits.hang_kill_threshold = 2;
    let mut daemon = router(config);
    start(&mut daemon, "hung");
    let (mut first, _) = begin(&mut daemon, "hung");
    assert_eq!(daemon.dispatch_timed_out(&mut first), None);
    let (mut second, _) = begin(&mut daemon, "hung");
    assert_eq!(
        daemon.dispatch_timed_out(&mut second),
        Some("2 consecutive dispatch timeouts".to_string())
    );
}

#[test]
fn garbage_gets_an_extension_killed() {
    let mut config = test_config();
    config.limits.max_protocol_errors = 2;
    let mut daemon = router(config);
    let generation = start(&mut daemon, "bad");
    assert_eq!(daemon.on_protocol_error("bad", generation), None);
    assert_eq!(
        daemon.on_protocol_error("bad", generation),
        Some("2 protocol errors".to_string())
    );
    assert_eq!(daemon.on_protocol_error("bad", generation ^ 1), None);
}

#[test]
fn messages_of_extensions_are_taken_up() {
    let mut daemon = router(test_config());
    let generation = start(&mut daemon, "dev");
    match daemon.on_ext_msg("dev", generation, ExtMsg::Event { ev: ev("dev.x") }, 3) {
        ReaderAction::Fanout { events } => assert_eq!(events.len(), 1),
        _ => panic!("expected a fanout"),
    }
    let log = ExtMsg::Log { level: LogLevel::Warn, msg: "m".to_string() };
    match daemon.on_ext_msg("dev", generation, log, 3) {
        ReaderAction::Log { level, msg } => {
            assert_eq!((level, msg.as_str()), (LogLevel::Warn, "m"));
        }
        _ => panic!("expected a log line"),
    }
    let again = ExtMsg::Register {
        protocol: 1,
        id: None,
        paths: vec![],
        channels: vec![],
        meta: Json::Null,
    };
    assert!(matches!(
        daemon.on_ext_msg("dev", generation, again, 3),
        ReaderAction::DuplicateRegister
    ));
    let stale = ExtMsg::Event { ev: ev("dev.x") };
    assert!(matches!(
        daemon.on_ext_msg("dev", generation ^ 1, stale, 3),
        ReaderAction::Stop
    ));
}

#[test]
fn routes_tell_what_is_known_of_them() {
    let mut config = test_config();
    config.extensions.enabled = texts(&["soon"]);
    let mut daemon = router(config);
    start(&mut daemon, "dev");
    assert_eq!(daemon.resolve_route("dev"), Ok("dev".to_string()));
    assert_eq!(daemon.resolve_route("soon"), Err(DispatchError::Starting));
    assert_eq!(daemon.resolve_route("nobody"), Err(DispatchError::NotFound));
}

#[test]
fn a_failed_extension_is_not_one_that_starts() {
    let mut config = test_config();
    config.extensions.enabled = texts(&["x"]);
    config.limits.crashloop_threshold = 2;
    let mut daemon = router(config);
    for (now_ms, expected) in
        [(1_000, DispatchError::Starting), (2_000, DispatchError::Failed)]
    {
        let reg = registration("named", &["alias"], &[]);
        let generation = daemon.register("x", "/bin/whdr-ext-x", reg, None).unwrap();
        let cause = ExitCause::Exited { status: "1".to_string() };
        daemon.on_exit("x", "named", generation, cause, now_ms);
        for key in ["x", "named", "alias"] {
            assert_eq!(daemon.resolve_route(key), Err(expected));
        }
    }
    assert!(!daemon.may_start_again("x"));

    let plan = daemon.plan_start(&map(&[("x", "/bin/whdr-ext-x")]));
    assert_eq!(plan.start.len(), 1);
    assert_eq!(daemon.resolve_route("x"), Err(DispatchError::Starting));
    assert_eq!(daemon.resolve_route("alias"), Err(DispatchError::Starting));
    daemon.start_failed("x", "extension register timeout");
    assert_eq!(daemon.resolve_route("x"), Err(DispatchError::Failed));
}

#[test]
fn a_window_counts_what_waits() {
    let mut window = DispatchWindow::new();
    let mut a = window.reserve(2).unwrap();
    let b = window.reserve(2).unwrap();
    assert!(window.reserve(2).is_none());
    assert_eq!((window.pending_len(), window.in_flight()), (2, 2));
    assert!(window.remove(b.req_id()));
    assert!(!window.remove(b.req_id()));
    a.settle(&mut window, DispatchWait::Timeout);
    assert!(window.is_idle());
    let mut c = window.reserve(1).unwrap();
    assert!(c.remove_pending(&mut window));
    assert_eq!(window.in_flight(), 0);
    window.reserve(1);
    window.clear();
    assert!(window.is_idle());
}

#[test]
fn places_are_taken_and_given_back() {
    let mut taken = 1;
    let granted = (0..5).filter(|_| reserve_in_flight(&mut taken, 3)).count();
    assert_eq!((granted, taken), (2, 3));
    release_in_flight(&mut taken);
    assert!(reserve_in_flight(&mut taken, 3));
    assert!(!reserve_in_flight(&mut taken, 0));
    assert_eq!(taken, 3);
    let mut none = 0;
    release_in_flight(&mut none);
    assert_eq!(none, 0);
}

#[test]
fn a_window_never_holds_more_than_its_limit() {
    let mut window = DispatchWindow::new();
    let mut held = Vec::new();
    for round in 0..20usize {
        let granted: Vec<_> = (0..5).filter_map(|_| window.reserve(3)).collect();
        assert_eq!(granted.len(), 3 - held.len());
        held.extend(granted);
        assert_eq!(window.in_flight(), 3);
        for _ in 0..round % 4 {
            let mut gone: DispatchReservation = held.remove(0);
            assert!(gone.remove_pending(&mut window));
        }
        assert_eq!(window.in_flight(), held.len());
    }
}

// Supervision

#[test]
fn removed_extension_is_unrouted_without_dropping_in_flight_dispatch() {
    let mut daemon = router(test_config());
    start(&mut daemon, "drain");
    begin(&mut daemon, "drain");

    let plan = daemon.plan_start(&StringMap::new());

    assert_eq!(plan.drain, vec!["drain".to_string()]);
    let handle = daemon.extensions.get("drain").unwrap();
    assert_eq!(handle.dispatches.pending_len(), 1);
    assert_eq!(handle.dispatches.in_flight(), 1);
    assert!(!daemon.routes.contains_key("drain"));
}

#[test]
fn sighup_diff_keeps_registered_id_override_when_candidate_is_still_desired() {
    let mut config = test_config();
    config.extensions.enabled = texts(&["candidate"]);
    let mut daemon = router(config);
    let reg = registration("registered", &[], &[]);
    daemon.register("candidate", "/bin/whdr-ext-candidate", reg, None).unwrap();

    let plan = daemon.plan_start(&map(&[("candidate", "/bin/whdr-ext-candidate")]));

    assert!(plan.drain.is_empty());
    assert!(plan.start.is_empty());
    assert!(daemon.extensions.contains_key("registered"));
    assert_eq!(daemon.routes.get("registered"), Some(&"registered".to_string()));
}

#[test]
fn a_scan_starts_what_is_wanted_and_notes_what_is_missing() {
    let mut config = test_config();
    config.extensions.enabled = texts(&["found", "missing"]);
    let mut daemon = router(config);
    let plan = daemon.plan_start(&map(&[("found", "/bin/f"), ("unwanted", "/bin/u")]));
    assert_eq!(plan.start.len(), 1);
    assert_eq!((plan.start[0].id.as_str(), plan.start[0].path.as_str()), ("found", "/bin/f"));
    assert_eq!(
        daemon.failed_extensions.get("missing"),
        Some(&"extension binary not found on PATH".to_string())
    );
    assert!(daemon.unavailable_routes.contains_key("missing"));
    daemon.start_failed("found", "spawn failed");
    assert_eq!(daemon.failed_extensions.get("found"), Some(&"spawn failed".to_string()));
    daemon.start_succeeded("found");
    assert!(!daemon.failed_extensions.contains_key("found"));
}

#[test]
fn protocol_error_limit_kills_and_restarts_extension() {
    let mut config = test_config();
    config.extensions.enabled = texts(&["bad"]);
    config.limits.max_protocol_errors = 1;
    let mut daemon = router(config);
    let generation = start(&mut daemon, "bad");
    let reason = daemon.on_protocol_error("bad", generation).unwrap();
    let after = daemon.on_exit("bad", "bad", generation, ExitCause::Killed { reason }, 100);
    assert_eq!(after, AfterExit::Respawn { delay_ms: 500 });
    assert!(daemon.restart_count("bad") > 0);
    assert!(daemon.may_start_again("bad"));
}

#[test]
fn restarts_wait_longer_each_time_and_stop_in_a_crashloop() {
    let mut config = test_config();
    config.extensions.enabled = texts(&["x"]);
    config.limits.crashloop_threshold = 9;
    config.limits.crashloop_window_ms = 1_000;
    let mut daemon = router(config);
    let mut delays = Vec::new();
    for n in 0..8 {
        delays.push(daemon.next_respawn_delay("x", n * 2_000).unwrap());
    }
    assert_eq!(delays, vec![500, 1_000, 2_000, 4_000, 8_000, 16_000, 30_000, 30_000]);
    assert_eq!((INITIAL_RESPAWN_BACKOFF_MS, MAX_RESPAWN_BACKOFF_MS), (500, 30_000));
    let mut last = Some(0);
    for _ in 0..9 {
        last = daemon.next_respawn_delay("x", 100_000);
    }
    assert_eq!(last, None);
    assert_eq!(
        daemon.failed_extensions.get("x"),
        Some(&"extension entered crashloop: 9 exits within 1000ms".to_string())
    );
    assert!(!daemon.should_respawn("x"));
}

#[test]
fn ends_of_runs_are_told_apart() {
    let mut config = test_config();
    config.extensions.enabled = texts(&["x"]);
    let mut daemon = router(config);
    let generation = start(&mut daemon, "x");
    let other = ExitCause::Abandoned;
    assert_eq!(daemon.on_exit("x", "x", generation ^ 1, other, 0), AfterExit::Stop);
    assert!(daemon.is_active("x", generation));
    let drained = ExitCause::Drained { reason: "removed from config".to_string() };
    assert_eq!(daemon.on_exit("x", "x", generation, drained, 0), AfterExit::Stop);
    assert!(!daemon.is_active("x", generation));
    assert_eq!(daemon.routes.len(), 0);
    assert_eq!(
        exit_reason(ExitCause::Exited { status: "exit status: 1".to_string() }),
        ("extension exited with exit status: 1".to_string(), true)
    );
    assert_eq!(
        exit_reason(ExitCause::WaitFailed { why: "w".to_string() }),
        ("extension wait failed: w".to_string(), true)
    );
    assert_eq!(
        exit_reason(ExitCause::Abandoned),
        ("extension supervisor command channel closed".to_string(), false)
    );
    let generation = start(&mut daemon, "x");
    let ended = daemon.cleanup("x", generation, "gone", true).unwrap();
    assert_eq!(ended.id, "x");
    assert!(daemon.unavailable_routes.contains_key("x"));
}

#[test]
fn stopping_goes_by_stages() {
    assert_eq!(
        shutdown_wait_ms(&TimeoutsConfig { register_ms: 1, drain_ms: 100, term_grace_ms: 50 }),
        300
    );
    assert_eq!(
        shutdown_wait_ms(&TimeoutsConfig {
            register_ms: 1,
            drain_ms: u64::MAX,
            term_grace_ms: u64::MAX
        }),
        u64::MAX
    );
    let look = |exited| StopLook { drained: true, drain_over: true, exited };
    let step = |stage, action| StopStep { stage, action };
    assert_eq!(
        next_stop(StopStage::Asked, look(false)),
        step(StopStage::Terminated, StopAction::Terminate)
    );
    assert_eq!(
        next_stop(StopStage::Terminated, look(false)),
        step(StopStage::Killed, StopAction::Kill)
    );
    assert_eq!(
        next_stop(StopStage::Killed, look(false)),
        step(StopStage::Killed, StopAction::Wait)
    );
    for stage in [StopStage::Asked, StopStage::Terminated, StopStage::Killed, StopStage::Gone] {
        assert_eq!(next_stop(stage, look(true)), step(StopStage::Gone, StopAction::Finish));
    }
}

#[test]
fn an_extension_drains_before_it_is_asked_to_shut_down() {
    let look = |drained, drain_over| StopLook { drained, drain_over, exited: false };
    let wait = StopStep { stage: StopStage::Draining, action: StopAction::Wait };
    let ask = StopStep { stage: StopStage::Asked, action: StopAction::SendShutdown };
    assert_eq!(next_stop(StopStage::Draining, look(false, false)), wait);
    assert_eq!(next_stop(StopStage::Draining, look(true, false)), ask);
    assert_eq!(next_stop(StopStage::Draining, look(false, true)), ask);
    let gone = StopLook { drained: false, drain_over: false, exited: true };
    assert_eq!(next_stop(StopStage::Draining, gone), wait);
}

#[test]
fn a_file_is_executable_if_somebody_may_execute_it() {
    assert!(is_executable(true, 0o100));
    assert!(is_executable(true, 0o010));
    assert!(is_executable(true, 0o100_645));
    assert!(!is_executable(true, 0o100_644));
    assert!(!is_executable(false, 0o755));
}

#[test]
fn executables_are_found_by_their_names() {
    assert_eq!(candidate_id("whdr-ext-dev"), Some("dev".to_string()));
    assert_eq!(candidate_id("whdr-ext-"), None);
    assert_eq!(candidate_id("whdr-server"), None);
    let file = |name: &str, path: &str, executable| FoundFile {
        name: name.to_string(),
        path: path.to_string(),
        executable,
    };
    let found = discover_extensions(&[
        file("whdr-ext-a", "/1/a", false),
        file("whdr-ext-a", "/2/a", true),
        file("whdr-ext-a", "/3/a", true),
        file("ls", "/3/ls", true),
        file("whdr-ext-b", "/3/b", true),
    ]);
    assert_eq!(found.len(), 2);
    assert_eq!(found.get("a"), Some(&"/2/a".to_string()));
    assert_eq!(found.get("b"), Some(&"/3/b".to_string()));
}

// What is shown

#[test]
fn the_status_shows_extensions_failures_and_subscribers() {
    let mut daemon = router(test_config());
    start(&mut daemon, "dev");
    daemon.start_failed("broken", "why");
    let rows = [SubscriberSnapshot {
        name: "p".to_string(),
        remote_addr: None,
        patterns: texts(&["dev.>"]),
        delivered: 3,
        dropped: 1,
    }];
    let status = daemon.status_json(&rows, 77);
    assert_eq!(status.get("uptime_ms").unwrap().as_u64(), Some(77));
    let exts = status.get("extensions").unwrap().as_array().unwrap();
    assert_eq!(exts[0].get("id").unwrap().as_str(), Some("dev"));
    assert_eq!(exts[0].get("state").unwrap().as_str(), Some("Ready"));
    assert_eq!(exts[0].get("pid").unwrap().as_u64(), Some(1));
    assert!(matches!(exts[0].get("last_event_at_ms"), Some(Json::Null)));
    assert_eq!(exts[1].get("state").unwrap().as_str(), Some("Failed"));
    assert_eq!(exts[1].get("reason").unwrap().as_str(), Some("why"));
    let subs = status.get("subscribers").unwrap().as_array().unwrap();
    assert_eq!(subs[0].get("delivered").unwrap().as_u64(), Some(3));
    let global = status.get("global").unwrap();
    assert_eq!(global.get("routes").unwrap().as_u64(), Some(1));
    assert_eq!(global.get("subscriber_count").unwrap().as_u64(), Some(1));
}

#[test]
fn renders_extension_subscriber_and_global_series() {
    let status = parse(
        br#"{
            "uptime_ms": 1234,
            "extensions": [
                {
                    "id": "github",
                    "state": "Ready",
                    "restarts": 2,
                    "in_flight": 1,
                    "protocol_errors": 0,
                    "namespace_violations": 0,
                    "consecutive_timeouts": 0,
                    "events_emitted": 42,
                    "last_event_at_ms": 1751760000000
                },
                { "id": "teams", "state": "Failed", "reason": "crashloop" }
            ],
            "subscribers": [
                { "name": "project-a", "delivered": 10, "dropped": 1 },
                { "name": "project-a", "delivered": 5, "dropped": 0 }
            ],
            "global": {
                "routes": 3,
                "unavailable_routes": 0,
                "channel_prefixes": 2,
                "subscriber_count": 2
            }
        }"#,
    )
    .unwrap();

    let text = render_prometheus(&status);

    assert!(text.contains("whdr_uptime_ms 1234\n"));
    assert!(text.contains("whdr_ext_up{ext=\"github\"} 1\n"));
    assert!(text.contains("whdr_ext_up{ext=\"teams\"} 0\n"));
    assert!(text.contains("whdr_ext_events_emitted{ext=\"github\"} 42\n"));
    assert!(text.contains("whdr_ext_last_event_at_ms{ext=\"github\"} 1751760000000\n"));
    assert!(!text.contains("whdr_ext_restarts{ext=\"teams\"}"));
    assert!(text.contains("whdr_subscriber_delivered{name=\"project-a\"} 15\n"));
    assert!(text.contains("whdr_subscriber_dropped{name=\"project-a\"} 1\n"));
    assert!(text.contains("whdr_subscriber_connections{name=\"project-a\"} 2\n"));
    assert!(text.contains("whdr_subscriber_count 2\n"));
}

#[test]
fn label_values_are_escaped() {
    let status = parse(
        br#"{
            "uptime_ms": 1,
            "extensions": [],
            "subscribers": [
                { "name": "we\"ird\\name", "delivered": 1, "dropped": 0 }
            ],
            "global": {}
        }"#,
    )
    .unwrap();

    let text = render_prometheus(&status);
    assert!(text.contains(r#"whdr_subscriber_delivered{name="we\"ird\\name"} 1"#));
}

#[test]
fn the_status_of_a_router_can_be_scraped() {
    let daemon = router(test_config());
    let text = render_prometheus(&daemon.status_json(&[], 5));
    assert!(text.contains("whdr_uptime_ms 5"));
    assert!(text.contains("whdr_subscriber_count 0"));
}
