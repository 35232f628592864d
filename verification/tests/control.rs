//! Tokens, configuration and the control client.

use whdr::cli::{humanize_ms, print_status, render_response, token_table, Asked, Output};
use whdr::config::{
    enforce_0600, BindAddr, Config, ConfigError, DeliveryConfig, ExtensionsConfig, IpAddress,
    LimitsConfig, ServerConfig, SubscribersConfig, TimeoutsConfig, TlsConfig,
};
use whdr::daemon::Daemon;
use whdr::json::{parse, Json};
use whdr::messages::{ClosingReason, ControlRequest, ControlResponse, TokenSummary};
use whdr::outbound_queue::OutboundQueue;
use whdr::string_map::StringMap;
use whdr::subscribers::{SubscriberRegistration, SubscriberRegistry};
use whdr::token_control::{
    adopt, finish, handle_control_request, list, plan_add, plan_revoke, plan_rotate, ControlStep,
};
use whdr::token_store::{hash_token, TokenError, TokenRecord, TokenStore};

fn join(registry: &mut SubscriberRegistry, name: &str) -> u64 {
    registry.insert(SubscriberRegistration {
        name: name.to_string(),
        remote_addr: None,
        queue: OutboundQueue::new(1, 1024),
    })
}

fn store() -> TokenStore {
    TokenStore::empty("/tmp/tokens.toml".to_string())
}

// What the client prints

#[test]
fn humanize_ms_examples() {
    assert_eq!(humanize_ms(0), "0s");
    assert_eq!(humanize_ms(5_000), "5s");
    assert_eq!(humanize_ms(90_000), "1m 30s");
    assert_eq!(humanize_ms(37_946_866), "10h 32m");
    assert_eq!(humanize_ms(172_800_000), "2d 0h");
}

#[test]
fn humanize_ms_boundaries() {
    assert_eq!(humanize_ms(59_999), "59s");
    assert_eq!(humanize_ms(60_000), "1m 0s");
    assert_eq!(humanize_ms(3_599_000), "59m 59s");
    assert_eq!(humanize_ms(3_600_000), "1h 0m");
    assert_eq!(humanize_ms(86_399_000), "23h 59m");
    assert_eq!(humanize_ms(86_400_000), "1d 0h");
}

#[test]
fn a_status_is_printed() {
    let status = parse(
        br#"{"uptime_ms": 61000,
            "extensions": [
                {"id": "github", "state": "Ready", "pid": 7, "events_emitted": 2, "last_event_at_ms": null},
                {"state": 5}],
            "subscribers": [{"name": "p", "patterns": ["a.>", "b"], "delivered": 3, "dropped": 1}]}"#,
    )
    .unwrap();
    assert_eq!(
        print_status(&status),
        "uptime_ms: 61000 (1m 1s)\nextensions:\n  github\tReady\tpid=7\tevents=2\tlast_event_at_ms=null\n  ?\t?\tpid=null\tevents=null\tlast_event_at_ms=null\nsubscribers:\n  p\tpatterns=[\"a.>\",\"b\"]\tdelivered=3\tdropped=1\n"
    );
    assert_eq!(
        print_status(&Json::Null),
        "uptime_ms: 0 (0s)\nextensions:\nsubscribers:\n"
    );
}

#[test]
fn answers_are_printed() {
    let row = TokenSummary {
        name: "p".to_string(),
        fingerprint: "abcd".to_string(),
        created: "then".to_string(),
        active_conns: 2,
    };
    assert_eq!(
        token_table(&[row]),
        "NAME\tFINGERPRINT\tCREATED\tACTIVE\np\tabcd\tthen\t2\n"
    );
    let token = ControlResponse::Token { name: "p".to_string(), token: "tok_x".to_string() };
    match render_response(Asked::Token, token) {
        Output::Print(s) => assert_eq!(s, "p: tok_x\n"),
        other => panic!("unexpected {other:?}"),
    }
    match render_response(Asked::Token, ControlResponse::Done) {
        Output::Print(s) => assert_eq!(s, "ok\n"),
        other => panic!("unexpected {other:?}"),
    }
    match render_response(Asked::Token, ControlResponse::Error { msg: "no".to_string() }) {
        Output::Fail(s) => assert_eq!(s, "no"),
        other => panic!("unexpected {other:?}"),
    }
    let status = || ControlResponse::Status { status: Json::Null };
    assert!(matches!(
        render_response(Asked::Status { json: true }, status()),
        Output::PrintJson(Json::Null)
    ));
    assert!(matches!(
        render_response(Asked::Status { json: false }, status()),
        Output::Print(_)
    ));
    assert!(matches!(render_response(Asked::Token, status()), Output::Unexpected(_)));
    match render_response(Asked::Token, ControlResponse::Tokens { tokens: vec![] }) {
        Output::Print(s) => assert_eq!(s, "NAME\tFINGERPRINT\tCREATED\tACTIVE\n"),
        other => panic!("unexpected {other:?}"),
    }
}

// Tokens

#[test]
fn token_store_hashes_tokens_and_authenticates() {
    let mut store = store();
    let token = store.add("project-a").unwrap();
    assert!(token.starts_with("tok_"));
    assert_eq!(token.len(), 47);
    assert!(!store.tokens.get("project-a").unwrap().hash.contains(&token));
    assert_eq!(store.authenticate(&token).unwrap(), "project-a");

    let old = token;
    let rotated = store.rotate("project-a").unwrap();
    assert_ne!(old, rotated);
    assert!(store.authenticate(&old).is_none());
    assert_eq!(store.authenticate(&rotated).unwrap(), "project-a");

    let reloaded = store.copy();
    assert_eq!(reloaded.authenticate(&rotated).unwrap(), "project-a");
    let mut active: StringMap<usize> = StringMap::new();
    active.insert("project-a".to_string(), 2);
    active.insert("other".to_string(), 7);
    assert_eq!(reloaded.list(&active)[0].name, "project-a");
    assert_eq!(reloaded.list(&active)[0].active_conns, 2);
}

#[test]
fn a_secret_makes_a_token_and_its_record() {
    let mut store = store();
    let token = store.store_minted("a", &[251; 32], "2024-05-01T00:00:00+00:00");
    assert_eq!(token, "tok_-_v7-_v7-_v7-_v7-_v7-_v7-_v7-_v7-_v7-_v7-_s");
    let record = store.tokens.get("a").unwrap();
    assert_eq!(
        record.hash,
        "sha256:475b0f39bbd1f299b8dd79fff7d757ea09fbaf8ef82ad8eb9392939cd3eb9521"
    );
    assert_eq!(record.created, "2024-05-01T00:00:00+00:00");
    assert_eq!(store.authenticate(&token).unwrap(), "a");
}

#[test]
fn no_record_holds_a_token() {
    let mut store = store();
    let tokens = vec![store.add("a").unwrap(), store.add("b").unwrap(), store.rotate("a").unwrap()];
    store.revoke("b").unwrap();
    store.add("c").unwrap();
    for name in ["a", "c"] {
        let record = store.tokens.get(name).unwrap();
        for token in &tokens {
            assert!(!record.hash.contains(token));
            assert!(!record.created.contains(token));
        }
        assert!(record.created.len() >= 25);
        assert!(record.created.ends_with("+00:00"));
        assert!(record.created.chars().all(|c| c.is_ascii_digit() || "-T:.+".contains(c)));
    }
}

#[test]
fn tokens_are_hashed_with_sha256() {
    assert_eq!(
        hash_token("abc"),
        "sha256:ba7816bf8f01cfea414140de5dae2223b00361a396177a9cb410ff61f20015ad"
    );
}

#[test]
fn each_fault_of_a_token_change_is_reported() {
    let mut store = store();
    store.add("a").unwrap();
    assert_eq!(store.add("a"), Err(TokenError::NameExists { name: "a".to_string() }));
    assert_eq!(store.rotate("b"), Err(TokenError::UnknownName { name: "b".to_string() }));
    assert_eq!(store.revoke("b"), Err(TokenError::UnknownName { name: "b".to_string() }));
    let bad = store.add("").unwrap_err();
    assert_eq!(bad, TokenError::InvalidName { name: String::new() });
    assert_eq!(bad.message(), "invalid token name: ");
    assert_eq!(
        TokenError::NameExists { name: "a".to_string() }.message(),
        "token name already exists: a"
    );
    assert_eq!(
        TokenError::UnknownName { name: "b".to_string() }.message(),
        "unknown token name: b"
    );
    assert_eq!(store.names(), vec!["a".to_string()]);
    store.revoke("a").unwrap();
    assert!(store.names().is_empty());
}

#[test]
fn rotate_closes_active_subscribers_for_the_token_name() {
    let mut store = store();
    store.add("project").unwrap();
    let mut subscribers = SubscriberRegistry::new();
    let id = join(&mut subscribers, "project");

    let plan = plan_rotate(&store, "project".to_string()).unwrap();
    let response = finish(&mut store, &mut subscribers, plan, Ok(()));

    assert!(matches!(response, ControlResponse::Token { .. }));
    assert_eq!(subscribers.closing(id), Some(ClosingReason::Revoked));
}

#[test]
fn list_includes_active_subscriber_counts() {
    let mut store = store();
    store.add("project").unwrap();
    let mut subscribers = SubscriberRegistry::new();
    join(&mut subscribers, "project");

    let response = list(&store, &subscribers);

    let ControlResponse::Tokens { tokens } = response else {
        panic!("expected token list");
    };
    assert_eq!(tokens[0].name, "project");
    assert_eq!(tokens[0].active_conns, 1);
}

#[test]
fn a_change_that_cannot_be_stored_has_no_effect() {
    let mut store = store();
    let token = store.add("p").unwrap();
    let mut subscribers = SubscriberRegistry::new();
    let id = join(&mut subscribers, "p");
    let plan = plan_revoke(&store, "p".to_string()).unwrap();
    let response = finish(&mut store, &mut subscribers, plan, Err("disk full".to_string()));
    match response {
        ControlResponse::Error { msg } => assert_eq!(msg, "disk full"),
        other => panic!("unexpected {other:?}"),
    }
    assert_eq!(store.authenticate(&token), Some("p".to_string()));
    assert_eq!(subscribers.closing(id), None);

    let plan = plan_revoke(&store, "p".to_string()).unwrap();
    assert!(matches!(
        finish(&mut store, &mut subscribers, plan, Ok(())),
        ControlResponse::Done
    ));
    assert_eq!(store.authenticate(&token), None);
    let plan = plan_add(&store, "p".to_string()).unwrap();
    assert!(!plan.closes);
    assert!(plan_add(&store, "not a name".to_string()).is_err());
}

#[test]
fn requests_on_the_control_socket_are_sorted() {
    let mut store = store();
    store.add("p").unwrap();
    let registry = SubscriberRegistry::new();
    let ask = |request| handle_control_request(&store, &registry, request);
    assert!(matches!(ask(ControlRequest::Status), ControlStep::Status));
    assert!(matches!(
        ask(ControlRequest::TokenList),
        ControlStep::Answer(ControlResponse::Tokens { .. })
    ));
    assert!(matches!(
        ask(ControlRequest::TokenAdd { name: "q".to_string() }),
        ControlStep::Persist(_)
    ));
    match ask(ControlRequest::TokenAdd { name: "p".to_string() }) {
        ControlStep::Answer(ControlResponse::Error { msg }) => {
            assert_eq!(msg, "token name already exists: p");
        }
        _ => panic!("expected an error"),
    }
    match ask(ControlRequest::TokenRotate { name: "x".to_string() }) {
        ControlStep::Answer(ControlResponse::Error { msg }) => {
            assert_eq!(msg, "unknown token name: x");
        }
        _ => panic!("expected an error"),
    }
    assert!(matches!(
        ask(ControlRequest::TokenRevoke { name: "p".to_string() }),
        ControlStep::Persist(_)
    ));
}

#[test]
fn another_store_closes_the_connections_it_invalidates() {
    let mut store = store();
    store.add("gone").unwrap();
    store.add("other").unwrap();
    store.add("same").unwrap();
    let mut next = store.copy();
    next.revoke("gone").unwrap();
    next.rotate("other").unwrap();
    assert_eq!(store.invalidated_names(&next), vec!["gone".to_string(), "other".to_string()]);
    let mut registry = SubscriberRegistry::new();
    let gone = join(&mut registry, "gone");
    let other = join(&mut registry, "other");
    let same = join(&mut registry, "same");
    adopt(&mut store, &mut registry, next);
    assert_eq!(registry.closing(gone), Some(ClosingReason::Revoked));
    assert_eq!(registry.closing(other), Some(ClosingReason::Revoked));
    assert_eq!(registry.closing(same), None);
    assert_eq!(store.names(), vec!["other".to_string(), "same".to_string()]);
}

#[test]
fn tokens_are_dated() {
    let mut store = store();
    store.add("a").unwrap();
    let record: &TokenRecord = store.tokens.get("a").unwrap();
    assert!(record.created.len() >= 20);
    assert!(record.created.contains('T'));
    assert_eq!(record.clone().hash, record.hash);
}

// Configuration

fn loopback() -> BindAddr {
    BindAddr { ip: IpAddress::V4([127, 0, 0, 1]), port: 0 }
}

fn unspecified() -> BindAddr {
    BindAddr { ip: IpAddress::V4([0, 0, 0, 0]), port: 0 }
}

fn test_config() -> Config {
    Config {
        server: ServerConfig {
            listen_addr: loopback(),
            sub_addr: loopback(),
            control_socket: "/t/ctl.sock".to_string(),
            metrics_addr: Some(loopback()),
        },
        subscribers: SubscribersConfig {
            token_store: Some("/t/tokens.toml".to_string()),
            allow_plaintext_lan: false,
            ws_idle_timeout_ms: 30_000,
            tls: None,
        },
        extensions: ExtensionsConfig::default(),
        limits: LimitsConfig::default(),
        timeouts: TimeoutsConfig::default(),
        delivery: DeliveryConfig::default(),
        secrets_file: None,
        secrets: StringMap::new(),
    }
}

fn refusal(config: Config) -> ConfigError {
    match Daemon::new(config) {
        Ok(_) => panic!("the configuration should be rejected"),
        Err(err) => err,
    }
}

#[test]
fn constructed_config_rejects_non_loopback_metrics_bind() {
    let mut config = test_config();
    config.server.metrics_addr = Some(unspecified());

    let err = refusal(config);
    assert!(err.message().contains("metrics_addr must bind a loopback"));
}

#[test]
fn constructed_config_rejects_non_loopback_plaintext_subscriber_bind() {
    let mut config = test_config();
    config.server.sub_addr = unspecified();
    config.subscribers.allow_plaintext_lan = false;

    let err = refusal(config);
    assert!(err.message().contains("refusing non-loopback subscriber bind"));
}

#[test]
fn plaintext_on_the_lan_can_be_allowed() {
    let mut config = test_config();
    config.server.sub_addr = unspecified();
    config.subscribers.allow_plaintext_lan = true;
    assert!(config.validate().is_ok());
    assert_eq!(config.token_store_path(), "/t/tokens.toml");
    assert!(Daemon::new(config).is_ok());
}

#[test]
fn tls_is_refused() {
    let mut config = test_config();
    config.subscribers.tls =
        Some(TlsConfig { cert: "/tmp/cert.pem".to_string(), key: "/tmp/key.pem".to_string() });
    assert!(refusal(config)
        .message()
        .contains("subscriber TLS is configured but native TLS is not implemented"));
}

#[test]
fn defaults_are_those_of_the_documentation() {
    let server = ServerConfig::default();
    assert_eq!((server.listen_addr.port, server.sub_addr.port), (8787, 8788));
    assert!(server.listen_addr.ip.is_loopback());
    assert_eq!(SubscribersConfig::default().ws_idle_timeout_ms, 30_000);
    let delivery = DeliveryConfig::default();
    assert!(!delivery.enabled);
    assert_eq!(delivery.max_bytes, 536_870_912);
    assert!(IpAddress::V6([0, 0, 0, 0, 0, 0, 0, 1]).is_loopback());
    assert!(!IpAddress::V6([0; 8]).is_loopback());
    assert!(IpAddress::V4([127, 9, 9, 9]).is_loopback());
    assert_eq!(TlsConfig::default().cert, "");
}

#[test]
fn secrets_have_to_be_private() {
    assert_eq!(enforce_0600("secrets file", "/s", 0o100600), Ok(()));
    assert_eq!(
        enforce_0600("secrets file", "/s", 0o100644),
        Err("secrets file /s must have mode 0600, got 644".to_string())
    );
}
