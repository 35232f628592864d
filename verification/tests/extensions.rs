//! The extensions, from the dispatch that they get to the answer that they give.

use whdr::ext_dev::handle_dev_dispatch;
use whdr::ext_github::{
    answer_signed, carries_signature, channel_token as github_token, github_channel,
    github_signature, handle_github_dispatch,
};
use whdr::ext_hmac::{
    derive_channel, handle_hmac_dispatch, judge, non_empty_env, provided_signature, sign,
    Algorithm, Encoding, HeaderSignature, HmacConfig, HmacConfigError,
};
use whdr::ext_kit::{
    channel_token, decode_body_b64, extension_step, header_value, hmac_sha256_hex,
    register_message, same_secret, text_reply, ExtError, ExtStep,
};
use whdr::ext_teams::{
    answer_notifications, can_decode, handle_teams_dispatch, percent_decode, resource_to_channel,
    validation_token,
};
use whdr::json::{parse, Json};
use whdr::messages::{Event, ExtMsg, HttpReply, SrvMsg};
use whdr::string_map::StringMap;

const SECRET: &str = "whsec_topsecret";
const BODY: &[u8] = br#"{"event":"payment","id":"evt_123"}"#;

fn b64(bytes: &[u8]) -> String {
    base64::Engine::encode(&base64::engine::general_purpose::STANDARD, bytes)
}

fn map(pairs: &[(&str, &str)]) -> StringMap<String> {
    let mut map: StringMap<String> = StringMap::new();
    for (key, value) in pairs {
        map.insert(key.to_string(), value.to_string());
    }
    map
}

fn webhook(
    method: &str,
    path: &str,
    query: Option<&str>,
    headers: StringMap<String>,
    body: &[u8],
    secret: Option<&str>,
) -> SrvMsg {
    SrvMsg::Dispatch {
        req_id: 0,
        method: method.to_string(),
        path: path.to_string(),
        query: query.map(|q| q.to_string()),
        headers,
        body_b64: b64(body),
        secret: secret.map(|s| s.to_string()),
    }
}

fn broken_body() -> SrvMsg {
    SrvMsg::Dispatch {
        req_id: 0,
        method: "POST".to_string(),
        path: "/x".to_string(),
        query: None,
        headers: StringMap::new(),
        body_b64: "not base64!".to_string(),
        secret: Some("s".to_string()),
    }
}

fn failure(r: Result<(HttpReply, Vec<Event>), ExtError>) -> ExtError {
    match r {
        Ok(_) => panic!("expected an error"),
        Err(e) => e,
    }
}

#[test]
fn dev_extension_echoes_body_and_emits_dev_event() {
    let body = b"hello";
    let (reply, events) =
        handle_dev_dispatch(webhook("POST", "/dev", None, StringMap::new(), body, None)).unwrap();

    assert_eq!(reply.status, 200);
    assert_eq!(reply.body, "hello");
    assert_eq!(events[0].channel, "dev.echo");
}

#[test]
fn dev_extension_replaces_what_is_no_utf8() {
    let body = [b'a', 0xff, b'b'];
    let (reply, events) =
        handle_dev_dispatch(webhook("POST", "/dev", None, StringMap::new(), &body, None)).unwrap();
    assert_eq!(reply.body, "a\u{fffd}b");
    assert_eq!(events.len(), 1);
    assert_eq!(events[0].payload_b64, b64(&body));
}

#[test]
fn every_extension_ignores_shutdown_and_refuses_a_broken_body() {
    let cfg = HmacConfig::default();
    for r in [
        handle_dev_dispatch(SrvMsg::Shutdown),
        handle_github_dispatch(SrvMsg::Shutdown),
        handle_hmac_dispatch(&cfg, SrvMsg::Shutdown),
        handle_teams_dispatch(SrvMsg::Shutdown),
    ] {
        let (reply, events) = r.unwrap();
        assert_eq!(reply.status, 200);
        assert_eq!(reply.body, "shutdown ignored");
        assert!(events.is_empty());
    }
    for r in [
        handle_dev_dispatch(broken_body()),
        handle_github_dispatch(broken_body()),
        handle_hmac_dispatch(&cfg, broken_body()),
        handle_teams_dispatch(broken_body()),
    ] {
        let e = failure(r);
        assert_eq!(e, ExtError::InvalidBase64);
        assert_eq!(e.message(), "dispatch body is not valid base64");
    }
}

// GitHub

fn github(body: &[u8], secret: &str, signature: &str, event: &str) -> SrvMsg {
    let headers = map(&[("x-hub-signature-256", signature), ("x-github-event", event)]);
    webhook("POST", "/github", None, headers, body, Some(secret))
}

#[test]
fn valid_github_signature_emits_event_action_channel() {
    let body = br#"{"action":"opened","number":42}"#;
    let sig = github_signature("whsec", body);
    let (reply, events) =
        handle_github_dispatch(github(body, "whsec", &sig, "pull_request")).unwrap();

    assert_eq!(reply.status, 200);
    assert_eq!(events.len(), 1);
    assert_eq!(events[0].channel, "github.pull_request.opened");
    assert_eq!(events[0].payload_b64, b64(body));
}

#[test]
fn invalid_github_signature_returns_401_without_events() {
    let (reply, events) = handle_github_dispatch(github(
        br#"{"action":"opened"}"#,
        "whsec",
        "sha256:bad",
        "pull_request",
    ))
    .unwrap();
    assert_eq!(reply.status, 401);
    assert_eq!(reply.headers.len(), 0);
    assert_eq!(reply.body, "invalid signature");
    assert!(events.is_empty());
}

#[test]
fn wrong_signature_of_correct_length_is_rejected() {
    let body = br#"{"action":"opened"}"#;
    let valid = github_signature("whsec", body);
    let mut forged = valid.clone();
    let last = forged.pop().unwrap();
    forged.push(if last == '0' { '1' } else { '0' });
    assert_eq!(forged.len(), valid.len());

    let (reply, events) =
        handle_github_dispatch(github(body, "whsec", &forged, "pull_request")).unwrap();
    assert_eq!(reply.status, 401);
    assert!(events.is_empty());
}

#[test]
fn github_signature_is_that_of_the_documentation() {
    // The example of GitHub's own documentation.
    assert_eq!(
        github_signature("It's a Secret to Everybody", b"Hello, World!"),
        "sha256=757107ea0eb2509fc211221cce984b8a37570b6d7586c22c46f4379c8b043e17"
    );
}

#[test]
fn github_webhook_without_secret_or_signature_is_refused() {
    let body = br#"{}"#;
    let (reply, events) =
        handle_github_dispatch(webhook("POST", "/github", None, StringMap::new(), body, None))
            .unwrap();
    assert_eq!((reply.status, reply.body.as_str()), (401, "missing secret"));
    assert!(events.is_empty());

    let (reply, events) = handle_github_dispatch(webhook(
        "POST",
        "/github",
        None,
        StringMap::new(),
        body,
        Some("whsec"),
    ))
    .unwrap();
    assert_eq!((reply.status, reply.body.as_str()), (401, "invalid signature"));
    assert!(events.is_empty());
    assert!(carries_signature(&StringMap::new(), ""));
}

#[test]
fn github_webhook_that_is_no_json_is_an_error_once_signed() {
    let body = b"not json";
    let sig = github_signature("whsec", body);
    let e = failure(handle_github_dispatch(github(body, "whsec", &sig, "push")));
    assert_eq!(e, ExtError::GithubJson);
    assert_eq!(e.message(), "parse github webhook json");
}

#[test]
fn github_channel_names_kind_and_action() {
    let opened = parse(br#"{"action":"Re Opened!"}"#).unwrap();
    assert_eq!(github_channel("Pull Request", &opened), "github.pull-request.re-opened");
    assert_eq!(github_channel("push", &Json::Null), "github.push");
    let odd = parse(br#"{"action":"--"}"#).unwrap();
    assert_eq!(github_channel("", &odd), "github.unknown.unknown");
    assert_eq!(github_token("***"), "unknown");

    let headers: StringMap<String> = StringMap::new();
    let (reply, events) = answer_signed(&headers, b"{}", Some(Json::Null)).unwrap();
    assert_eq!(reply.status, 200);
    assert_eq!(events[0].channel, "github.unknown");
    assert_eq!(failure(answer_signed(&headers, b"{}", None)), ExtError::GithubJson);
}

// HMAC

#[test]
fn codes_have_the_length_of_their_digest() {
    assert_eq!(Algorithm::Sha1.mac(b"key", b"body").len(), 20);
    assert_eq!(Algorithm::Sha256.mac(b"key", b"body").len(), 32);
    assert_eq!(Algorithm::Sha512.mac(b"key", b"body").len(), 64);
}

fn config(algorithm: Algorithm, encoding: Encoding, prefix: Option<&str>) -> HmacConfig {
    HmacConfig {
        header: "X-Signature".to_string(),
        algorithm,
        encoding,
        prefix: prefix.map(str::to_string),
        channel_prefix: "hmac".to_string(),
    }
}

fn signed(header: &str, value: &str, path: &str, secret: Option<&str>) -> SrvMsg {
    webhook("POST", path, None, map(&[(header, value)]), BODY, secret)
}

#[test]
fn sha256_hex_default_accepts_and_emits_event() {
    let cfg = config(Algorithm::Sha256, Encoding::Hex, None);
    let sig = sign(&cfg, SECRET, BODY);
    let (reply, events) =
        handle_hmac_dispatch(&cfg, signed("X-Signature", &sig, "/hmac", Some(SECRET))).unwrap();

    assert_eq!(reply.status, 200);
    assert_eq!(events.len(), 1);
    assert_eq!(events[0].channel, "hmac");
    assert_eq!(events[0].payload_b64, b64(BODY));
}

#[test]
fn sha1_hex_accepts() {
    let cfg = config(Algorithm::Sha1, Encoding::Hex, None);
    let sig = sign(&cfg, SECRET, BODY);
    let (reply, events) =
        handle_hmac_dispatch(&cfg, signed("X-Signature", &sig, "/hmac", Some(SECRET))).unwrap();
    assert_eq!(reply.status, 200);
    assert_eq!(events.len(), 1);
}

#[test]
fn sha512_hex_accepts() {
    let cfg = config(Algorithm::Sha512, Encoding::Hex, None);
    let sig = sign(&cfg, SECRET, BODY);
    let (reply, events) =
        handle_hmac_dispatch(&cfg, signed("X-Signature", &sig, "/hmac", Some(SECRET))).unwrap();
    assert_eq!(reply.status, 200);
    assert_eq!(events.len(), 1);
}

#[test]
fn base64_encoding_accepts() {
    let cfg = config(Algorithm::Sha256, Encoding::Base64, None);
    let sig = sign(&cfg, SECRET, BODY);
    let (reply, events) =
        handle_hmac_dispatch(&cfg, signed("X-Signature", &sig, "/hmac", Some(SECRET))).unwrap();
    assert_eq!(reply.status, 200);
    assert_eq!(events.len(), 1);
}

#[test]
fn prefix_is_stripped_before_verify() {
    let cfg = config(Algorithm::Sha256, Encoding::Hex, Some("sha256="));
    let sig = sign(&cfg, SECRET, BODY);
    assert!(sig.starts_with("sha256="), "sign must include the prefix");
    let (reply, events) =
        handle_hmac_dispatch(&cfg, signed("X-Signature", &sig, "/hmac", Some(SECRET))).unwrap();
    assert_eq!(reply.status, 200);
    assert_eq!(events.len(), 1);
}

#[test]
fn custom_header_name_is_honoured() {
    let mut cfg = config(Algorithm::Sha256, Encoding::Hex, None);
    cfg.header = "X-Hub-Signature".to_string();
    let sig = sign(&cfg, SECRET, BODY);
    let (reply, _) =
        handle_hmac_dispatch(&cfg, signed("x-hub-signature", &sig, "/hmac", Some(SECRET)))
            .unwrap();
    assert_eq!(reply.status, 200);
}

#[test]
fn path_suffix_becomes_channel_segments() {
    let cfg = config(Algorithm::Sha256, Encoding::Hex, None);
    let sig = sign(&cfg, SECRET, BODY);
    let (_, events) =
        handle_hmac_dispatch(&cfg, signed("X-Signature", &sig, "/hmac/Stripe/Foo", Some(SECRET)))
            .unwrap();
    assert_eq!(events[0].channel, "hmac.stripe.foo");
}

#[test]
fn channel_prefix_config_is_used() {
    let mut cfg = config(Algorithm::Sha256, Encoding::Hex, None);
    cfg.channel_prefix = "stripe".to_string();
    let sig = sign(&cfg, SECRET, BODY);
    let (_, events) =
        handle_hmac_dispatch(&cfg, signed("X-Signature", &sig, "/stripe/live", Some(SECRET)))
            .unwrap();
    assert_eq!(events[0].channel, "stripe.live");
}

#[test]
fn missing_header_is_rejected() {
    let cfg = config(Algorithm::Sha256, Encoding::Hex, None);
    let msg = webhook("POST", "/hmac", None, map(&[("unrelated", "x")]), BODY, Some(SECRET));
    let (reply, events) = handle_hmac_dispatch(&cfg, msg).unwrap();
    assert_eq!(reply.status, 401);
    assert_eq!(reply.body, "missing signature header");
    assert!(events.is_empty());
}

#[test]
fn missing_secret_is_rejected() {
    let cfg = config(Algorithm::Sha256, Encoding::Hex, None);
    let sig = sign(&cfg, SECRET, BODY);
    let (reply, events) =
        handle_hmac_dispatch(&cfg, signed("X-Signature", &sig, "/hmac", None)).unwrap();
    assert_eq!(reply.status, 401);
    assert_eq!(reply.body, "missing secret");
    assert!(events.is_empty());
}

#[test]
fn malformed_hex_signature_is_rejected() {
    let cfg = config(Algorithm::Sha256, Encoding::Hex, None);
    let (reply, events) =
        handle_hmac_dispatch(&cfg, signed("X-Signature", "zzzznothex", "/hmac", Some(SECRET)))
            .unwrap();
    assert_eq!(reply.status, 401);
    assert_eq!(reply.body, "malformed signature");
    assert!(events.is_empty());
}

#[test]
fn missing_expected_prefix_is_rejected() {
    let cfg = config(Algorithm::Sha256, Encoding::Hex, Some("sha256="));
    let raw = sign(&config(Algorithm::Sha256, Encoding::Hex, None), SECRET, BODY);
    let (reply, events) =
        handle_hmac_dispatch(&cfg, signed("X-Signature", &raw, "/hmac", Some(SECRET))).unwrap();
    assert_eq!(reply.status, 401);
    assert_eq!(reply.body, "malformed signature");
    assert!(events.is_empty());
}

#[test]
fn wrong_length_signature_is_rejected() {
    let cfg = config(Algorithm::Sha256, Encoding::Hex, None);
    let (reply, events) =
        handle_hmac_dispatch(&cfg, signed("X-Signature", "deadbeef", "/hmac", Some(SECRET)))
            .unwrap();
    assert_eq!(reply.status, 401);
    assert_eq!(reply.body, "invalid signature");
    assert!(events.is_empty());
}

#[test]
fn mismatched_signature_is_rejected() {
    let cfg = config(Algorithm::Sha256, Encoding::Hex, None);
    let forged = sign(&cfg, "wrong-secret", BODY);
    let (reply, events) =
        handle_hmac_dispatch(&cfg, signed("X-Signature", &forged, "/hmac", Some(SECRET))).unwrap();
    assert_eq!(reply.status, 401);
    assert!(events.is_empty());
}

#[test]
fn tampered_body_is_rejected() {
    let cfg = config(Algorithm::Sha256, Encoding::Hex, None);
    let sig = sign(&cfg, SECRET, BODY);
    let msg = webhook(
        "POST",
        "/hmac",
        None,
        map(&[("X-Signature", sig.as_str())]),
        b"{\"tampered\":true}",
        Some(SECRET),
    );
    let (reply, events) = handle_hmac_dispatch(&cfg, msg).unwrap();
    assert_eq!(reply.status, 401);
    assert!(events.is_empty());
}

#[test]
fn signatures_of_known_values() {
    // RFC 2202 and RFC 4231: key "Jefe", "what do ya want for nothing?".
    let message = b"what do ya want for nothing?";
    let hex = |algorithm| sign(&config(algorithm, Encoding::Hex, None), "Jefe", message);
    assert_eq!(hex(Algorithm::Sha1), "effcdf6ae5eb2fa2d27416d5f184df9c259a7c79");
    assert_eq!(
        hex(Algorithm::Sha256),
        "5bdcc146bf60754e6a042426089575c75a003f089d2739839dec58b964ec3843"
    );
    assert_eq!(
        hex(Algorithm::Sha512),
        "164b7a7bfcf819e2e395fbe73b56e0a387bd64222e831fd610270cd7ea2505549758bf75c05a994a6d034f65f8f0e6fdcaeab1a34d4a6b4b636e070a38bce737"
    );
    assert_eq!(
        hmac_sha256_hex("Jefe", message),
        "5bdcc146bf60754e6a042426089575c75a003f089d2739839dec58b964ec3843"
    );
    assert_eq!(
        sign(&config(Algorithm::Sha1, Encoding::Base64, Some("v1=")), "Jefe", message),
        "v1=7/zfauXrL6LSdBbV8YTfnCWafHk="
    );
}

#[test]
fn a_signature_may_have_white_space_around_it() {
    let cfg = config(Algorithm::Sha256, Encoding::Hex, Some("sha256="));
    let sig = sign(&config(Algorithm::Sha256, Encoding::Hex, None), SECRET, BODY);
    let padded = format!("sha256= {sig} ");
    let (reply, _) =
        handle_hmac_dispatch(&cfg, signed("X-Signature", &padded, "/hmac", Some(SECRET))).unwrap();
    assert_eq!(reply.status, 200);
    let headers = map(&[("x-signature", padded.as_str())]);
    match provided_signature(&cfg, &headers) {
        HeaderSignature::Signature(bytes) => assert_eq!(bytes.len(), 32),
        other => panic!("unexpected {other:?}"),
    }
}

#[test]
fn judging_compares_the_bytes() {
    let good = HeaderSignature::Signature(vec![1, 2, 3]);
    let (reply, events) = judge(good, &[1, 2, 3], "hmac.x".to_string(), b"hi").unwrap();
    assert_eq!((reply.status, reply.body.as_str()), (200, "ok"));
    assert_eq!(events[0].channel, "hmac.x");
    assert_eq!(events[0].payload_b64, "aGk=");
    let bad = HeaderSignature::Signature(vec![1, 2, 4]);
    let (reply, events) = judge(bad, &[1, 2, 3], "hmac.x".to_string(), b"hi").unwrap();
    assert_eq!((reply.status, reply.body.as_str()), (401, "invalid signature"));
    assert!(events.is_empty());
}

#[test]
fn settings_make_a_configuration() {
    let cfg = HmacConfig::from_env(None, None, None, None, None).unwrap();
    assert_eq!(cfg.header, "X-Signature");
    assert_eq!(cfg.algorithm, Algorithm::Sha256);
    assert_eq!(cfg.encoding, Encoding::Hex);
    assert_eq!(cfg.prefix, None);
    assert_eq!(cfg.channel_prefix, "hmac");

    let some = |s: &str| Some(s.to_string());
    let cfg = HmacConfig::from_env(
        some("X-Hub-Signature"),
        some(" SHA512 "),
        some("B64"),
        some("sha512="),
        some("Stripe Live"),
    )
    .unwrap();
    assert_eq!(cfg.header, "X-Hub-Signature");
    assert_eq!(cfg.algorithm, Algorithm::Sha512);
    assert_eq!(cfg.encoding, Encoding::Base64);
    assert_eq!(cfg.prefix, some("sha512="));
    assert_eq!(cfg.channel_prefix, "stripe-live");

    // White space alone counts as unset.
    let cfg = HmacConfig::from_env(some("  "), some(""), some("\t"), some(" "), some("")).unwrap();
    assert_eq!(cfg.header, "X-Signature");
    assert_eq!(cfg.prefix, None);
    assert_eq!(non_empty_env(some(" x ")), some(" x "));
    assert_eq!(cfg.clone().channel_prefix, "hmac");
}

#[test]
fn bad_settings_are_reported() {
    let some = |s: &str| Some(s.to_string());
    let e = HmacConfig::from_env(None, some("MD5"), some("octal"), None, None).unwrap_err();
    assert_eq!(e, HmacConfigError::Algorithm("md5".to_string()));
    assert_eq!(
        e.message(),
        "unsupported HMAC algorithm \"md5\" (expected sha1, sha256, or sha512)"
    );
    let e = HmacConfig::from_env(None, None, some("Oct\"al"), None, None).unwrap_err();
    assert_eq!(
        e.message(),
        "unsupported signature encoding \"oct\\\"al\" (expected hex or base64)"
    );
}

#[test]
fn channels_are_derived_from_paths() {
    assert_eq!(derive_channel("hmac", "/hmac"), "hmac");
    assert_eq!(derive_channel("hmac", ""), "hmac");
    assert_eq!(derive_channel("hmac", "/hmac//--/A b/"), "hmac.a-b");
    assert_eq!(channel_token("--Foo Bar--"), "foo-bar");
    assert_eq!(channel_token("***"), "");
}

#[test]
fn encodings_read_what_they_write() {
    for style in [Encoding::Hex, Encoding::Base64] {
        let bytes = [0u8, 1, 127, 128, 255];
        assert_eq!(style.decode(&style.encode(&bytes)), Some(bytes.to_vec()));
        assert_eq!(style.decode("!"), None);
    }
    assert_eq!(Encoding::Hex.encode(&[0xde, 0xad]), "dead");
    assert_eq!(Encoding::Hex.decode("DEad"), Some(vec![0xde, 0xad]));
    assert_eq!(Encoding::Base64.encode(b"hi"), "aGk=");
    assert_eq!(Encoding::Base64.decode("aGk"), None);
}

// Teams

#[test]
fn validation_token_echoes_text_plain() {
    let msg = SrvMsg::Dispatch {
        req_id: 0,
        method: "GET".to_string(),
        path: "/teams".to_string(),
        query: Some("validationToken=abc123".to_string()),
        headers: StringMap::new(),
        body_b64: String::new(),
        secret: None,
    };
    let (reply, events) = handle_teams_dispatch(msg).unwrap();

    assert_eq!(reply.status, 200);
    assert_eq!(reply.headers.get("content-type").unwrap(), "text/plain");
    assert_eq!(reply.body, "abc123");
    assert!(events.is_empty());
}

#[test]
fn graph_notification_resource_becomes_channel() {
    let body = br#"{"value":[{"clientState":"expected","resource":"teams/team-id/channels/general/messages"}]}"#;
    let (reply, events) = handle_teams_dispatch(webhook(
        "POST",
        "/teams",
        None,
        StringMap::new(),
        body,
        Some("expected"),
    ))
    .unwrap();

    assert_eq!(reply.status, 202);
    assert_eq!(events[0].channel, "teams.teams.team-id.channels.general.messages");
}

#[test]
fn graph_notification_requires_matching_client_state_secret() {
    let body = br#"{"value":[{"clientState":"wrong","resource":"teams/team-id/channels/general/messages"}]}"#;
    let (reply, events) = handle_teams_dispatch(webhook(
        "POST",
        "/teams",
        None,
        StringMap::new(),
        body,
        Some("expected"),
    ))
    .unwrap();

    assert_eq!(reply.status, 401);
    assert!(events.is_empty());

    let body = br#"{"value":[{"clientState":"expected","resource":"teams/team-id/channels/general/messages"}]}"#;
    let (reply, events) = handle_teams_dispatch(webhook(
        "POST",
        "/teams",
        None,
        StringMap::new(),
        body,
        Some("expected"),
    ))
    .unwrap();

    assert_eq!(reply.status, 202);
    assert_eq!(events.len(), 1);
}

#[test]
fn one_foreign_notification_refuses_all() {
    let parsed = parse(
        br#"{"value":[{"clientState":"s","resource":"a/b"},{"resource":"c"},{"clientState":"s"}]}"#,
    )
    .unwrap();
    let (reply, events) = answer_notifications(&parsed, "s", b"body").unwrap();
    assert_eq!((reply.status, reply.body.as_str()), (401, "invalid clientState"));
    assert!(events.is_empty());

    let parsed = parse(
        br#"{"value":[{"clientState":"s","resource":"a/b"},{"clientState":"s"},{"clientState":"s","resource":"C:d"}]}"#,
    )
    .unwrap();
    let (reply, events) = answer_notifications(&parsed, "s", b"body").unwrap();
    assert_eq!((reply.status, reply.body.as_str()), (202, "accepted"));
    assert_eq!(events.len(), 2);
    assert_eq!(events[0].channel, "teams.a.b");
    assert_eq!(events[1].channel, "teams.c.d");
    assert_eq!(events[1].payload_b64, "Ym9keQ==");

    let (reply, events) = answer_notifications(&Json::Null, "s", b"body").unwrap();
    assert_eq!(reply.status, 202);
    assert!(events.is_empty());
}

#[test]
fn notifications_need_json_and_a_secret() {
    let no_json = webhook("POST", "/teams", None, StringMap::new(), b"nope", None);
    let e = failure(handle_teams_dispatch(no_json));
    assert_eq!(e, ExtError::TeamsJson);
    assert_eq!(e.message(), "parse teams notification json");
    let no_secret = webhook("POST", "/teams", None, StringMap::new(), b"{}", None);
    let (reply, events) = handle_teams_dispatch(no_secret).unwrap();
    assert_eq!((reply.status, reply.body.as_str()), (401, "missing clientState secret"));
    assert!(events.is_empty());
}

#[test]
fn validation_is_for_get_and_post_only() {
    let query = Some("a=1&validationToken=x%20y+z&validationToken=second");
    let (reply, _) = handle_teams_dispatch(webhook(
        "post",
        "/teams",
        query,
        StringMap::new(),
        b"ignored",
        None,
    ))
    .unwrap();
    assert_eq!(reply.body, "x y z");
    let put = webhook("PUT", "/teams", query, StringMap::new(), b"{}", Some("s"));
    let (reply, _) = handle_teams_dispatch(put).unwrap();
    assert_eq!(reply.status, 202);
}

#[test]
fn queries_are_searched_for_the_token() {
    assert_eq!(validation_token(None), None);
    assert_eq!(validation_token(Some("")), None);
    assert_eq!(validation_token(Some("validationTokens=1")), None);
    assert_eq!(validation_token(Some("validationToken")), Some(String::new()));
    assert_eq!(validation_token(Some("validationToken=a=b")), Some("a=b".to_string()));
}

#[test]
fn percent_escapes_are_decoded() {
    assert_eq!(percent_decode("a%41%4a%4A"), "aAJJ");
    assert_eq!(percent_decode("%e9"), "\u{e9}");
    assert_eq!(percent_decode("100%"), "100%");
    assert_eq!(percent_decode("%4"), "%4");
    assert_eq!(percent_decode("%zz%20"), "%zz ");
    assert_eq!(percent_decode("%+f"), "\u{f}");
    assert_eq!(percent_decode("%%41"), "%A");
    assert_eq!(percent_decode("\u{e9}"), "\u{c3}\u{a9}");
    assert!(can_decode(None));
    assert!(can_decode(Some("validationToken=%\u{e9}")));
    assert!(!can_decode(Some("validationToken=%a\u{20ac}")));
    assert!(can_decode(Some("other=%a\u{20ac}")));
}

#[test]
fn resources_become_parts_of_channels() {
    assert_eq!(resource_to_channel("/Users('x')/Messages/"), "users--x--.messages");
    assert_eq!(resource_to_channel("a..b"), "a.b");
    assert_eq!(resource_to_channel("a...b"), "a..b");
    assert_eq!(resource_to_channel("..."), "");
    assert_eq!(resource_to_channel("a:b.c/d"), "a.b.c.d");
}

// What the extensions share

#[test]
fn headers_are_found_in_any_case() {
    let headers = map(&[("X-B", "upper"), ("x-b", "lower"), ("x-a", "a")]);
    assert_eq!(header_value(&headers, "x-B"), Some("upper"));
    assert_eq!(header_value(&headers, "X-A"), Some("a"));
    assert_eq!(header_value(&headers, "x-c"), None);
}

#[test]
fn kit_answers_and_registers() {
    let reply = text_reply(418, "teapot".to_string());
    assert_eq!((reply.status, reply.body.as_str(), reply.headers.len()), (418, "teapot", 0));
    assert_eq!(decode_body_b64("aGVsbG8="), Ok(b"hello".to_vec()));
    assert_eq!(decode_body_b64("aGVsbG8"), Err(ExtError::InvalidBase64));
    assert!(same_secret("abc", "abc"));
    assert!(!same_secret("abc", "abd"));
    assert!(!same_secret("abc", "ab"));
    match register_message("dev", vec!["d".to_string()], vec![], Json::Null) {
        ExtMsg::Register { protocol, id, paths, channels, .. } => {
            assert_eq!(protocol, 1);
            assert_eq!(id, Some("dev".to_string()));
            assert_eq!(paths, vec!["d".to_string()]);
            assert!(channels.is_empty());
        }
        _ => panic!("expected a registration"),
    }
    assert_eq!(extension_step(&SrvMsg::Shutdown), ExtStep::Stop);
    let mut msg = broken_body();
    if let SrvMsg::Dispatch { req_id, .. } = &mut msg {
        *req_id = 7;
    }
    assert_eq!(extension_step(&msg), ExtStep::Handle { req_id: 7 });
}
