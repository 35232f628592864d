//! Channels, lines, documents and messages.

use whdr::channel::{
    any_pattern_matches, channel_matches, valid_plain_token, validate_channel, validate_pattern,
    ChannelError, Pattern,
};
use whdr::harness::{
    b64, decode_chunked_if_needed, delivery_section, ext_row, request_head, response_body,
    response_status, set_enabled, subscriber_row, write_config, write_secrets, WriteConfig,
};
use whdr::json::{array, object, parse, push_member, show, string, Json};
use whdr::messages::SrvMsg;
use whdr::ndjson::{decode_line, document_line, encode_line, line_payload, NdjsonError};
use whdr::string_map::{drop_value, put_text, StringMap};
use whdr::text::{
    parse_number, precedes, split_on, split_once, strip_prefix, to_decimal, to_lower, trim,
    trim_char,
};

#[test]
fn channel_and_pattern_grammar_matches_spec() {
    assert!(validate_channel("github.push").is_ok());
    assert!(validate_channel("github.pr_opened-1").is_ok());
    assert!(validate_channel("github.*").is_err());

    assert!(validate_pattern(">").is_ok());
    assert!(validate_pattern("github.>").is_ok());
    assert!(validate_pattern("github.*").is_ok());
    assert!(validate_pattern("github.>x").is_err());

    assert!(channel_matches("github.push", "github.push").unwrap());
    assert!(channel_matches("github.push", "github.*").unwrap());
    assert!(!channel_matches("github.pr.opened", "github.*").unwrap());
    assert!(channel_matches("github.pr.opened", "github.>").unwrap());
    assert!(channel_matches("github.pr.opened", ">").unwrap());
    assert!(!channel_matches("stripe.charge", "github.>").unwrap());
}

#[test]
fn each_fault_of_a_channel_is_reported() {
    assert_eq!(validate_channel(""), Err(ChannelError::Empty));
    assert_eq!(validate_channel("a..b"), Err(ChannelError::EmptyToken));
    assert_eq!(validate_channel("a.B"), Err(ChannelError::InvalidToken("B".to_string())));
    assert_eq!(validate_channel("a.>"), Err(ChannelError::WildcardInChannel));
    assert_eq!(validate_channel("*.B"), Err(ChannelError::WildcardInChannel));
    assert_eq!(validate_pattern(">.a"), Err(ChannelError::TailWildcardNotFinal));
    assert_eq!(validate_pattern(""), Err(ChannelError::Empty));
    assert_eq!(ChannelError::Empty.message(), "empty channel");
    assert_eq!(ChannelError::EmptyToken.message(), "empty token");
    assert_eq!(
        ChannelError::InvalidToken("B".to_string()).clone().message(),
        "invalid token: B"
    );
    assert_eq!(
        ChannelError::WildcardInChannel.message(),
        "wildcard is not valid in channels"
    );
    assert_eq!(
        ChannelError::TailWildcardNotFinal.message(),
        "'>' wildcard must be the final pattern token"
    );
}

#[test]
fn patterns_select_channels() {
    let tail = Pattern::new("github.>".to_string()).unwrap();
    assert_eq!(tail.as_str(), "github.>");
    assert_eq!(tail.matches("github.push"), Ok(true));
    // A tail stands for one token at least.
    assert_eq!(tail.matches("github"), Ok(false));
    assert_eq!(tail.matches("Github"), Err(ChannelError::InvalidToken("Github".to_string())));
    assert!(Pattern::new("a..b".to_string()).is_err());
    let inner = Pattern::new("*.x".to_string()).unwrap();
    let both = [tail.clone(), inner];
    assert!(any_pattern_matches(&both, "dev.x"));
    assert!(!any_pattern_matches(&both, "dev.y"));
    assert!(!any_pattern_matches(&both, "dev..x"));
    assert_eq!(channel_matches("a.b.c", "*.b.>"), Ok(true));
    assert_eq!(channel_matches("A", "b..c"), Err(ChannelError::InvalidToken("A".to_string())));
    assert!(valid_plain_token("a_-9"));
    assert!(!valid_plain_token(""));
}

#[test]
fn ndjson_skips_blank_lines_and_reports_malformed_json() {
    assert!(decode_line("   \n").unwrap().is_none());
    let err = decode_line("{not-json}\n").unwrap_err();
    assert!(err.message().contains("malformed json"));
}

#[test]
fn bytes_are_written_in_base64() {
    assert_eq!(b64(b""), "");
    assert_eq!(b64(&[0xfb, 0xff]), "+/8=");
}

#[test]
fn a_document_comes_back_from_its_line() {
    let text = |s: &str| Json::Text(s.to_string());
    let document = Json::Object(vec![
        ("b".to_string(), Json::Array(vec![text("a\nb"), Json::Unsigned(7), Json::Null])),
        ("a".to_string(), Json::Negative(-1)),
        ("b".to_string(), Json::Array(vec![text("x\u{2028}\t"), Json::Negative(3)])),
        ("c".to_string(), Json::Real("0.5".to_string())),
        ("d".to_string(), Json::Real("no number".to_string())),
    ]);
    let line = document_line(&document);
    assert_eq!(
        line,
        "{\"a\":-1,\"b\":[\"x\u{2028}\\t\",3],\"c\":0.5,\"d\":null}\n"
    );
    let read = decode_line(&line).unwrap().unwrap();
    assert!(matches!(read.get("a"), Some(Json::Negative(-1))));
    let items = read.get("b").unwrap().as_array().unwrap();
    assert_eq!(items[0].as_str(), Some("x\u{2028}\t"));
    assert_eq!(items[1].as_u64(), Some(3));
    assert_eq!(document_line(&read), line);

    let nested = |depth: usize| {
        let mut document = Json::Null;
        for _ in 0..depth {
            document = Json::Array(vec![document]);
        }
        document_line(&document)
    };
    assert!(decode_line(&nested(127)).is_ok());
    assert!(decode_line(&nested(128)).is_err());
}

#[test]
fn a_line_carries_one_document() {
    assert_eq!(encode_line("{\"type\":\"pong\"}"), "{\"type\":\"pong\"}\n");
    assert_eq!(line_payload(" {} \r\n"), Some("{}".to_string()));
    assert_eq!(line_payload("\u{3000}\n"), None);
    let held = decode_line("{\"a\": [1, -2, 0.5, true, null, \"x\"]}\n").unwrap().unwrap();
    let items = held.get("a").unwrap().as_array().unwrap();
    assert_eq!(items.len(), 6);
    assert_eq!(items[0].as_u64(), Some(1));
    assert!(matches!(items[1], Json::Negative(-2)));
    assert!(matches!(&items[2], Json::Real(s) if s == "0.5"));
    assert!(matches!(items[3], Json::Bool(true)));
    assert!(matches!(items[4], Json::Null));
    assert_eq!(items[5].as_str(), Some("x"));
    assert!(held.get("b").is_none());
    assert!(Json::Null.get("a").is_none());
    let NdjsonError::MalformedJson(_) = decode_line("{").unwrap_err();
}

#[test]
fn documents_are_written() {
    let mut members = Vec::new();
    push_member(&mut members, "b", Json::Unsigned(1));
    push_member(&mut members, "a", array(vec![string("x\"y"), Json::Negative(-3)]));
    assert_eq!(show(&object(members)), "{\"a\":[\"x\\\"y\",-3],\"b\":1}");
    assert_eq!(show(&Json::Null), "null");
    assert_eq!(show(&Json::Bool(false)), "false");
    assert_eq!(show(&Json::Unsigned(u64::MAX)), "18446744073709551615");
    assert_eq!(show(&parse(b"[1.5,true]").unwrap()), "[1.5,true]");
    assert!(parse(b"[1,]").is_err());
}

#[test]
fn dispatch_debug_redacts_secret() {
    let msg = SrvMsg::Dispatch {
        req_id: 0,
        method: "POST".to_string(),
        path: "/github".to_string(),
        query: None,
        headers: StringMap::new(),
        body_b64: "e30=".to_string(),
        secret: Some("top-secret-token".to_string()),
    };

    let rendered = msg.debug_text();
    assert!(rendered.contains("<redacted>"));
    assert!(!rendered.contains("top-secret-token"));
    assert_eq!(
        rendered,
        "Dispatch { req_id: 00000000-0000-0000-0000-000000000000, method: \"POST\", path: \"/github\", query: None, headers: {}, body_b64: \"e30=\", secret: Some(\"<redacted>\") }"
    );
}

#[test]
fn dispatches_are_shown_with_their_headers() {
    let mut headers: StringMap<String> = StringMap::new();
    put_text(&mut headers, "b", "2");
    put_text(&mut headers, "a", "1\n");
    let msg = SrvMsg::Dispatch {
        req_id: 0x1234_5678_9abc_def0_0fed_cba9_8765_4321,
        method: "GET".to_string(),
        path: "/".to_string(),
        query: Some("q=1".to_string()),
        headers,
        body_b64: String::new(),
        secret: None,
    };
    assert_eq!(
        msg.debug_text(),
        "Dispatch { req_id: 12345678-9abc-def0-0fed-cba987654321, method: \"GET\", path: \"/\", query: Some(\"q=1\"), headers: {\"a\": \"1\\n\", \"b\": \"2\"}, body_b64: \"\", secret: None }"
    );
    assert_eq!(SrvMsg::Shutdown.debug_text(), "Shutdown");
}

#[test]
fn string_maps_keep_their_keys_in_order() {
    let mut map: StringMap<String> = StringMap::new();
    for key in ["b", "", "aa", "a", "b"] {
        map.insert(key.to_string(), format!("<{key}>"));
    }
    assert_eq!(map.len(), 4);
    let keys: Vec<&str> = (0..map.len()).map(|i| map.key_at(i).as_str()).collect();
    assert_eq!(keys, vec!["", "a", "aa", "b"]);
    assert_eq!(map.value_at(2), "<aa>");
    assert_eq!(map.insert("a".to_string(), "new".to_string()), Some("<a>".to_string()));
    assert_eq!(map.get("a"), Some(&"new".to_string()));
    assert_eq!(map.remove("a"), Some("new".to_string()));
    assert_eq!(map.remove("a"), None);
    assert!(!map.contains_key("a"));
    drop_value(&mut map, "<b>");
    assert_eq!(map.len(), 2);
}

#[test]
fn texts_are_taken_apart() {
    assert_eq!(split_on("a..b", '.'), vec!["a", "", "b"]);
    assert_eq!(split_on("", '.'), vec![""]);
    assert_eq!(split_once("a=b=c", '='), ("a".to_string(), "b=c".to_string()));
    assert_eq!(split_once("abc", '='), ("abc".to_string(), String::new()));
    assert_eq!(trim(" \u{a0}x y\t\n"), "x y");
    assert_eq!(trim_char("--a-b--", '-'), "a-b");
    assert_eq!(to_lower("AbC-\u{c4}"), "abc-\u{c4}");
    assert_eq!(strip_prefix("Bearer x", "Bearer "), Some("x".to_string()));
    assert_eq!(strip_prefix("Bear", "Bearer "), None);
    assert_eq!(to_decimal(0), "0");
    assert_eq!(to_decimal(u64::MAX), "18446744073709551615");
    assert!(precedes("a", "aa"));
    assert!(!precedes("b", "aa"));
    assert_eq!(parse_number("+ff", 16, u64::MAX), Some(255));
    assert_eq!(parse_number("65536", 10, 65_535), None);
    assert_eq!(parse_number("-1", 10, 65_535), None);
    assert_eq!(parse_number("+", 10, 65_535), None);
    assert_eq!(parse_number("0000000000000000000000000007", 10, 9), Some(7));
}

#[test]
fn rows_of_a_status_are_found() {
    let status = parse(
        br#"{"extensions":[{"id":"a","n":1},{"id":"b","n":2},{"id":"b","n":3}],"subscribers":[{"name":"p"}]}"#,
    )
    .unwrap();
    let row = ext_row(&status, "b").unwrap();
    assert_eq!(row.get("n").unwrap().as_u64(), Some(2));
    assert!(ext_row(&status, "c").is_none());
    assert!(subscriber_row(&status, "p").is_some());
    assert!(subscriber_row(&Json::Null, "p").is_none());
}

#[test]
fn configuration_files_are_written_and_changed() {
    let text = write_config(&WriteConfig {
        ingest_addr: "127.0.0.1:1".to_string(),
        sub_addr: "127.0.0.1:2".to_string(),
        metrics_addr: "127.0.0.1:3".to_string(),
        control_socket: "/t/ctl.sock".to_string(),
        token_store: "/t/tokens.toml".to_string(),
        enabled: vec!["alpha".to_string(), "beta".to_string()],
        secrets_path: "/t/secrets.toml".to_string(),
        limits: "max_in_flight = 1".to_string(),
        timeouts: String::new(),
        delivery: Some(delivery_section("/t/d.redb", "max_events = 1")),
    });
    assert_eq!(
        text,
        "[server]\nlisten_addr = \"127.0.0.1:1\"\nsub_addr = \"127.0.0.1:2\"\nmetrics_addr = \"127.0.0.1:3\"\ncontrol_socket = \"/t/ctl.sock\"\n\n[subscribers]\ntoken_store = \"/t/tokens.toml\"\n\n[extensions]\nenabled = [\"alpha\", \"beta\"]\n\n[limits]\nmax_in_flight = 1\n\n[timeouts]\n\n\n[delivery]\nenabled = true\nstore_path = \"/t/d.redb\"\nmax_events = 1\n[secrets]\nfile = \"/t/secrets.toml\"\n"
    );
    let changed = set_enabled("a\r\nenabled = [\"x\"]\nenabled=1\nlast", &["y".to_string()]);
    // Every line that begins so is replaced, and every line is ended.
    assert_eq!(changed, "a\nenabled = [\"y\"]\nenabled=1\nlast\n");
    assert_eq!(set_enabled("", &[]), "");
    assert_eq!(
        write_secrets(&["a".to_string(), "b".to_string()]),
        "a = \"secret-a\"\nb = \"secret-b\"\n"
    );
}

#[test]
fn responses_are_read() {
    assert_eq!(
        request_head("POST", "/alpha", 5),
        "POST /alpha HTTP/1.1\r\nHost: whdr-test\r\nContent-Length: 5\r\nConnection: close\r\n\r\n"
    );
    let plain = "HTTP/1.1 202 Accepted\r\nX: y\r\n\r\nhi\r\n\r\nthere";
    assert_eq!(response_status(plain), Some(202));
    assert_eq!(response_body(plain), "hi\r\n\r\nthere");
    let chunked =
        "HTTP/1.1 200 OK\r\nTransfer-Encoding: chunked\r\n\r\n5\r\nhello\r\n 6 \r\n world\r\n0\r\n\r\n";
    assert_eq!(response_body(chunked), "hello world");
    assert_eq!(response_status("nonsense"), None);
    assert_eq!(response_status("HTTP/1.1 70000"), None);
    assert_eq!(response_body("HTTP/1.1 204"), "");
    // A chunk that is longer than what is left ends with it.
    assert_eq!(
        decode_chunked_if_needed("transfer-encoding: chunked", "ff\r\nab".to_string()),
        "ab"
    );
    assert_eq!(
        decode_chunked_if_needed("transfer-encoding: chunked", "3\r\n\u{20ac}\r\n1\r\nx".to_string()),
        "\u{20ac}x"
    );
    assert_eq!(decode_chunked_if_needed("", "5\r\nhello".to_string()), "5\r\nhello");
}
