use peakypanes_bridge::codec::decode_request;
use peakypanes_bridge::codec::decode_response;
use peakypanes_bridge::codec::encode_response;
use peakypanes_bridge::msg::Response;
use peakypanes_bridge::msg::SessionInfo;

#[test]
fn decode_reads_all_fields() {
    let req = decode_request(
        r#" { "action" : "send_keys" , "session" : "s", "tab_position" : 4,
             "pane_id" : 9 , "lines" : 10 , "text" : "echo hi\n", "new_name" : "n" } "#,
    )
    .expect("payload should decode");
    assert_eq!(req.action, "send_keys");
    assert_eq!(req.session.as_deref(), Some("s"));
    assert_eq!(req.tab_position, Some(4));
    assert_eq!(req.pane_id, Some(9));
    assert_eq!(req.lines, Some(10));
    assert_eq!(req.text.as_deref(), Some("echo hi\n"));
    assert_eq!(req.new_name.as_deref(), Some("n"));
}

#[test]
fn decode_ignores_unknown_keys() {
    let req = decode_request(
        r#"{"action":"snapshot","extra":{"deep":[1,2,{"x":null}]},"flag":true,"other":"y"}"#,
    )
    .expect("unknown keys are ignored");
    assert_eq!(req.action, "snapshot");
    assert!(req.session.is_none());
}

#[test]
fn decode_rejects_malformed_payloads() {
    for payload in [
        "",
        "not json",
        "[1,2,3]",
        r#""just a string""#,
        r#"{"action":"snapshot""#,
        r#"{"action":12}"#,
        r#"{}"#,
        r#"{"action":"snapshot","pane_id":"3"}"#,
        r#"{"action":"snapshot","pane_id":-1}"#,
        r#"{"action":"snapshot","pane_id":1.5}"#,
        r#"{"action":"snapshot","pane_id":99999999999}"#,
        r#"{"action":"snapshot","text":3}"#,
        r#"{"action":"snapshot","x":01}"#,
        r#"{"action":"snapshot","x":1.}"#,
        r#"{"action":"snapshot","x":1.e2}"#,
        r#"{"action":"snapshot","x":1e}"#,
        r#"{"action":"snapshot","x":-}"#,
        r#"{"action":"snapshot","x":+1}"#,
        r#"{"action":"snapshot","x":--1}"#,
    ] {
        let err = decode_request(payload).expect_err(payload);
        assert_eq!(err, "invalid request", "payload: {payload}");
    }
}

#[test]
fn decode_accepts_string_escapes() {
    let req = decode_request(
        r#"{"action":"send_keys","pane_id":0,"text":"a\"b\\c\nd\u0041\u00e9\t\r\b\f\/"}"#,
    )
    .expect("escapes should decode");
    assert_eq!(
        req.text.as_deref(),
        Some("a\"b\\c\nd\u{41}\u{e9}\t\r\u{8}\u{c}/")
    );
}

#[test]
fn decode_accepts_surrogate_pair_escapes() {
    let payload = r#"{"action":"send_keys","pane_id":0,"text":"\uD83D\uDE00 and \uD834\uDD1E"}"#;
    let req = decode_request(payload).expect("surrogate pairs should decode");
    assert_eq!(req.text.as_deref(), Some("\u{1F600} and \u{1D11E}"));
    let value: serde_json::Value = serde_json::from_str(payload).unwrap();
    assert_eq!(value["text"].as_str(), req.text.as_deref());
}

#[test]
fn decode_rejects_lone_surrogate_escapes() {
    for payload in [
        r#"{"action":"snapshot","text":"\uD800"}"#,
        r#"{"action":"snapshot","text":"\uDC00"}"#,
        r#"{"action":"snapshot","text":"\uD800x"}"#,
        r#"{"action":"snapshot","text":"\uD800\u0041"}"#,
        r#"{"action":"snapshot","text":"\uD800\uD800"}"#,
    ] {
        let err = decode_request(payload).expect_err(payload);
        assert_eq!(err, "invalid request", "payload: {payload}");
    }
}

#[test]
fn decode_ignores_numbers_of_any_shape_under_unknown_keys() {
    let payload = r#"{"action":"snapshot","a":-1,"b":1.5,"c":6.02e23,"d":1e-9,"e":-0.5E+3,"f":184467440737095516150,"g":[0,-0.25]}"#;
    let req = decode_request(payload).expect("unknown keys carry any JSON number");
    assert_eq!(req.action, "snapshot");
    // serde reads the same document.
    let value: serde_json::Value = serde_json::from_str(payload).unwrap();
    assert_eq!(value["a"].as_i64(), Some(-1));
    assert_eq!(value["b"].as_f64(), Some(1.5));
}

#[test]
fn encode_failure_response() {
    let resp = Response::err("boom".to_string());
    assert_eq!(encode_response(&resp), r#"{"ok":false,"error":"boom"}"#);
}

#[test]
fn encode_empty_success_response() {
    let resp = Response::ok_empty();
    assert_eq!(encode_response(&resp), r#"{"ok":true}"#);
}

#[test]
fn encode_escapes_session_names() {
    let resp = Response::ok_sessions(vec![SessionInfo {
        name: "a\"b\\c\nd\te\u{1}".to_string(),
    }]);
    assert_eq!(
        encode_response(&resp),
        r#"{"ok":true,"sessions":[{"name":"a\"b\\c\nd\te\u0001"}]}"#
    );
}

#[test]
fn response_round_trip_preserves_sessions() {
    let resp = Response::ok_sessions(vec![
        SessionInfo {
            name: "plain".to_string(),
        },
        SessionInfo {
            name: "needs \"escaping\"\n\u{3}".to_string(),
        },
    ]);
    let wire = encode_response(&resp);
    let back = decode_response(&wire).expect("own encoding must decode");
    assert!(back.ok);
    assert!(back.error.is_none());
    assert!(back.lines.is_none());
    let names: Vec<String> = back
        .sessions
        .expect("sessions are populated")
        .into_iter()
        .map(|s| s.name)
        .collect();
    assert_eq!(names, ["plain", "needs \"escaping\"\n\u{3}"]);
}

#[test]
fn response_round_trip_preserves_lines() {
    let resp = Response::ok_lines(vec!["one".to_string(), "two\two".to_string()]);
    let wire = encode_response(&resp);
    let back = decode_response(&wire).expect("own encoding must decode");
    assert!(back.ok && back.error.is_none() && back.sessions.is_none());
    assert_eq!(
        back.lines.expect("lines are populated"),
        ["one", "two\two"]
    );
}

#[test]
fn encoded_response_is_valid_json_for_serde() {
    let resp = Response::ok_sessions(vec![SessionInfo {
        name: "tricky \"name\" with \\ and \u{7}".to_string(),
    }]);
    let wire = encode_response(&resp);
    let value: serde_json::Value = serde_json::from_str(&wire).expect("serde must accept it");
    assert_eq!(value["ok"], serde_json::Value::Bool(true));
    assert_eq!(
        value["sessions"][0]["name"].as_str(),
        Some("tricky \"name\" with \\ and \u{7}")
    );
    assert!(value.get("error").is_none());
    assert!(value.get("lines").is_none());
}

#[test]
fn decoder_agrees_with_serde_on_numbers() {
    let payload = r#"{"action":"pane_scrollback","pane_id":4294967295,"lines":0}"#;
    let req = decode_request(payload).expect("bounds are inclusive");
    assert_eq!(req.pane_id, Some(u32::MAX));
    assert_eq!(req.lines, Some(0));
    let value: serde_json::Value = serde_json::from_str(payload).unwrap();
    assert_eq!(value["pane_id"].as_u64(), Some(u32::MAX as u64));
}
