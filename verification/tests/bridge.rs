use peakypanes_bridge::cache::SessionCache;
use peakypanes_bridge::codec::encode_response;
use peakypanes_bridge::dispatch::dispatch;
use peakypanes_bridge::dispatch::keep_last;
use peakypanes_bridge::dispatch::scrollback_reply;
use peakypanes_bridge::dispatch::HostCall;
use peakypanes_bridge::dispatch::Outcome;
use peakypanes_bridge::dispatch::PaneScrollback;
use peakypanes_bridge::msg::SessionInfo;
use peakypanes_bridge::pipe::plan_pipe_message;
use peakypanes_bridge::pipe::PipePlan;

fn cache_of(names: &[&str]) -> SessionCache {
    let mut cache = SessionCache::new();
    cache.replace(
        names
            .iter()
            .map(|n| SessionInfo { name: n.to_string() })
            .collect(),
    );
    cache
}

fn dispatch_payload(payload: &str, cache: &SessionCache) -> Outcome {
    match plan_pipe_message("peakypanes", Some(payload)) {
        PipePlan::Dispatch(req) => dispatch(req, cache),
        PipePlan::Reply(resp) => Outcome::Reply(resp),
        PipePlan::Ignore => panic!("message unexpectedly ignored"),
    }
}

#[test]
fn snapshot_end_to_end() {
    let cache = cache_of(&["work"]);
    let outcome = dispatch_payload(r#"{"action":"snapshot"}"#, &cache);
    match outcome {
        Outcome::Reply(resp) => {
            assert_eq!(
                encode_response(&resp),
                r#"{"ok":true,"sessions":[{"name":"work"}]}"#
            );
        }
        Outcome::Call(_) => panic!("snapshot should reply directly"),
    }
}

#[test]
fn scrollback_end_to_end() {
    let cache = cache_of(&[]);
    let outcome = dispatch_payload(r#"{"action":"pane_scrollback","pane_id":3,"lines":2}"#, &cache);
    let (pane_id, limit) = match outcome {
        Outcome::Call(HostCall::FetchScrollback { pane_id, limit }) => (pane_id, limit),
        _ => panic!("pane_scrollback should request a fetch"),
    };
    assert_eq!(pane_id, 3);
    assert_eq!(limit, 2);
    let fetched = Ok(PaneScrollback {
        lines_above_viewport: vec!["a".to_string(), "b".to_string()],
        viewport: vec!["c".to_string()],
        lines_below_viewport: vec!["d".to_string()],
    });
    let resp = scrollback_reply(fetched, limit);
    assert_eq!(encode_response(&resp), r#"{"ok":true,"lines":["c","d"]}"#);
}

#[test]
fn scrollback_error_is_surfaced_verbatim() {
    let resp = scrollback_reply(Err("pane not found".to_string()), 0);
    assert_eq!(
        encode_response(&resp),
        r#"{"ok":false,"error":"pane not found"}"#
    );
}

#[test]
fn send_keys_missing_text_end_to_end() {
    let cache = cache_of(&[]);
    let outcome = dispatch_payload(r#"{"action":"send_keys","pane_id":3}"#, &cache);
    match outcome {
        Outcome::Reply(resp) => {
            assert_eq!(
                encode_response(&resp),
                r#"{"ok":false,"error":"text is required"}"#
            );
        }
        Outcome::Call(_) => panic!("invalid send_keys must not reach the host"),
    }
}

#[test]
fn non_matching_channel_is_ignored() {
    match plan_pipe_message("other", Some(r#"{"action":"snapshot"}"#)) {
        PipePlan::Ignore => {}
        _ => panic!("messages on other channels must be ignored"),
    }
    match plan_pipe_message("peakypanes", None) {
        PipePlan::Ignore => {}
        _ => panic!("messages without a payload must be ignored"),
    }
}

#[test]
fn unknown_action_fails_regardless_of_other_fields() {
    let cache = cache_of(&["s"]);
    for payload in [
        r#"{"action":"bogus"}"#,
        r#"{"action":"bogus","pane_id":1,"text":"x","session":"s"}"#,
        r#"{"action":""}"#,
    ] {
        match dispatch_payload(payload, &cache) {
            Outcome::Reply(resp) => {
                assert!(!resp.ok);
                assert_eq!(resp.error.as_deref(), Some("unknown action"));
                assert!(resp.sessions.is_none());
                assert!(resp.lines.is_none());
            }
            Outcome::Call(_) => panic!("unknown actions must not reach the host"),
        }
    }
}

#[test]
fn first_missing_field_is_named_in_declared_order() {
    let cache = cache_of(&[]);
    let cases = [
        (r#"{"action":"pane_scrollback"}"#, "pane_id is required"),
        (r#"{"action":"send_keys"}"#, "pane_id is required"),
        (r#"{"action":"send_keys","text":"x"}"#, "pane_id is required"),
        (r#"{"action":"send_keys","pane_id":1}"#, "text is required"),
        (r#"{"action":"rename_session"}"#, "new_name is required"),
        (r#"{"action":"rename_tab"}"#, "tab_position is required"),
        (
            r#"{"action":"rename_tab","new_name":"x"}"#,
            "tab_position is required",
        ),
        (
            r#"{"action":"rename_tab","tab_position":1}"#,
            "new_name is required",
        ),
        (r#"{"action":"switch_session"}"#, "session is required"),
    ];
    for (payload, expected) in cases {
        match dispatch_payload(payload, &cache) {
            Outcome::Reply(resp) => {
                assert!(!resp.ok, "payload: {payload}");
                assert_eq!(resp.error.as_deref(), Some(expected), "payload: {payload}");
            }
            Outcome::Call(_) => panic!("invalid request must not reach the host: {payload}"),
        }
    }
}

#[test]
fn valid_actions_map_to_host_calls() {
    let cache = cache_of(&[]);
    match dispatch_payload(
        r#"{"action":"send_keys","pane_id":7,"text":"ls\n"}"#,
        &cache,
    ) {
        Outcome::Call(HostCall::SendKeys { pane_id, text }) => {
            assert_eq!(pane_id, 7);
            assert_eq!(text, "ls\n");
        }
        _ => panic!("send_keys should request a host call"),
    }
    match dispatch_payload(r#"{"action":"rename_session","new_name":"n"}"#, &cache) {
        Outcome::Call(HostCall::RenameSession { new_name }) => assert_eq!(new_name, "n"),
        _ => panic!("rename_session should request a host call"),
    }
    match dispatch_payload(
        r#"{"action":"rename_tab","tab_position":2,"new_name":"t"}"#,
        &cache,
    ) {
        Outcome::Call(HostCall::RenameTab {
            tab_position,
            new_name,
        }) => {
            assert_eq!(tab_position, 2);
            assert_eq!(new_name, "t");
        }
        _ => panic!("rename_tab should request a host call"),
    }
    match dispatch_payload(
        r#"{"action":"switch_session","session":"s","tab_position":1}"#,
        &cache,
    ) {
        Outcome::Call(HostCall::SwitchSession {
            session,
            tab_position,
        }) => {
            assert_eq!(session, "s");
            assert_eq!(tab_position, Some(1));
        }
        _ => panic!("switch_session should request a host call"),
    }
}

#[test]
fn snapshot_returns_contents_verbatim_and_does_not_mutate() {
    let cache = cache_of(&["a", "b"]);
    let first = cache.snapshot();
    let names: Vec<&str> = first.iter().map(|s| s.name.as_str()).collect();
    assert_eq!(names, ["a", "b"]);
    // A second read observes the same contents: reading did not mutate.
    let second = cache.snapshot();
    let names: Vec<&str> = second.iter().map(|s| s.name.as_str()).collect();
    assert_eq!(names, ["a", "b"]);
}

#[test]
fn replace_supersedes_previous_state() {
    let mut cache = cache_of(&["old"]);
    cache.replace(vec![SessionInfo {
        name: "new".to_string(),
    }]);
    let names: Vec<String> = cache.snapshot().into_iter().map(|s| s.name).collect();
    assert_eq!(names, ["new"]);
}

fn lines(names: &[&str]) -> Vec<String> {
    names.iter().map(|s| s.to_string()).collect()
}

#[test]
fn truncation_keeps_last_lines_only() {
    assert_eq!(keep_last(lines(&["a", "b", "c", "d"]), 2), lines(&["c", "d"]));
    assert_eq!(
        keep_last(lines(&["a", "b", "c", "d"]), 0),
        lines(&["a", "b", "c", "d"])
    );
    assert_eq!(
        keep_last(lines(&["a", "b"]), 5),
        lines(&["a", "b"])
    );
    assert_eq!(keep_last(lines(&["a", "b"]), 2), lines(&["a", "b"]));
    assert_eq!(keep_last(lines(&[]), 3), lines(&[]));
}
