use gdcli::exec::{
    bearer_header, body_is_json, build_body, map_status_to_exit, request_url, status_error_output, success_output,
    BuildBodyOutcome,
};

fn args(vs: &[&str]) -> Vec<String> {
    vs.iter().map(|s| s.to_string()).collect()
}

#[test]
fn non_help_with_extra_positional_is_rejected() {
    let out = build_body("ping", &args(&["unexpected"]), None);
    match out {
        BuildBodyOutcome::Reject(m) => assert!(m.contains("positional"), "msg should mention positional: {}", m),
        _ => panic!("should reject"),
    }
}

#[test]
fn non_help_with_data_passes_through() {
    let out = build_body("foo", &[], Some(r#"{"x":1}"#));
    match out {
        BuildBodyOutcome::Body(s) => assert_eq!(s, r#"{"x":1}"#),
        BuildBodyOutcome::Reject(m) => panic!("unexpected reject: {}", m),
        _ => panic!("unexpected outcome"),
    }
}

#[test]
fn non_help_no_args_no_data_yields_empty_object() {
    let out = build_body("ping", &[], None);
    match out {
        BuildBodyOutcome::Body(s) => assert_eq!(s, "{}"),
        BuildBodyOutcome::Reject(m) => panic!("unexpected reject: {}", m),
        _ => panic!("unexpected outcome"),
    }
}

#[test]
fn commands_no_args_no_data_yields_empty_object() {
    let out = build_body("command/list", &[], None);
    match out {
        BuildBodyOutcome::Body(s) => assert_eq!(s, "{}"),
        BuildBodyOutcome::Reject(m) => panic!("unexpected reject: {}", m),
        _ => panic!("unexpected outcome"),
    }
}

#[test]
fn commands_with_args_is_rejected() {
    let out = build_body("command/list", &args(&["unexpected"]), None);
    match out {
        BuildBodyOutcome::Reject(m) => assert!(m.contains("arguments"), "msg should mention arguments: {}", m),
        _ => panic!("should reject"),
    }
}

#[test]
fn commands_with_data_is_rejected() {
    let out = build_body("command/list", &[], Some("{}"));
    match out {
        BuildBodyOutcome::Reject(m) => assert!(m.contains("--data"), "msg should mention --data: {}", m),
        _ => panic!("should reject"),
    }
}

#[test]
fn command_help_with_arg_builds_command_object() {
    let out = build_body("command/doc", &args(&["godot/version"]), None);
    match out {
        BuildBodyOutcome::Body(s) => assert_eq!(s, r#"{"command":"godot/version"}"#),
        BuildBodyOutcome::Reject(m) => panic!("unexpected reject: {}", m),
        _ => panic!("unexpected outcome"),
    }
}

#[test]
fn command_help_without_arg_is_rejected() {
    let out = build_body("command/doc", &[], None);
    match out {
        BuildBodyOutcome::Reject(m) => assert!(m.contains("requires"), "msg should mention requires: {}", m),
        _ => panic!("should reject"),
    }
}

#[test]
fn command_help_with_multiple_args_is_rejected() {
    let out = build_body("command/doc", &args(&["a", "b"]), None);
    match out {
        BuildBodyOutcome::Reject(m) => assert!(m.contains("exactly one"), "msg should mention exactly one: {}", m),
        _ => panic!("should reject"),
    }
}

#[test]
fn command_help_with_data_is_rejected() {
    let out = build_body("command/doc", &args(&["godot/version"]), Some("{}"));
    match out {
        BuildBodyOutcome::Reject(m) => assert!(m.contains("--data"), "msg should mention --data: {}", m),
        _ => panic!("should reject"),
    }
}

#[test]
fn reject_messages_are_exact() {
    match build_body("command/list", &args(&["a"]), None) {
        BuildBodyOutcome::Reject(m) => assert_eq!(m, r#"'command/list' does not accept arguments, got ["a"]"#),
        _ => panic!("should reject"),
    }
    match build_body("command/doc", &args(&["a", "b"]), None) {
        BuildBodyOutcome::Reject(m) => assert_eq!(
            m,
            r#"'command/doc' requires exactly one argument (command path), got 2: ["a", "b"]"#
        ),
        _ => panic!("should reject"),
    }
    match build_body("ping", &args(&["x"]), None) {
        BuildBodyOutcome::Reject(m) => assert_eq!(m, r#"unexpected positional arguments for 'ping': ["x"]"#),
        _ => panic!("should reject"),
    }
}

#[test]
fn data_from_stdin_or_file() {
    assert!(matches!(build_body("ping", &[], Some("-")), BuildBodyOutcome::FromStdin));
    match build_body("ping", &[], Some("@body.json")) {
        BuildBodyOutcome::FromFile(p) => assert_eq!(p, "body.json"),
        _ => panic!("expected a file"),
    }
}

#[test]
fn command_doc_route_is_json_escaped() {
    match build_body("command/doc", &args(&["a\"b"]), None) {
        BuildBodyOutcome::Body(s) => assert_eq!(s, r#"{"command":"a\"b"}"#),
        _ => panic!("expected a body"),
    }
}

#[test]
fn exit_codes_follow_status() {
    assert_eq!(map_status_to_exit(200, false), 0);
    assert_eq!(map_status_to_exit(299, false), 0);
    assert_eq!(map_status_to_exit(200, true), 1);
    assert_eq!(map_status_to_exit(404, true), 2);
    assert_eq!(map_status_to_exit(500, true), 1);
    assert_eq!(map_status_to_exit(302, false), 1);
}

#[test]
fn url_drops_leading_slashes() {
    assert_eq!(request_url(7891, "//scene/create"), "http://127.0.0.1:7891/scene/create");
    assert_eq!(request_url(80, "ping"), "http://127.0.0.1:80/ping");
}

#[test]
fn bearer_only_for_non_empty_token() {
    assert_eq!(bearer_header(Some("abc")).unwrap(), "Bearer abc");
    assert!(bearer_header(Some("")).is_none());
    assert!(bearer_header(None).is_none());
}

#[test]
fn success_output_ends_with_newline() {
    assert_eq!(success_output("ping", "not json", false), "not json\n");
    assert_eq!(success_output("ping", r#"{"b":1,"ok":true}"#, true), r#"{"ok":true,"b":1}"#);
}

#[test]
fn error_output_trims_trailing_space() {
    assert_eq!(status_error_output(404, "missing  \n", false), "Error (404): missing");
}

#[test]
fn exec_invalid_json_data_fails_client_side() {
    let body = match build_body("x", &[], Some("not-json")) {
        BuildBodyOutcome::Body(b) => b,
        _ => panic!("literal data is the body"),
    };
    assert_eq!(body, "not-json");
    assert!(!body_is_json(&body));
}

#[test]
fn exec_non_help_with_positional_arg_is_rejected() {
    match build_body("ping", &["unexpected".to_string()], None) {
        BuildBodyOutcome::Reject(msg) => assert!(msg.contains("positional")),
        _ => panic!("should reject"),
    }
}
