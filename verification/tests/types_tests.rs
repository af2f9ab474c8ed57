use gdcli::json::{parse_json, to_json_text};
use gdcli::types::{
    decode_uris, format_diagnostic, format_location_value, format_range, hover_text, path_to_uri,
    range_from_json, severity_name, symbol_kind_name, uri_to_file, Diagnostic, Position, Range,
};

#[test]
fn symbol_kind_known() {
    assert_eq!(symbol_kind_name(5), "Class");
    assert_eq!(symbol_kind_name(12), "Function");
    assert_eq!(symbol_kind_name(13), "Variable");
}

#[test]
fn symbol_kind_unknown() {
    assert_eq!(symbol_kind_name(99), "Unknown(99)");
}

#[test]
fn symbol_kind_edges() {
    assert_eq!(symbol_kind_name(0), "Unknown");
    assert_eq!(symbol_kind_name(26), "TypeParameter");
    assert_eq!(symbol_kind_name(27), "Unknown(27)");
}

#[test]
fn fmt_range_basic() {
    let r = Range {
        start: Position { line: 1, character: 2 },
        end: Position { line: 3, character: 4 },
    };
    assert_eq!(format_range(&r), "1:2-3:4");
}

#[test]
fn fmt_diagnostic_error() {
    let d = Diagnostic {
        range: Range {
            start: Position { line: 5, character: 0 },
            end: Position { line: 5, character: 10 },
        },
        severity: Some(1),
        code: None,
        message: "bad".into(),
        source: None,
    };
    assert_eq!(format_diagnostic(&d), "  [error] 5:0-5:10: bad");
}

#[test]
fn fmt_diagnostic_default_severity() {
    let d = Diagnostic {
        range: Range {
            start: Position { line: 0, character: 0 },
            end: Position { line: 0, character: 1 },
        },
        severity: None,
        code: None,
        message: "x".into(),
        source: None,
    };
    assert_eq!(format_diagnostic(&d), "  [error] 0:0-0:1: x");
}

#[test]
fn severity_names() {
    assert_eq!(severity_name(Some(2)), "warning");
    assert_eq!(severity_name(Some(3)), "info");
    assert_eq!(severity_name(Some(4)), "hint");
    assert_eq!(severity_name(Some(9)), "");
}

#[test]
fn decode_uris_recursive() {
    let v = parse_json(r#"{"file:///C:/foo.gd": [{"uri": "file:///C:/bar.gd"}], "plain": "no-uri"}"#).unwrap();
    let out = decode_uris(&v);
    let obj = out.as_object().unwrap();
    assert!(obj.iter().any(|(k, _)| !k.starts_with("file:///")));
    assert_eq!(out.get("plain").unwrap().as_str().unwrap(), "no-uri");
    assert_eq!(to_json_text(&out), r#"{"C:/foo.gd":[{"uri":"C:/bar.gd"}],"plain":"no-uri"}"#);
}

#[test]
fn uri_roundtrip_simple() {
    let uri = path_to_uri("/foo/bar.gd");
    assert!(uri.starts_with("file:///"));
    let back = uri_to_file(&uri);
    assert_eq!(back, "foo/bar.gd");
}

#[test]
fn uri_encodes_space_and_chinese() {
    let uri = path_to_uri("/游戏 项目/player.gd");
    assert!(uri.contains("%20"), "space should be percent-encoded: {}", uri);
    assert!(uri.contains("%E6%B8%B8") || uri.contains("%e6%b8%b8"), "chinese should be encoded: {}", uri);
    let back = uri_to_file(&uri);
    assert!(back.contains("游戏 项目"));
}

#[test]
fn uri_preserves_colon_and_slash() {
    let uri = path_to_uri(r"C:\foo\bar.gd");
    assert!(uri.contains("C:/foo/bar.gd"), "colon and slash preserved: {}", uri);
    assert_eq!(uri, "file:///C:/foo/bar.gd");
}

#[test]
fn uri_to_file_without_prefix_decodes_too() {
    assert_eq!(uri_to_file("a%20b"), "a b");
    assert_eq!(uri_to_file("file:///x%2"), "x%2");
}

#[test]
fn location_value_formats_path_line_col() {
    let loc = parse_json(r#"{"uri":"file:///a%20b.gd","range":{"start":{"line":3,"character":4},"end":{"line":3,"character":9}}}"#).unwrap();
    assert_eq!(format_location_value(&loc).unwrap(), "a b.gd:3:4");
    let bad = parse_json(r#"{"uri":"file:///a.gd"}"#).unwrap();
    assert!(format_location_value(&bad).is_none());
}

#[test]
fn range_from_object_or_pair() {
    let r = parse_json(r#"{"start":{"line":1,"character":2},"end":{"line":3,"character":4}}"#).unwrap();
    assert_eq!(format_range(&range_from_json(&r).unwrap()), "1:2-3:4");
    let p = parse_json(r#"[[1,2],[3,4]]"#).unwrap();
    assert_eq!(format_range(&range_from_json(&p).unwrap()), "1:2-3:4");
    let neg = parse_json(r#"{"start":{"line":-1,"character":2},"end":{"line":3,"character":4}}"#).unwrap();
    assert!(range_from_json(&neg).is_none());
}

#[test]
fn hover_text_from_string_or_markup() {
    let a = parse_json(r#"{"contents":"int x"}"#).unwrap();
    assert_eq!(hover_text(&a).unwrap(), "int x");
    let b = parse_json(r#"{"contents":{"kind":"markdown","value":"**x**"}}"#).unwrap();
    assert_eq!(hover_text(&b).unwrap(), "**x**");
    let c = parse_json("null").unwrap();
    assert!(hover_text(&c).is_none());
}
