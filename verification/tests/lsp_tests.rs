use gdcli::json::{parse_json, to_json_text, Json};
use gdcli::lsp_output::{
    connection_failure_lines, depth_at_most, hover_json, hover_output, location_lines, native_symbol_lines, reference_lines, status_report, symbol_heading,
    symbol_line, symbol_result_json, symbols_output,
};
use gdcli::lsp_params::{
    did_open_params, document_symbol_params, initialize_params, native_symbol_params, position_params,
    references_params, rename_params,
};
use gdcli::resolve::{collect_all_symbol_names, find_symbol_in_list, resolve_symbol_in};
use gdcli::rpc::{connection_closed_error, notification_message, read_incoming, request_message, LspError};
use gdcli::meta::{meta_lsp_port, GdApiMeta};
use gdcli::server::probe_ports;
use gdcli::target::discover_lsp_port;
use gdcli::types::{Location, Position, Range};

fn symbols() -> Json {
    parse_json(
        r#"[
        {"name":"Player","kind":5,
         "range":{"start":{"line":0,"character":0},"end":{"line":20,"character":0}},
         "selectionRange":{"start":{"line":0,"character":6},"end":{"line":0,"character":12}},
         "children":[
           {"name":"health","kind":8,
            "range":{"start":{"line":2,"character":0},"end":{"line":2,"character":10}},
            "selectionRange":{"start":{"line":2,"character":4},"end":{"line":2,"character":10}}},
           {"name":"jump","kind":6,
            "range":{"start":{"line":4,"character":0},"end":{"line":6,"character":0}},
            "selectionRange":{"start":{"line":4,"character":5},"end":{"line":4,"character":9}}}
         ]}
        ]"#,
    )
    .unwrap()
}

fn segs(s: &[&str]) -> Vec<String> {
    s.iter().map(|x| x.to_string()).collect()
}

#[test]
fn resolves_top_level_and_child_symbols() {
    let syms = symbols();
    let (p, n) = resolve_symbol_in(&syms, &segs(&["Player"])).unwrap();
    assert_eq!((p.line, p.character), (0, 6));
    assert_eq!(n, "Player");
    let (p, n) = resolve_symbol_in(&syms, &segs(&["jump"])).unwrap();
    assert_eq!((p.line, p.character), (4, 5));
    assert_eq!(n, "jump");
    let (p, _) = resolve_symbol_in(&syms, &segs(&["Player", "health"])).unwrap();
    assert_eq!((p.line, p.character), (2, 4));
}

#[test]
fn unknown_symbols_get_suggestions_or_the_list() {
    let syms = symbols();
    assert_eq!(
        resolve_symbol_in(&syms, &segs(&["jumo"])).err().unwrap(),
        "Symbol 'jumo' not found. Did you mean: jump?"
    );
    assert_eq!(
        resolve_symbol_in(&syms, &segs(&["zzzzzzzz"])).err().unwrap(),
        "Symbol 'zzzzzzzz' not found. Available symbols: Player, health, jump"
    );
    assert_eq!(
        resolve_symbol_in(&syms, &segs(&["Player", "healt"])).err().unwrap(),
        "Symbol 'healt' not found. Did you mean: health?"
    );
    let empty = parse_json("[]").unwrap();
    assert_eq!(resolve_symbol_in(&empty, &segs(&["A"])).err().unwrap(), "No symbols found in file");
}

#[test]
fn symbol_names_and_lookup() {
    let syms = symbols();
    let arr = syms.as_array().unwrap();
    assert_eq!(collect_all_symbol_names(arr), segs(&["Player", "health", "jump"]));
    let (p, n) = find_symbol_in_list(arr, "Player").unwrap();
    assert_eq!((p.line, p.character, n.as_str()), (0, 6, "Player"));
    assert!(find_symbol_in_list(arr, "health").is_none());
}

#[test]
fn lsp_error_texts() {
    let e = LspError { code: -32601, message: "Method not found".to_string() };
    assert_eq!(e.to_message(), "LSP error -32601: Method not found");
    let c = connection_closed_error();
    assert_eq!(c.code, -1);
    assert_eq!(c.message, "Connection closed");
}

#[test]
fn incoming_messages_are_told_apart() {
    let inc = read_incoming(r#"{"jsonrpc":"2.0","id":3,"result":{"x":1}}"#).unwrap();
    assert_eq!(inc.id, Some(3));
    assert_eq!(to_json_text(inc.outcome.as_ref().unwrap()), r#"{"x":1}"#);
    assert!(inc.notification.is_none());

    let inc = read_incoming(r#"{"id":4,"error":{"code":-32600,"message":"bad"}}"#).unwrap();
    let e = inc.outcome.err().unwrap();
    assert_eq!((e.code, e.message.as_str()), (-32600, "bad"));

    let inc = read_incoming(r#"{"method":"textDocument/publishDiagnostics","params":{"uri":"file:///a.gd"}}"#).unwrap();
    assert_eq!(inc.id, None);
    let n = inc.notification.unwrap();
    assert_eq!(n.method, "textDocument/publishDiagnostics");
    assert_eq!(to_json_text(&n.params), r#"{"uri":"file:///a.gd"}"#);

    assert!(read_incoming("not json").is_none());
}

#[test]
fn outgoing_messages() {
    let params = parse_json(r#"{"a":1}"#).unwrap();
    let req = request_message(7, "initialize", params);
    assert_eq!(to_json_text(&req), r#"{"jsonrpc":"2.0","id":7,"method":"initialize","params":{"a":1}}"#);
    let params = parse_json("{}").unwrap();
    let n = notification_message("initialized", params);
    assert_eq!(to_json_text(&n), r#"{"jsonrpc":"2.0","method":"initialized","params":{}}"#);
}

#[test]
fn location_and_reference_output() {
    let v = parse_json(r#"[{"uri":"file:///p/a.gd","range":{"start":{"line":3,"character":1},"end":{"line":3,"character":4}}}]"#).unwrap();
    assert_eq!(location_lines(&v, "No definition found."), segs(&["p/a.gd:3:1"]));
    let null = parse_json("null").unwrap();
    assert_eq!(location_lines(&null, "No definition found."), segs(&["No definition found."]));

    let r = Range { start: Position { line: 1, character: 2 }, end: Position { line: 1, character: 5 } };
    let ls = vec![Location { uri: "file:///p/b.gd".to_string(), range: r }];
    assert_eq!(reference_lines(&ls), segs(&["Found 1 reference(s):", "  p/b.gd:1:2"]));
    assert_eq!(reference_lines(&[]), segs(&["No references found."]));
}

#[test]
fn hover_and_native_symbol_output() {
    assert_eq!(hover_output(None), "No hover info available.");
    assert_eq!(hover_output(Some("doc".to_string())), "doc");
    let v = parse_json(r#"{"name":"Node","detail":"class","documentation":"Base.","children":[{},{}]}"#).unwrap();
    assert_eq!(native_symbol_lines(&v, None), segs(&["Node — class", "", "Base.", "", "Members: 2"]));
    assert_eq!(native_symbol_lines(&v, Some("x")), segs(&["Node — class", "", "Base."]));
    let null = parse_json("null").unwrap();
    assert_eq!(native_symbol_lines(&null, None), segs(&["No documentation found."]));
}

#[test]
fn symbol_lines_are_indented() {
    let syms = symbols();
    let arr = syms.as_array().unwrap();
    assert_eq!(symbol_line(&arr[0], 0).unwrap(), "Class Player [0:0-20:0]");
    let kids = arr[0].get("children").unwrap().as_array().unwrap();
    assert_eq!(symbol_line(&kids[0], 1).unwrap(), "  Field health [2:0-2:10]");
}

#[test]
fn request_parameters() {
    assert_eq!(
        to_json_text(&position_params("file:///a.gd", 3, 4)),
        r#"{"textDocument":{"uri":"file:///a.gd"},"position":{"line":3,"character":4}}"#
    );
    assert_eq!(
        to_json_text(&rename_params("file:///a.gd", 1, 2, "bar")),
        r#"{"textDocument":{"uri":"file:///a.gd"},"position":{"line":1,"character":2},"newName":"bar"}"#
    );
    assert_eq!(
        to_json_text(&references_params("u", 0, 0)),
        r#"{"textDocument":{"uri":"u"},"position":{"line":0,"character":0},"context":{"includeDeclaration":true}}"#
    );
    assert_eq!(to_json_text(&document_symbol_params("u")), r#"{"textDocument":{"uri":"u"}}"#);
    assert_eq!(
        to_json_text(&native_symbol_params("Node", None)),
        r#"{"native_class":"Node","symbol_name":"Node"}"#
    );
    assert_eq!(
        to_json_text(&native_symbol_params("Node", Some("add_child"))),
        r#"{"native_class":"Node","symbol_name":"add_child"}"#
    );
    assert_eq!(
        to_json_text(&did_open_params("u", "extends Node\n")),
        r#"{"textDocument":{"uri":"u","languageId":"gdscript","version":1,"text":"extends Node\n"}}"#
    );
    assert_eq!(
        to_json_text(&initialize_params(42, Some(("file:///p", "/p")))),
        [
            r#"{"processId":42,"capabilities":{"textDocument":{"synchronization":{"didSave":true,"willSave":false,"willSaveWaitUntil":false},"#,
            r#""rename":{"prepareSupport":true},"references":{},"definition":{},"documentSymbol":{"hierarchicalDocumentSymbolSupport":true},"#,
            r#""publishDiagnostics":{},"hover":{"contentFormat":["plaintext","markdown"]}},"#,
            r#""workspace":{"workspaceEdit":{"documentChanges":true},"symbol":{}}},"rootUri":"file:///p","rootPath":"/p"}"#,
        ]
        .concat()
    );
    let no_root = to_json_text(&initialize_params(1, None));
    assert!(no_root.ends_with(r#""rootUri":null,"rootPath":null}"#));
}

#[test]
fn status_reports() {
    let r = status_report("127.0.0.1", 6005, Some("/p"), None, false);
    assert_eq!(r.stdout, segs(&["Connected to Godot LSP at 127.0.0.1:6005", "Project: /p"]));
    assert!(r.stderr.is_empty());

    let r = status_report("127.0.0.1", 6005, None, Some("refused"), false);
    assert!(r.stdout.is_empty());
    assert_eq!(
        r.stderr,
        segs(&[
            "Failed to connect to Godot LSP at 127.0.0.1:6005",
            "Error: refused",
            "Make sure Godot is running with: godot --editor --headless --lsp-port 6005 --path /your/project",
        ])
    );

    let r = status_report("h", 7, None, None, true);
    assert_eq!(
        r.stdout,
        segs(&["{\n  \"connected\": true,\n  \"host\": \"h\",\n  \"port\": 7,\n  \"project\": null\n}"])
    );
    let r = status_report("h", 7, None, Some("x"), true);
    assert_eq!(
        r.stdout,
        segs(&["{\n  \"connected\": false,\n  \"host\": \"h\",\n  \"port\": 7,\n  \"error\": \"x\"\n}"])
    );
}

#[test]
fn symbol_path_command_output() {
    let pos = Position { line: 4, character: 5 };
    assert_eq!(symbol_heading("Renaming", "jump", pos), "Renaming symbol 'jump' at 4:5");
    let v = parse_json(r#"[1]"#).unwrap();
    let j = symbol_result_json("jump", pos, "references", v);
    assert_eq!(
        to_json_text(&j),
        r#"{"symbol":"jump","position":{"line":4,"character":5},"references":[1]}"#
    );
}

#[test]
fn symbol_tree_output() {
    let syms = symbols();
    assert!(depth_at_most(syms.as_array().unwrap(), 1));
    assert!(!depth_at_most(syms.as_array().unwrap(), 0));
    assert_eq!(
        symbols_output(&syms),
        segs(&["Class Player [0:0-20:0]", "  Field health [2:0-2:10]", "  Method jump [4:0-6:0]"])
    );
    let empty = parse_json("[]").unwrap();
    assert_eq!(symbols_output(&empty), segs(&["No symbols found."]));
    let null = parse_json("null").unwrap();
    assert_eq!(symbols_output(&null), segs(&["No symbols found."]));
    let flat = parse_json(
        r#"[{"name":"f","kind":12,"location":{"uri":"file:///a.gd","range":{"start":{"line":1,"character":0},"end":{"line":1,"character":3}}}}]"#,
    )
    .unwrap();
    assert_eq!(symbols_output(&flat), segs(&["Function f a.gd:1:0"]));
}

#[test]
fn unknown_symbol_suggests_close_names() {
    let syms = parse_json(
        r#"[{"name":"counter","kind":13,
            "range":{"start":{"line":1,"character":0},"end":{"line":1,"character":20}},
            "selectionRange":{"start":{"line":1,"character":4},"end":{"line":1,"character":11}}}]"#,
    )
    .unwrap();
    assert_eq!(
        resolve_symbol_in(&syms, &segs(&["count"])).err().unwrap(),
        "Symbol 'count' not found. Did you mean: counter?"
    );
    let (p, n) = resolve_symbol_in(&syms, &segs(&["counter"])).unwrap();
    assert_eq!((p.line, p.character, n.as_str()), (1, 4, "counter"));
}

#[test]
fn connection_failure_prints_hint() {
    let lines = connection_failure_lines("127.0.0.1", 1);
    assert!(lines[0].contains("Failed to connect to Godot LSP at 127.0.0.1:1"));
    assert!(lines[1].contains("Make sure Godot is running with: godot --editor --headless --lsp-port 1"));
    assert_eq!(lines.len(), 2);
}

#[test]
fn status_uses_port_from_gdapi_meta() {
    let meta = GdApiMeta {
        http_port: 7891,
        lsp_port: Some(39123),
        pid: Some(12345),
        gdapi_version: Some("0.2.0".to_string()),
        token: None,
    };
    let port = discover_lsp_port(None, meta_lsp_port(Some(&meta)));
    assert_eq!(port, 39123);
    let r = status_report("127.0.0.1", port, Some("/p"), Some("Connection refused"), false);
    assert!(r.stderr.iter().any(|l| l.contains("39123")));
    assert!(r.stdout.is_empty());
}

#[test]
fn server_port_probing_skips_occupied() {
    let ports = probe_ports(17900);
    assert_eq!(ports[0], 17900);
    assert!(ports[1] > ports[0]);
    assert_eq!(ports[1], 17901);
}

#[test]
fn hover_json_holds_text_or_null() {
    assert_eq!(to_json_text(&hover_json(Some("doc"))), r#"{"hover":"doc"}"#);
    assert_eq!(to_json_text(&hover_json(None)), r#"{"hover":null}"#);
}
