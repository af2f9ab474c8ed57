use gdcli::clap_style::{render_command_help, render_commands};
use gdcli::format::{encode, render_exec_body, reorder_ok_json, ToonDelimiter};
use gdcli::json::{parse_json, to_json_text, Json};
use gdcli::normalize::normalize;

fn n(text: &str) -> String {
    let v: Json = parse_json(text).unwrap();
    to_json_text(&normalize(v))
}

fn same(text: &str) -> String {
    to_json_text(&parse_json(text).unwrap())
}

#[test]
fn render_commands_normal_list() {
    let body = r#"{"ok":true,"commands":[{"path":"ping","summary":"健康检查","params":[]},{"path":"editor/scene/save","summary":"保存场景","params":["scene_path"]}]}"#;
    let result = render_commands(body);
    assert!(result.contains("Commands:"), "should contain header");
    assert!(result.contains("ping"), "should contain ping command");
    assert!(result.contains("editor/scene/save"), "should contain editor/scene/save");
    assert!(result.contains("健康检查"), "should contain summary");
    assert!(result.contains("保存场景"), "should contain summary");
}

#[test]
fn render_commands_aligns_paths() {
    let body = r#"{"ok":true,"commands":[{"path":"ping","summary":"a"},{"path":"scene/save","summary":"b"}]}"#;
    assert_eq!(render_commands(body), "Commands:\n  ping        a\n  scene/save  b\n");
}

#[test]
fn render_commands_empty_list() {
    let body = r#"{"ok":true,"commands":[]}"#;
    let result = render_commands(body);
    assert!(result.contains("Commands:"), "should contain header");
}

#[test]
fn render_commands_missing_commands_field() {
    let body = r#"{"ok":true}"#;
    let result = render_commands(body);
    assert_eq!(result, body);
}

#[test]
fn render_commands_ok_false_fallback() {
    let body = r#"{"ok":false,"commands":[]}"#;
    let result = render_commands(body);
    assert_eq!(result, body);
}

#[test]
fn render_commands_ok_missing_fallback() {
    let body = r#"{"commands":[{"path":"ping","summary":"test"}]}"#;
    let result = render_commands(body);
    assert_eq!(result, body);
}

#[test]
fn render_command_help_ok_false_fallback() {
    let body = r#"{"ok":false,"doc":{"path":"ping","summary":"test"}}"#;
    let result = render_command_help(body);
    assert_eq!(result, body);
}

#[test]
fn render_command_help_ok_missing_fallback() {
    let body = r#"{"doc":{"path":"ping","summary":"test"}}"#;
    let result = render_command_help(body);
    assert_eq!(result, body);
}

#[test]
fn render_commands_invalid_json() {
    let body = "not json";
    let result = render_commands(body);
    assert_eq!(result, body);
}

#[test]
fn render_command_help_full_doc() {
    let body = r#"{"ok":true,"doc":{"path":"scene/save","summary":"保存场景","params":[{"name":"scene_path","type":"string","required":true,"desc":"场景文件路径"},{"name":"new_path","type":"string","required":false,"desc":"另存为路径"}],"returns":"bool","example":"gdcli exec scene/save --data '{\"scene_path\":\"new.tscn\"}'"}}"#;
    let result = render_command_help(body);
    assert!(result.contains("保存场景"), "should contain summary");
    assert!(result.contains("Usage:"), "should contain usage");
    assert!(result.contains("--data {DATA}"), "should contain DATA placeholder");
    assert!(result.contains("DATA:"), "should contain DATA section");
    assert!(result.contains("\"scene_path\""), "should contain param name in JSON");
    assert!(result.contains("\"new_path\""), "should contain param name in JSON");
    assert!(result.contains("(required string)"), "should contain required mark and type");
    assert!(result.contains("(optional string)"), "should contain optional mark and type");
    assert!(result.contains("场景文件路径"), "should contain param description");
    assert!(result.contains("另存为路径"), "should contain param description");
    assert!(result.contains("Returns:"), "should contain returns");
    assert!(result.contains("Example:"), "should contain example");
}

#[test]
fn render_command_help_exact_page() {
    let body = r#"{"ok":true,"doc":{"path":"p","summary":"s","params":[{"name":"a_b","type":"int","required":true,"desc":"d"}],"returns":"r"}}"#;
    assert_eq!(
        render_command_help(body),
        "s\n\nUsage: gdcli exec p --data {DATA}\n\nDATA:\n{\n  \"a_b\": \"A_B\" // (required int)  d\n}\n\nReturns:\n  r\n"
    );
}

#[test]
fn render_command_help_minimal_doc() {
    let body = r#"{"ok":true,"doc":{"path":"ping","summary":"健康检查"}}"#;
    let result = render_command_help(body);
    assert!(result.contains("健康检查"), "should contain summary");
    assert!(result.contains("Usage:"), "should contain usage");
    assert!(!result.contains("DATA:"), "should not contain DATA section");
    assert!(!result.contains("--data {DATA}"), "should not contain DATA placeholder");
    assert!(!result.contains("Returns:"), "should not contain returns");
    assert!(!result.contains("Example:"), "should not contain example");
}

#[test]
fn render_command_help_missing_doc_field() {
    let body = r#"{"ok":true}"#;
    let result = render_command_help(body);
    assert_eq!(result, body);
}

#[test]
fn render_command_help_invalid_json() {
    let body = "not json";
    let result = render_command_help(body);
    assert_eq!(result, body);
}

#[test]
fn render_command_help_gdapi_real_format() {
    let body = r#"{
        "ok": true,
        "doc": {
            "path": "editor/uid/update_all",
            "summary": "批量更新项目中所有资源的 UID",
            "description": "扫描指定目录下的场景文件和脚本文件，重新保存以生成或更新 UID；用于解决 UID 缺失或损坏导致的资源引用问题",
            "params": [
                {
                    "name": "project_path",
                    "type": "String",
                    "required": false,
                    "description": "要扫描的项目子目录路径，默认为 res://",
                    "default": "res://"
                }
            ],
            "returns": {
                "description": "处理结果统计",
                "fields": {
                    "ok": "bool",
                    "scenes_processed": "int, 处理的场景文件数",
                    "scenes_saved": "int, 成功保存的场景数",
                    "scenes_errors": "int, 保存失败的场景数",
                    "scripts_missing_uids": "int, 缺少 UID 的脚本数",
                    "uids_generated": "int, 新生成的 UID 数"
                }
            },
            "examples": []
        }
    }"#;
    let result = render_command_help(body);
    assert!(result.contains("批量更新项目中所有资源的 UID"), "should contain summary");
    assert!(result.contains("Usage:"), "should contain usage");
    assert!(result.contains("--data {DATA}"), "should contain DATA placeholder");
    assert!(result.contains("DATA:"), "should contain DATA section");
    assert!(result.contains("\"project_path\""), "should contain param name in JSON");
    assert!(result.contains("(optional String)"), "should contain optional mark and type");
    assert!(result.contains("要扫描的项目子目录路径"), "should contain param description");
    assert!(result.contains("PROJECT_PATH"), "should contain placeholder text");
    assert!(result.contains("Returns:"), "should contain returns");
    assert!(result.contains("处理结果统计"), "should contain returns description");
    assert!(result.contains("Return Fields:"), "should contain return fields");
    assert!(result.contains("scenes_processed"), "should contain field name");
    assert!(result.contains("Description:"), "should contain description section");
    assert!(result.contains("扫描指定目录下的场景文件"), "should contain description text");
}

#[test]
fn render_command_help_with_examples_array() {
    let body = r#"{
        "ok": true,
        "doc": {
            "path": "scene/save",
            "summary": "保存场景",
            "description": "",
            "params": [],
            "returns": {"description": "", "fields": {}},
            "examples": ["gdcli exec scene/save --data '{\"scene_path\":\"new.tscn\"}'"]
        }
    }"#;
    let result = render_command_help(body);
    assert!(result.contains("Examples:"), "should contain examples header");
    assert!(result.contains("gdcli exec scene/save"), "should contain example");
}

#[test]
fn render_command_help_with_description_field() {
    let body = r#"{
        "ok": true,
        "doc": {
            "path": "test",
            "summary": "测试命令",
            "description": "这是详细描述",
            "params": [],
            "returns": {"description": "", "fields": {}},
            "examples": []
        }
    }"#;
    let result = render_command_help(body);
    assert!(result.contains("Description:"), "should contain description header");
    assert!(result.contains("这是详细描述"), "should contain description text");
}

#[test]
fn r3_uniform_array_passes_through_for_encoder() {
    let v = r#"[{"a":1,"b":2},{"a":3,"b":4}]"#;
    assert_eq!(n(v), same(v), "uniform primitive-only array should be unchanged");
}

#[test]
fn r1_empty_array_becomes_empty_string() {
    let v = r#"[{"path":"ping","params":[]},{"path":"help","params":["x"]}]"#;
    assert_eq!(n(v), same(r#"[{"path":"ping","params":""},{"path":"help","params":"x"}]"#));
}

#[test]
fn r1_null_unchanged_in_uniform_array() {
    let v = r#"[{"a":1,"b":null},{"a":2,"b":3}]"#;
    assert_eq!(n(v), same(v));
}

#[test]
fn r2_kv_array_unchanged() {
    let v = r#"[{"item":"代码","value":"600519"},{"item":"最新价","value":"1326.0"}]"#;
    assert_eq!(n(v), same(v));
}

#[test]
fn nested_object_recurses() {
    let v = r#"{"outer": [{"inner": []}, {"inner": ["x"]}]}"#;
    assert_eq!(n(v), same(r#"{"outer": [{"inner": ""}, {"inner": "x"}]}"#));
}

#[test]
fn non_uniform_array_unchanged() {
    let v = r#"[{"a":1}, {"b":2}]"#;
    assert_eq!(n(v), same(v));
}

#[test]
fn array_with_nested_objects_unchanged() {
    let v = r#"[{"a":1,"sub":{"x":2}}, {"a":2,"sub":{"x":3}}]"#;
    assert_eq!(n(v), same(v));
}

#[test]
fn ok_field_moved_to_front() {
    let out = normalize(parse_json(r#"{"gdapi_version":"0.2.0","ok":true,"editor_version":"4.3"}"#).unwrap());
    let keys: Vec<&str> = out.as_object().unwrap().iter().map(|(k, _)| k.as_str()).collect();
    assert_eq!(keys, vec!["ok", "gdapi_version", "editor_version"]);
}

#[test]
fn nested_object_ok_reordered() {
    let out = normalize(parse_json(r#"{"data":{"version":"1.0","ok":true}}"#).unwrap());
    let inner = out.get("data").unwrap().as_object().unwrap();
    let keys: Vec<&str> = inner.iter().map(|(k, _)| k.as_str()).collect();
    assert_eq!(keys, vec!["ok", "version"]);
}

#[test]
fn render_exec_body_passes_non_json_through() {
    assert_eq!(render_exec_body("plain text"), "plain text");
}

#[test]
fn render_exec_body_writes_toon() {
    let out = render_exec_body(r#"{"b":1,"ok":true}"#);
    assert!(out.starts_with("ok: true"), "ok first: {}", out);
    assert!(out.contains("b: 1"), "{}", out);
}

#[test]
fn reorder_ok_json_moves_ok_first() {
    assert_eq!(reorder_ok_json(r#"{"a":1,"ok":false}"#), r#"{"ok":false,"a":1}"#);
    assert_eq!(reorder_ok_json(r#"{"a":1}"#), r#"{"a":1}"#);
    assert_eq!(reorder_ok_json("[1]"), "[1]");
}

#[test]
fn reorder_ok_json_changes_nothing_but_the_order_of_ok() {
    assert_eq!(reorder_ok_json(r#"{"a":[{"p":[]}],"ok":true}"#), r#"{"ok":true,"a":[{"p":[]}]}"#);
    assert_eq!(
        reorder_ok_json(r#"{"x":{"b":1,"ok":false},"ok":true,"y":[1]}"#),
        r#"{"ok":true,"x":{"b":1,"ok":false},"y":[1]}"#
    );
}

#[test]
fn normalizing_twice_is_normalizing_once() {
    for text in [
        r#"{"items":[{"a":[],"b":[1]},{"a":["x"],"b":2}],"ok":true}"#,
        r#"[{"k":[]},{"k":[3]}]"#,
        r#"{"z":{"y":1,"ok":false},"ok":true}"#,
    ] {
        let once = normalize(parse_json(text).unwrap());
        let once_text = to_json_text(&once);
        let twice = normalize(once);
        assert_eq!(to_json_text(&twice), once_text);
    }
}

#[test]
fn encode_follows_the_delimiter_and_indent_given() {
    let v = parse_json(r#"{"rows":[{"a":1,"b":2},{"a":3,"b":4}]}"#).unwrap();
    let pipe = encode(&v, ToonDelimiter::Pipe, 2).unwrap();
    let comma = encode(&v, ToonDelimiter::Comma, 4).unwrap();
    assert!(pipe.contains("1|2"), "{}", pipe);
    assert!(comma.contains("1,2"), "{}", comma);
    assert!(pipe.contains("\n  1|2"), "{}", pipe);
    assert!(comma.contains("\n    1,2"), "{}", comma);
}
