use gdcli::target::{discover_lsp_port, parse_target, resolve_file, strip_res_prefix, TargetMode};

#[test]
fn parse_target_position_mode() {
    let result = parse_target("player.gd:10:5", None).unwrap();
    match result {
        TargetMode::Position { file, line, col } => {
            assert_eq!(file, "player.gd");
            assert_eq!(line, 9);
            assert_eq!(col, 4);
        }
        _ => panic!("Expected Position mode"),
    }
}

#[test]
fn parse_target_symbol_path_mode() {
    let result = parse_target("player.gd:Player.health", None).unwrap();
    match result {
        TargetMode::SymbolPath { symbol_path } => {
            assert_eq!(symbol_path.file, "player.gd");
            assert_eq!(symbol_path.segments, vec!["Player", "health"]);
        }
        _ => panic!("Expected SymbolPath mode"),
    }
}

#[test]
fn parse_target_symbol_path_short_form() {
    let result = parse_target("player.gd:health", None).unwrap();
    match result {
        TargetMode::SymbolPath { symbol_path } => {
            assert_eq!(symbol_path.file, "player.gd");
            assert_eq!(symbol_path.segments, vec!["health"]);
        }
        _ => panic!("Expected SymbolPath mode"),
    }
}

#[test]
fn parse_target_invalid_format() {
    let result = parse_target("player.gd", None);
    assert!(result.is_err());
}

#[test]
fn parse_target_invalid_format_no_colon() {
    let result = parse_target("player.gd", None);
    assert!(result.is_err());
}

#[test]
fn parse_target_invalid_format_empty() {
    let result = parse_target("", None);
    assert!(result.is_err());
}

#[test]
fn main_parse_target_position_mode() {
    let result = parse_target("player.gd:10:5", None).unwrap();
    match result {
        TargetMode::Position { file, line, col } => {
            assert_eq!(file, "player.gd");
            assert_eq!(line, 9);
            assert_eq!(col, 4);
        }
        _ => panic!("Expected Position mode"),
    }
}

#[test]
fn main_parse_target_symbol_path_mode() {
    let result = parse_target("player.gd:Player.health", None).unwrap();
    match result {
        TargetMode::SymbolPath { symbol_path } => {
            assert_eq!(symbol_path.file, "player.gd");
            assert_eq!(symbol_path.segments, vec!["Player", "health"]);
        }
        _ => panic!("Expected SymbolPath mode"),
    }
}

#[test]
fn main_parse_target_symbol_path_short_form() {
    let result = parse_target("player.gd:health", None).unwrap();
    match result {
        TargetMode::SymbolPath { symbol_path } => {
            assert_eq!(symbol_path.file, "player.gd");
            assert_eq!(symbol_path.segments, vec!["health"]);
        }
        _ => panic!("Expected SymbolPath mode"),
    }
}

#[test]
fn main_parse_target_invalid_format() {
    let result = parse_target("player.gd", None);
    assert!(result.is_err());
}

#[test]
fn main_parse_target_invalid_format_no_colon() {
    let result = parse_target("player.gd", None);
    assert!(result.is_err());
}

#[test]
fn main_parse_target_invalid_format_empty() {
    let result = parse_target("", None);
    assert!(result.is_err());
}

#[test]
fn parse_target_rejects_zero_line_or_column() {
    match parse_target("a.gd:0:3", None) {
        Err(e) => assert_eq!(e, "Line and column numbers are 1-based and must be >= 1, got 0:3"),
        Ok(_) => panic!("should reject"),
    }
}

#[test]
fn parse_target_keeps_colons_in_file_and_strips_res() {
    match parse_target("res://C:/x/a.gd:3:7", None).unwrap() {
        TargetMode::Position { file, line, col } => {
            assert_eq!(file, "C:/x/a.gd");
            assert_eq!(line, 2);
            assert_eq!(col, 6);
        }
        _ => panic!("Expected Position mode"),
    }
}

#[test]
fn parse_target_invalid_message() {
    assert_eq!(
        parse_target("nothing", None).err().unwrap(),
        "Invalid target format. Expected 'file:line:col' or 'file:SymbolPath'"
    );
}

#[test]
fn strip_res_prefix_only_at_start() {
    assert_eq!(strip_res_prefix("res://a/b.gd"), "a/b.gd");
    assert_eq!(strip_res_prefix("a/res://b.gd"), "a/res://b.gd");
}

#[test]
fn lsp_uses_port_from_gdapi_meta() {
    assert_eq!(discover_lsp_port(None, Some(39123)), 39123);
}

#[test]
fn lsp_explicit_port_overrides_meta() {
    assert_eq!(discover_lsp_port(Some(40000), Some(39123)), 40000);
}

#[test]
fn lsp_falls_back_to_default_6005() {
    assert_eq!(discover_lsp_port(None, None), 6005);
}

#[test]
fn resolve_file_joins_relative_paths() {
    assert_eq!(resolve_file("/abs/a.gd", Some("/p"), Some("/cwd")), "/abs/a.gd");
    assert_eq!(resolve_file("res://scripts/a.gd", Some("/p"), Some("/cwd")), "/p/scripts/a.gd");
    assert_eq!(resolve_file("a.gd", Some("/p/"), None), "/p/a.gd");
    assert_eq!(resolve_file("a.gd", None, Some("/cwd")), "/cwd/a.gd");
    assert_eq!(resolve_file("a.gd", None, None), "a.gd");
}
