use gdcli::symbol_path::SymbolPath;

#[test]
fn parse_basic() {
    let sp = SymbolPath::parse("player.gd:Player.health").unwrap();
    assert_eq!(sp.file, "player.gd");
    assert_eq!(sp.segments, vec!["Player", "health"]);
}

#[test]
fn parse_short_form() {
    let sp = SymbolPath::parse("player.gd:health").unwrap();
    assert_eq!(sp.file, "player.gd");
    assert_eq!(sp.segments, vec!["health"]);
}

#[test]
fn parse_res_prefix() {
    let sp = SymbolPath::parse("res://scenes/player.gd:Player.health").unwrap();
    assert_eq!(sp.file, "res://scenes/player.gd");
    assert_eq!(sp.segments, vec!["Player", "health"]);
}

#[test]
fn parse_deep_path() {
    let sp = SymbolPath::parse("player.gd:Player.stats.health.current").unwrap();
    assert_eq!(sp.segments, vec!["Player", "stats", "health", "current"]);
}

#[test]
fn parse_file_with_extension_in_symbol() {
    let sp = SymbolPath::parse("2d_in_3d.gd:2d_in_3d.gd.counter").unwrap();
    assert_eq!(sp.file, "2d_in_3d.gd");
    assert_eq!(sp.segments, vec!["2d_in_3d", "gd", "counter"]);
}

#[test]
fn parse_no_colon() {
    assert!(SymbolPath::parse("player.gd").is_err());
}

#[test]
fn parse_empty_file() {
    assert!(SymbolPath::parse(":health").is_err());
}

#[test]
fn parse_empty_symbol() {
    assert!(SymbolPath::parse("player.gd:").is_err());
}

#[test]
fn parse_empty_segment() {
    assert!(SymbolPath::parse("player.gd:Player..health").is_err());
}

#[test]
fn is_symbol_path_valid() {
    assert!(SymbolPath::is_symbol_path("player.gd:Player.health"));
    assert!(SymbolPath::is_symbol_path("player.gd:health"));
    assert!(SymbolPath::is_symbol_path("res://a/b.gd:X.y"));
}

#[test]
fn is_symbol_path_invalid() {
    assert!(!SymbolPath::is_symbol_path("player.gd"));
    assert!(!SymbolPath::is_symbol_path(""));
    assert!(!SymbolPath::is_symbol_path(":foo"));
}

#[test]
fn class_name_some() {
    let sp = SymbolPath::parse("a.gd:Foo.bar").unwrap();
    assert_eq!(sp.class_name(), Some("Foo"));
}

#[test]
fn class_name_none_single_segment() {
    let sp = SymbolPath::parse("a.gd:foo").unwrap();
    assert_eq!(sp.class_name(), None);
}

#[test]
fn member_path_with_class() {
    let sp = SymbolPath::parse("a.gd:Foo.bar.baz").unwrap();
    assert_eq!(sp.member_path(), &["bar", "baz"]);
}

#[test]
fn member_path_without_class() {
    let sp = SymbolPath::parse("a.gd:foo").unwrap();
    assert_eq!(sp.member_path(), &["foo"]);
}

#[test]
fn parse_error_messages_name_the_rule() {
    assert_eq!(SymbolPath::parse("player.gd").unwrap_err(), "missing ':' separator");
    assert_eq!(SymbolPath::parse(":health").unwrap_err(), "empty file path");
    assert_eq!(SymbolPath::parse("player.gd:").unwrap_err(), "empty symbol path");
    assert_eq!(SymbolPath::parse("a.gd:x..y").unwrap_err(), "empty segment in symbol path");
}

#[test]
fn parse_splits_at_last_colon_and_rebuilds() {
    let input = "C:/proj/a.gd:Foo.bar";
    let sp = SymbolPath::parse(input).unwrap();
    assert_eq!(sp.file, "C:/proj/a.gd");
    let rebuilt = format!("{}:{}", sp.file, sp.segments.join("."));
    assert_eq!(rebuilt, input);
}
