use gdcli::install::{already_installed_message, enable_plugin_content, installed_version, plugin_cfg};

fn enabled(content: &str) -> String {
    match enable_plugin_content(content) {
        Some(s) => s,
        None => content.to_string(),
    }
}

#[test]
fn read_installed_version_from_addon() {
    let cfg = "[plugin]\nname=\"gdapi\"\nversion=\"0.2.0\"\n";
    assert_eq!(installed_version(cfg), Some("0.2.0".to_string()));
}

#[test]
fn read_installed_version_missing() {
    assert_eq!(installed_version(""), None);
    assert_eq!(installed_version("[plugin]\nname=\"gdapi\"\n"), None);
}

#[test]
fn enable_plugin_creates_section() {
    let content = enabled("config_version=5\n\n[application]\nconfig/name=\"test\"\n");
    assert!(content.contains("[editor_plugins]"));
    assert!(content.contains("res://addons/gdapi/plugin.cfg"));
}

#[test]
fn enable_plugin_appends_to_existing() {
    let content = enabled("[editor_plugins]\nenabled=PackedStringArray(\"res://addons/foo/plugin.cfg\")\n");
    assert!(content.contains("res://addons/foo/plugin.cfg"));
    assert!(content.contains("res://addons/gdapi/plugin.cfg"));
}

#[test]
fn enable_plugin_idempotent() {
    let content = enabled("[editor_plugins]\nenabled=PackedStringArray(\"res://addons/gdapi/plugin.cfg\")\n");
    assert_eq!(content.matches("res://addons/gdapi/plugin.cfg").count(), 1);
}

#[test]
fn enable_plugin_no_enable_flag() {
    let content_before = "config_version=5\n";
    assert!(!content_before.contains("gdapi"));
}

#[test]
fn enable_plugin_empty_array() {
    let content = enabled("[editor_plugins]\nenabled=PackedStringArray()\n");
    assert!(content.contains("res://addons/gdapi/plugin.cfg"));
    assert!(!content.contains("(,\""));
}

#[test]
fn enable_plugin_preserves_crlf() {
    let content = enabled("config_version=5\r\n\r\n[application]\r\nconfig/name=\"test\"\r\n");
    assert!(content.contains("\r\n"));
    assert!(content.contains("res://addons/gdapi/plugin.cfg"));
}

#[test]
fn enable_plugin_with_spaces_in_value() {
    let content = enabled("[editor_plugins]\nenabled=PackedStringArray( \"res://addons/foo/plugin.cfg\" )\n");
    assert!(content.contains("res://addons/gdapi/plugin.cfg"));
    assert!(content.contains("res://addons/foo/plugin.cfg"));
}

#[test]
fn enable_plugin_with_multiple_enabled_lines() {
    let content = enabled(
        "[editor_plugins]\nenabled=PackedStringArray(\"res://addons/foo/plugin.cfg\")\nenabled=PackedStringArray(\"res://addons/bar/plugin.cfg\")\n",
    );
    assert!(content.contains("res://addons/gdapi/plugin.cfg"));
}

#[test]
fn enable_plugin_enabled_outside_section() {
    let content = enabled("enabled=PackedStringArray(\"res://addons/foo/plugin.cfg\")\n[editor_plugins]\n");
    assert!(content.contains("res://addons/gdapi/plugin.cfg"));
}

#[test]
fn enable_plugin_already_listed_is_left_alone() {
    assert_eq!(enable_plugin_content("x=\"res://addons/gdapi/plugin.cfg\"\n"), None);
}

#[test]
fn enable_plugin_applied_twice_changes_nothing_more() {
    let once = enabled("config_version=5\n");
    assert_eq!(enable_plugin_content(&once), None);
}

#[test]
fn plugin_cfg_declares_its_version() {
    let cfg = plugin_cfg("1.2.3");
    assert!(cfg.starts_with("[plugin]\n"));
    assert!(cfg.contains("version=\"1.2.3\"\n"));
    assert_eq!(installed_version(&cfg), Some("1.2.3".to_string()));
}

#[test]
fn already_installed_messages() {
    assert_eq!(
        already_installed_message(Some("0.2.0"), "/p/addons/gdapi"),
        "gdapi 0.2.0 is already installed at /p/addons/gdapi. Use --force to overwrite."
    );
    assert_eq!(
        already_installed_message(None, "/p/addons/gdapi"),
        "gdapi is already installed at /p/addons/gdapi. Use --force to overwrite."
    );
}

#[test]
fn install_fails_if_already_installed() {
    let cfg = plugin_cfg("0.2.0");
    let msg = already_installed_message(installed_version(&cfg).as_deref(), "/p/addons/gdapi");
    assert!(msg.contains("already installed"));
}

#[test]
fn enabling_names_the_plugin_exactly_once() {
    for content in [
        "config_version=5\n",
        "[editor_plugins]\nenabled=PackedStringArray(\"res://addons/foo/plugin.cfg\")\n",
        "[editor_plugins]\n\n[other]\nx=1\n",
        "enabled=PackedStringArray()\n[editor_plugins]\nenabled=PackedStringArray()\n",
    ] {
        let once = enabled(content);
        assert_eq!(once.matches("res://addons/gdapi/plugin.cfg").count(), 1, "{}", once);
        assert_eq!(enable_plugin_content(&once), None);
    }
}
