use gdcli::project::{find_root, resolve_project_root, MAX_DEPTH};

fn levels(dirs: &[(&str, bool)]) -> Vec<(String, bool)> {
    dirs.iter().map(|(d, h)| (d.to_string(), *h)).collect()
}

#[test]
fn find_root_in_current_dir() {
    let l = levels(&[("/tmp/p", true), ("/tmp", false), ("/", false)]);
    assert_eq!(find_root(&l), Some("/tmp/p".to_string()));
}

#[test]
fn find_root_in_parent() {
    let l = levels(&[("/tmp/p/src/scripts", false), ("/tmp/p/src", false), ("/tmp/p", true), ("/tmp", false)]);
    assert_eq!(find_root(&l), Some("/tmp/p".to_string()));
}

#[test]
fn find_root_max_depth() {
    let l = levels(&[
        ("/t/p/a/a/a/a/a/a", false),
        ("/t/p/a/a/a/a/a", false),
        ("/t/p/a/a/a/a", false),
        ("/t/p/a/a/a", false),
        ("/t/p/a/a", false),
        ("/t/p/a", false),
        ("/t/p", true),
    ]);
    assert_eq!(find_root(&l), None);
    assert_eq!(MAX_DEPTH, 5);
    assert_eq!(find_root(&l[1..]), Some("/t/p".to_string()));
}

#[test]
fn find_root_not_found() {
    let l = levels(&[("/tmp/x", false), ("/tmp", false), ("/", false)]);
    assert_eq!(find_root(&l), None);
    assert_eq!(find_root(&[]), None);
}

#[test]
fn find_root_file_path() {
    let l = levels(&[("/tmp/p", true)]);
    assert_eq!(find_root(&l), Some("/tmp/p".to_string()));
}

#[test]
fn resolve_explicit_valid() {
    assert_eq!(resolve_project_root(Some(("/tmp/p", true)), "/cwd", &[]), Ok("/tmp/p".to_string()));
}

#[test]
fn resolve_explicit_invalid() {
    let r = resolve_project_root(Some(("/tmp/q", false)), "/cwd", &[]);
    assert_eq!(r, Err("not a Godot project (no project.godot in /tmp/q)".to_string()));
}

#[test]
fn resolve_auto_not_found() {
    let l = levels(&[("/tmp/q", false), ("/tmp", false), ("/", false)]);
    let r = resolve_project_root(None, "/tmp/q", &l);
    assert!(r.is_err());
    let e = r.err().unwrap();
    assert!(e.contains("no Godot project found"));
    assert_eq!(
        e,
        "no Godot project found from /tmp/q (searched up 5 levels). Use --project <path> or run from within a Godot project."
    );
}

#[test]
fn resolve_auto_found() {
    let l = levels(&[("/tmp/p/src", false), ("/tmp/p", true)]);
    assert_eq!(resolve_project_root(None, "/tmp/p/src", &l), Ok("/tmp/p".to_string()));
}
