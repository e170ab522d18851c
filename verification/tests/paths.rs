use fdbdir::path_model::clone_path;
use fdbdir::{display_path, parse_path, resolve_path};

fn segs(names: &[&str]) -> Vec<String> {
    names.iter().map(|s| s.to_string()).collect()
}

#[test]
fn parse_drops_empty_segments() {
    assert_eq!(parse_path("/a/b/"), segs(&["a", "b"]));
    assert_eq!(parse_path("//a//b/"), segs(&["a", "b"]));
    assert_eq!(parse_path("a/b"), segs(&["a", "b"]));
}

#[test]
fn parse_root_forms() {
    assert_eq!(parse_path("/"), segs(&[]));
    assert_eq!(parse_path(""), segs(&[]));
}

#[test]
fn resolve_parent_drops_last_segment() {
    assert_eq!(resolve_path(&segs(&["a", "b"]), ".."), segs(&["a"]));
}

#[test]
fn resolve_parent_at_root_is_root() {
    assert_eq!(resolve_path(&segs(&[]), ".."), segs(&[]));
}

#[test]
fn resolve_dot_keeps_base() {
    assert_eq!(resolve_path(&segs(&["a"]), "."), segs(&["a"]));
}

#[test]
fn resolve_absolute_replaces_base() {
    assert_eq!(resolve_path(&segs(&["a"]), "/x/y"), segs(&["x", "y"]));
    assert_eq!(resolve_path(&segs(&["a"]), "/"), segs(&[]));
}

#[test]
fn resolve_relative_appends() {
    assert_eq!(resolve_path(&segs(&["a"]), "b/c"), segs(&["a", "b", "c"]));
}

#[test]
fn display_root_is_slash() {
    assert_eq!(display_path(&segs(&[])), "/");
}

#[test]
fn display_joins_segments() {
    assert_eq!(display_path(&segs(&["a", "b"])), "/a/b");
}

#[test]
fn clone_path_copies_segments() {
    let p = segs(&["one", "two"]);
    assert_eq!(clone_path(&p), p);
}
