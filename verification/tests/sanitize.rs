//! Path sanitization.

use std::path::{Path, PathBuf};

fn sanitize_relative_path(path: &str) -> Option<PathBuf> {
    broodcasc::sanitize::sanitize_relative_path(path).map(|v| v.iter().collect())
}

#[test]
fn simple_relative_path() {
    let out = sanitize_relative_path("SD/tileset/jungle.wpe").unwrap();
    assert_eq!(out, Path::new("SD").join("tileset").join("jungle.wpe"));
}

#[test]
fn rejects_parent_dir_component() {
    assert_eq!(sanitize_relative_path("../etc/passwd"), None);
    assert_eq!(sanitize_relative_path("SD/../../etc/passwd"), None);
    assert_eq!(sanitize_relative_path("SD/tileset/../../../evil"), None);
}

#[test]
fn leading_root_is_treated_as_relative_not_rejected() {
    // A leading `/` just contributes an empty split segment, which is
    // skipped like any other empty segment — the result never carries
    // a root component, so it's still safe to join against an output
    // directory (there's nothing here that could escape it).
    let out = sanitize_relative_path("/etc/passwd").unwrap();
    assert_eq!(out, Path::new("etc").join("passwd"));
}

#[test]
fn treats_backslash_as_separator_and_still_rejects_traversal() {
    assert_eq!(sanitize_relative_path(r"..\..\evil"), None);
    assert_eq!(
        sanitize_relative_path(r"SD\tileset\jungle.wpe").unwrap(),
        Path::new("SD").join("tileset").join("jungle.wpe")
    );
}

#[test]
fn rejects_windows_drive_prefix() {
    assert_eq!(sanitize_relative_path("C:/Windows/System32"), None);
}

#[test]
fn empty_or_dot_only_path_is_rejected() {
    assert_eq!(sanitize_relative_path(""), None);
    assert_eq!(sanitize_relative_path("."), None);
    assert_eq!(sanitize_relative_path("./"), None);
}

#[test]
fn ignores_redundant_current_dir_and_slashes() {
    let out = sanitize_relative_path("./SD//tileset/./jungle.wpe").unwrap();
    assert_eq!(out, Path::new("SD").join("tileset").join("jungle.wpe"));
}

#[test]
fn both_separators_give_the_same_segments() {
    for path in ["a/b/c", "a/../b", "./a//b", "C:/x", "", "/a/"] {
        assert_eq!(
            sanitize_relative_path(path),
            sanitize_relative_path(&path.replace('/', "\\"))
        );
    }
}
