//! The path model and the pure path-resolution helpers.

use dotfiles::cli::GlobalArgs;
use dotfiles::files::{get_config_file_path, normalize_paths};
use dotfiles::paths::NormPath;

fn path(s: &str) -> NormPath {
    NormPath::from_bytes(&s.as_bytes().to_vec())
}

#[test]
fn parsing_normalizes_leading_current_dir_marker() {
    assert_eq!(path("./.config"), path(".config"));
    assert_eq!(path("././a/b"), path("a/b"));
}

#[test]
fn parsing_normalizes_separator_runs_and_inner_markers() {
    assert_eq!(path("a//b"), path("a/b"));
    assert_eq!(path("a/./b"), path("a/b"));
    assert_eq!(path("a/b/"), path("a/b"));
}

#[test]
fn absolute_and_relative_paths_differ() {
    assert_ne!(path("/a/b"), path("a/b"));
    assert!(path("/a/b").is_absolute());
    assert!(!path("a/b").is_absolute());
}

#[test]
fn rendering_round_trips() {
    let p = path("/home/user/.config/app");
    assert_eq!(String::from_utf8(p.to_bytes()).unwrap(), "/home/user/.config/app");
    let q = path(".config/app");
    assert_eq!(String::from_utf8(q.to_bytes()).unwrap(), ".config/app");
}

#[test]
fn prefix_checks_are_segment_wise() {
    assert!(path("a/b/c").starts_with(&path("a/b")));
    assert!(path("a/b").starts_with(&path("a/b")));
    assert!(!path("a/bc").starts_with(&path("a/b")));
    assert!(!path("/a/b").starts_with(&path("a")));
}

#[test]
fn join_and_strip_prefix_are_inverses() {
    let root = path("/repo");
    let rel = path(".config/app");
    let joined = root.join(&rel);
    assert_eq!(joined, path("/repo/.config/app"));
    assert_eq!(joined.strip_prefix(&root), rel);
}

#[test]
fn joining_an_absolute_path_replaces_the_base() {
    assert_eq!(path("/a/b").join(&path("/c")), path("/c"));
}

#[test]
fn path_order_is_segment_wise() {
    // A plain byte comparison would order "a.d" before "a/c"; the
    // segment-wise order used for sorting does not.
    assert!(path("a").le(&path("a/c")));
    assert!(path("a/c").le(&path("a.d")));
    assert!(!path("a.d").le(&path("a/c")));
    assert!(path("x").le(&path("x")));
}

#[test]
fn normalize_paths_resolves_parent_markers() {
    let cwd = path("/home/user");
    assert_eq!(normalize_paths(&cwd, &path("proj/../file")), path("/home/user/file"));
    assert_eq!(normalize_paths(&cwd, &path("../other")), path("/home/other"));
    assert_eq!(normalize_paths(&path("/"), &path("..")), path("/"));
    assert_eq!(normalize_paths(&cwd, &path("/abs/../x")), path("/x"));
}

#[test]
fn config_file_path_lives_inside_the_repository() {
    let args = GlobalArgs { dotfiles_root: path("/repo") };
    let resolved = get_config_file_path(&args, &path("/home/user"), &path("/home/user/.config"))
        .expect("resolution failed");
    assert_eq!(resolved, path("/repo/.config/dotfiles/config.toml"));
}

#[test]
fn config_file_path_fails_outside_home() {
    let args = GlobalArgs { dotfiles_root: path("/repo") };
    let result = get_config_file_path(&args, &path("/home/user"), &path("/etc/xdg"));
    assert!(result.is_err());
}
