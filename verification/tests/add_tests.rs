//! Planning behaviour of the add operation.

use dotfiles::commands::add::{get_required_changes, Error, RequiredChanges, SkippedStep};
use dotfiles::config::AppConfig;
use dotfiles::fs_model::{FsEntry, FsKind, FsTree};
use dotfiles::paths::NormPath;

fn path(s: &str) -> NormPath {
    NormPath::from_bytes(&s.as_bytes().to_vec())
}

fn config(mappings: Vec<&str>) -> AppConfig {
    AppConfig { config_version: 1, mappings: mappings.into_iter().map(path).collect() }
}

fn tree(entries: Vec<(&str, FsKind)>) -> FsTree {
    FsTree {
        entries: entries
            .into_iter()
            .map(|(p, kind)| FsEntry { path: path(p), kind })
            .collect(),
    }
}

#[test]
fn planning_new_home_path_moves_then_links() {
    let cfg = config(vec![]);
    let repo = FsTree::new();
    let home = tree(vec![(".config", FsKind::Dir), (".config/app", FsKind::File)]);
    let (changes, skipped) = get_required_changes(
        &cfg,
        &path("/repo"),
        &path("/home/user"),
        &path("/home/user/.config/app"),
        &repo,
        &home,
    )
    .expect("planning failed");
    assert_eq!(
        changes,
        vec![
            RequiredChanges::AddMapping(path(".config/app")),
            RequiredChanges::MoveFile(path("/home/user/.config/app"), path("/repo/.config/app")),
            RequiredChanges::CreateSymlink(
                path("/home/user/.config/app"),
                path("/repo/.config/app"),
            ),
        ]
    );
    assert!(skipped.is_empty());
}

#[test]
fn replanning_after_apply_is_fully_skippable() {
    // The state after applying the plan of the previous scenario: mapping
    // recorded, content moved into the repository, symlink in place.
    let cfg = config(vec![".config/app"]);
    let repo = tree(vec![(".config", FsKind::Dir), (".config/app", FsKind::File)]);
    let home = tree(vec![
        (".config", FsKind::Dir),
        (".config/app", FsKind::Symlink(path("/repo/.config/app"))),
    ]);
    let (changes, skipped) = get_required_changes(
        &cfg,
        &path("/repo"),
        &path("/home/user"),
        &path("/home/user/.config/app"),
        &repo,
        &home,
    )
    .expect("planning failed");
    assert!(changes.is_empty());
    assert_eq!(skipped, vec![SkippedStep::AlreadyMapped, SkippedStep::AlreadyLinked]);
}

#[test]
fn planning_path_inside_repository_links_only() {
    let cfg = config(vec![]);
    let repo = tree(vec![(".vimrc", FsKind::File)]);
    let home = FsTree::new();
    let (changes, skipped) = get_required_changes(
        &cfg,
        &path("/repo"),
        &path("/home/user"),
        &path("/repo/.vimrc"),
        &repo,
        &home,
    )
    .expect("planning failed");
    assert_eq!(
        changes,
        vec![
            RequiredChanges::AddMapping(path(".vimrc")),
            RequiredChanges::CreateSymlink(path("/home/user/.vimrc"), path("/repo/.vimrc")),
        ]
    );
    assert!(skipped.is_empty());
}

#[test]
fn planning_fails_when_both_paths_exist_unlinked() {
    let cfg = config(vec![]);
    let repo = tree(vec![(".vimrc", FsKind::File)]);
    let home = tree(vec![(".vimrc", FsKind::File)]);
    let result = get_required_changes(
        &cfg,
        &path("/repo"),
        &path("/home/user"),
        &path("/home/user/.vimrc"),
        &repo,
        &home,
    );
    match result {
        Err(Error::BothPathsExist(dotfiles, home_loc)) => {
            assert_eq!(dotfiles, path("/repo/.vimrc"));
            assert_eq!(home_loc, path("/home/user/.vimrc"));
        },
        other => panic!("expected a both-paths failure, got {other:?}"),
    }
}

#[test]
fn planning_fails_before_mutation_when_candidate_contains_a_mapping() {
    let cfg = config(vec![".config/app/conf"]);
    let repo = FsTree::new();
    let home = tree(vec![(".config", FsKind::Dir), (".config/app", FsKind::Dir)]);
    let result = get_required_changes(
        &cfg,
        &path("/repo"),
        &path("/home/user"),
        &path("/home/user/.config/app"),
        &repo,
        &home,
    );
    match result {
        Err(Error::ExistingChild(given, child)) => {
            assert_eq!(given, path(".config/app"));
            assert_eq!(child, path(".config/app/conf"));
        },
        other => panic!("expected an existing-child failure, got {other:?}"),
    }
}

#[test]
fn planning_fails_when_a_mapping_contains_the_candidate() {
    let cfg = config(vec![".config"]);
    let repo = FsTree::new();
    let home = tree(vec![(".config", FsKind::Dir), (".config/app", FsKind::File)]);
    let result = get_required_changes(
        &cfg,
        &path("/repo"),
        &path("/home/user"),
        &path("/home/user/.config/app"),
        &repo,
        &home,
    );
    match result {
        Err(Error::ExistingParent(given, parent)) => {
            assert_eq!(given, path(".config/app"));
            assert_eq!(parent, path(".config"));
        },
        other => panic!("expected an existing-parent failure, got {other:?}"),
    }
}

#[test]
fn planning_fails_outside_both_roots() {
    let cfg = config(vec![]);
    let result = get_required_changes(
        &cfg,
        &path("/repo"),
        &path("/home/user"),
        &path("/elsewhere/file"),
        &FsTree::new(),
        &FsTree::new(),
    );
    match result {
        Err(Error::OutsideValidDir(p)) => assert_eq!(p, path("/elsewhere/file")),
        other => panic!("expected an outside failure, got {other:?}"),
    }
}

#[test]
fn repository_containment_wins_over_home_containment() {
    // The repository lives inside the home directory; a path below the
    // repository is classified as a repository path.
    let cfg = config(vec![]);
    let repo = tree(vec![("x", FsKind::File)]);
    let home = FsTree::new();
    let (changes, _) = get_required_changes(
        &cfg,
        &path("/home/user/repo"),
        &path("/home/user"),
        &path("/home/user/repo/x"),
        &repo,
        &home,
    )
    .expect("planning failed");
    assert_eq!(changes[0], RequiredChanges::AddMapping(path("x")));
}
