//! Traversal and classification behaviour of the status operation.

use dotfiles::cli::GlobalArgs;
use dotfiles::commands::status::{
    get_dotfiles_entries, get_dotfiles_entry_state, DotfilesEntryState, LinkState,
};
use dotfiles::config::AppConfig;
use dotfiles::fs_model::{FsEntry, FsKind, FsTree};
use dotfiles::paths::NormPath;

fn path(s: &str) -> NormPath {
    NormPath::from_bytes(&s.as_bytes().to_vec())
}

fn config(mappings: Vec<&str>) -> AppConfig {
    AppConfig { config_version: 1, mappings: mappings.into_iter().map(path).collect() }
}

fn tree(entries: Vec<(&str, FsKind)>) -> FsTree {
    FsTree {
        entries: entries
            .into_iter()
            .map(|(p, kind)| FsEntry { path: path(p), kind })
            .collect(),
    }
}

fn args(root: &str) -> GlobalArgs {
    GlobalArgs { dotfiles_root: path(root) }
}

#[test]
fn status_empty_repository_and_mappings_reports_nothing() {
    let entries = get_dotfiles_entries(&FsTree::new(), &config(vec![]));
    assert!(entries.is_empty());
}

#[test]
fn status_mapped_entry_without_home_counterpart_is_unlinked() {
    let repo = tree(vec![(".config", FsKind::Dir), (".config/app", FsKind::Dir)]);
    let cfg = config(vec![".config/app"]);
    let entries = get_dotfiles_entries(&repo, &cfg);
    assert_eq!(entries.len(), 1);
    assert_eq!(entries[0].0, path(".config/app"));
    assert_eq!(entries[0].1, DotfilesEntryState::Mapped);

    let state = get_dotfiles_entry_state(
        &args("/repo"),
        &entries[0],
        &path("/home/user"),
        &FsTree::new(),
    );
    assert_eq!(state, LinkState::Unlinked);
}

#[test]
fn walker_is_deterministic() {
    let repo = tree(vec![
        (".config", FsKind::Dir),
        (".config/app", FsKind::Dir),
        (".vimrc", FsKind::File),
        ("notes", FsKind::Dir),
    ]);
    let cfg = config(vec![".config/app", ".bashrc"]);
    let first = get_dotfiles_entries(&repo, &cfg);
    let second = get_dotfiles_entries(&repo, &cfg);
    assert_eq!(first, second);
}

#[test]
fn walker_prunes_below_mapped_directories() {
    let repo = tree(vec![
        (".config", FsKind::Dir),
        (".config/app", FsKind::Dir),
        (".config/app/conf", FsKind::File),
        (".config/app/deep", FsKind::Dir),
        (".config/app/deep/file", FsKind::File),
    ]);
    let cfg = config(vec![".config/app"]);
    let entries = get_dotfiles_entries(&repo, &cfg);
    assert_eq!(entries.len(), 1);
    assert_eq!(entries[0], (path(".config/app"), DotfilesEntryState::Mapped));
}

#[test]
fn walker_stops_at_unmapped_entries() {
    let repo = tree(vec![
        ("notes", FsKind::Dir),
        ("notes/todo", FsKind::File),
        (".vimrc", FsKind::File),
    ]);
    let cfg = config(vec![".vimrc"]);
    let entries = get_dotfiles_entries(&repo, &cfg);
    assert_eq!(
        entries,
        vec![
            (path(".vimrc"), DotfilesEntryState::Mapped),
            (path("notes"), DotfilesEntryState::Unmapped),
        ]
    );
}

#[test]
fn walker_does_not_descend_into_symlinked_directories() {
    let repo = tree(vec![
        (".config", FsKind::Symlink(path("/elsewhere"))),
        (".vimrc", FsKind::File),
    ]);
    let cfg = config(vec![".config/app"]);
    let entries = get_dotfiles_entries(&repo, &cfg);
    // The mapping below the symlink is never found, so it is invalid.
    assert_eq!(
        entries,
        vec![
            (path(".config/app"), DotfilesEntryState::Invalid),
            (path(".vimrc"), DotfilesEntryState::Unmapped),
        ]
    );
}

#[test]
fn missing_mapping_yields_exactly_one_invalid_entry_in_order() {
    let repo = tree(vec![(".vimrc", FsKind::File)]);
    let cfg = config(vec![".config/app", ".vimrc"]);
    let entries = get_dotfiles_entries(&repo, &cfg);
    assert_eq!(
        entries,
        vec![
            (path(".config/app"), DotfilesEntryState::Invalid),
            (path(".vimrc"), DotfilesEntryState::Mapped),
        ]
    );
    let invalids = entries
        .iter()
        .filter(|e| e.0 == path(".config/app"))
        .count();
    assert_eq!(invalids, 1);
}

#[test]
fn classifier_invalid_entry() {
    let entry = (path(".config/app"), DotfilesEntryState::Invalid);
    let state =
        get_dotfiles_entry_state(&args("/repo"), &entry, &path("/home/user"), &FsTree::new());
    assert_eq!(state, LinkState::Invalid(path("/repo/.config/app")));
}

#[test]
fn classifier_unmapped_entry() {
    let entry = (path("notes"), DotfilesEntryState::Unmapped);
    let state =
        get_dotfiles_entry_state(&args("/repo"), &entry, &path("/home/user"), &FsTree::new());
    assert_eq!(state, LinkState::Unmapped);
}

#[test]
fn classifier_mapped_entry_missing_at_home_is_unlinked() {
    let entry = (path(".vimrc"), DotfilesEntryState::Mapped);
    let state =
        get_dotfiles_entry_state(&args("/repo"), &entry, &path("/home/user"), &FsTree::new());
    assert_eq!(state, LinkState::Unlinked);
}

#[test]
fn classifier_mapped_entry_with_plain_file_at_home_conflicts() {
    let home = tree(vec![(".vimrc", FsKind::File)]);
    let entry = (path(".vimrc"), DotfilesEntryState::Mapped);
    let state = get_dotfiles_entry_state(&args("/repo"), &entry, &path("/home/user"), &home);
    assert_eq!(state, LinkState::ConflictNoLink(path("/home/user/.vimrc")));
}

#[test]
fn classifier_mapped_entry_with_wrong_symlink_target_conflicts() {
    let home = tree(vec![(".vimrc", FsKind::Symlink(path("/other/.vimrc")))]);
    let entry = (path(".vimrc"), DotfilesEntryState::Mapped);
    let state = get_dotfiles_entry_state(&args("/repo"), &entry, &path("/home/user"), &home);
    assert_eq!(state, LinkState::ConflictWrongTarget(path("/other/.vimrc")));
}

#[test]
fn classifier_mapped_entry_with_correct_symlink_is_linked() {
    let home = tree(vec![(".vimrc", FsKind::Symlink(path("/repo/.vimrc")))]);
    let entry = (path(".vimrc"), DotfilesEntryState::Mapped);
    let state = get_dotfiles_entry_state(&args("/repo"), &entry, &path("/home/user"), &home);
    assert_eq!(state, LinkState::Linked);
}

#[test]
fn classifier_compares_literal_targets_only() {
    // A target that would resolve to the same place but is textually
    // different still counts as a conflict.
    let home = tree(vec![(".vimrc", FsKind::Symlink(path("/repo/sub/../.vimrc")))]);
    let entry = (path(".vimrc"), DotfilesEntryState::Mapped);
    let state = get_dotfiles_entry_state(&args("/repo"), &entry, &path("/home/user"), &home);
    assert_eq!(state, LinkState::ConflictWrongTarget(path("/repo/sub/../.vimrc")));
}

#[test]
fn status_entries_are_sorted_by_path() {
    let repo = tree(vec![
        ("b", FsKind::File),
        ("a", FsKind::Dir),
        ("a/c", FsKind::File),
        ("a.d", FsKind::File),
    ]);
    let cfg = config(vec!["a/c"]);
    let entries = get_dotfiles_entries(&repo, &cfg);
    let paths: Vec<NormPath> = entries.into_iter().map(|e| e.0).collect();
    // Segment-wise order: a/c sorts before a.d, unlike plain byte order.
    assert_eq!(paths, vec![path("a/c"), path("a.d"), path("b")]);
}
