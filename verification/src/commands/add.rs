//! The `add` operation: planning the configuration and filesystem changes
//! that bring one new path under management.
//!
//! Planning is pure: it takes the validated configuration, the two root
//! directories, the candidate path, and the observed repository and home
//! trees, and computes either the ordered list of required changes (with the
//! steps that can be skipped) or the error that rules the candidate out.
//! Nothing is mutated before the whole plan is known.

use vstd::prelude::*;

use crate::config::{contains_path_in, mappings_validated, views_of, AppConfig};
use crate::fs_model::{tree_has, tree_kind, FsEntryModel, FsKind, FsKindModel, FsTree};
use crate::paths::{is_prefix, path_join, path_strip, NormPath, PathModel};

verus! {

/// Mathematical model of an `add` failure.
#[verifier::ext_equal]
pub ghost enum ErrorModel {
    OutsideValidDir(PathModel),
    BothPathsExist(PathModel, PathModel),
    ExistingParent(PathModel, PathModel),
    ExistingChild(PathModel, PathModel),
}

/// A failure specific to the `add` operation.
#[derive(Debug)]
pub enum Error {
    /// The given path is outside both the home and the dotfiles directory.
    /// Carries the path.
    OutsideValidDir(NormPath),
    /// The given path already exists in both the home and dotfiles
    /// directories, and the two do not point at each other. Carries the
    /// absolute dotfiles and home locations.
    BothPathsExist(NormPath, NormPath),
    /// A mapping already exists that is a parent of the given path.
    /// Carries the given path and the existing parent mapping.
    ExistingParent(NormPath, NormPath),
    /// A mapping already exists that is a child of the given path.
    /// Carries the given path and the existing nested mapping.
    ExistingChild(NormPath, NormPath),
}

impl View for Error {
    type V = ErrorModel;

    open spec fn view(&self) -> ErrorModel {
        match self {
            Error::OutsideValidDir(p) => ErrorModel::OutsideValidDir(p@),
            Error::BothPathsExist(d, h) => ErrorModel::BothPathsExist(d@, h@),
            Error::ExistingParent(p, m) => ErrorModel::ExistingParent(p@, m@),
            Error::ExistingChild(p, m) => ErrorModel::ExistingChild(p@, m@),
        }
    }
}

/// Mathematical model of one required change.
#[verifier::ext_equal]
pub ghost enum RequiredChangeModel {
    AddMapping(PathModel),
    CreateSymlink(PathModel, PathModel),
    MoveFile(PathModel, PathModel),
}

/// One atomic unit of work needed to bring a path under management.
/// Execution order matters: a move must precede the link that points at
/// the moved content.
#[derive(Debug, PartialEq, Eq)]
pub enum RequiredChanges {
    /// Add the given relative path to the configured mappings and persist
    /// the configuration.
    AddMapping(NormPath),
    /// Create a symlink at the first location pointing at the second.
    CreateSymlink(NormPath, NormPath),
    /// Move the file or directory at the first location to the second.
    MoveFile(NormPath, NormPath),
}

impl View for RequiredChanges {
    type V = RequiredChangeModel;

    open spec fn view(&self) -> RequiredChangeModel {
        match self {
            RequiredChanges::AddMapping(p) => RequiredChangeModel::AddMapping(p@),
            RequiredChanges::CreateSymlink(f, t) => RequiredChangeModel::CreateSymlink(f@, t@),
            RequiredChanges::MoveFile(f, t) => RequiredChangeModel::MoveFile(f@, t@),
        }
    }
}

/// A step of the plan that turned out to be unnecessary.
#[derive(Debug, Clone, Copy, PartialEq, Eq, Structural)]
pub enum SkippedStep {
    /// The path is already mapped; the configuration needs no update.
    AlreadyMapped,
    /// The two locations are already correctly linked; no symlink is
    /// created.
    AlreadyLinked,
}

/// The models of a change list.
pub open spec fn change_views(v: Seq<RequiredChanges>) -> Seq<RequiredChangeModel> {
    Seq::new(v.len(), |i: int| v[i]@)
}

/// The first mapping conflicting with the candidate, scanning in
/// configuration order: a mapping the candidate would contain gives the
/// existing-child failure, a mapping containing the candidate the
/// existing-parent one.
pub open spec fn first_conflict(ms: Seq<PathModel>, rel: PathModel) -> Option<ErrorModel>
    decreases ms.len(),
{
    if ms.len() == 0 {
        None
    } else if is_prefix(rel, ms[0]) {
        Some(ErrorModel::ExistingChild(rel, ms[0]))
    } else if is_prefix(ms[0], rel) {
        Some(ErrorModel::ExistingParent(rel, ms[0]))
    } else {
        first_conflict(ms.drop_first(), rel)
    }
}

/// Scanning for a conflict ignores an already-scanned conflict-free front.
proof fn lemma_first_conflict_skip(ms: Seq<PathModel>, rel: PathModel, i: int)
    requires
        0 <= i <= ms.len(),
        forall|k: int|
            0 <= k < i ==> !is_prefix(rel, #[trigger] ms[k]) && !is_prefix(ms[k], rel),
    ensures
        first_conflict(ms, rel) == first_conflict(ms.skip(i), rel),
    decreases i,
{
    if i == 0 {
        assert(ms.skip(0) =~= ms);
    } else {
        assert(ms.drop_first().skip(i - 1) =~= ms.skip(i));
        assert(forall|k: int|
            0 <= k < i - 1 ==> !is_prefix(rel, #[trigger] ms.drop_first()[k]) && !is_prefix(
                ms.drop_first()[k],
                rel,
            ));
        lemma_first_conflict_skip(ms.drop_first(), rel, i - 1);
    }
}

/// The full plan, or the failure, for one candidate path: the candidate is
/// classified as inside the repository (which wins when the repository
/// lies inside the home directory), inside the home directory, or outside
/// both (a hard failure); the mapping-relative path is derived by
/// stripping the matching root; the configuration step is skippable when
/// the path is already mapped and a failure when it nests with an existing
/// mapping; and the filesystem step moves then links, links only, is
/// skippable, or fails, depending on which of the two locations exist and
/// whether they are already correctly linked.
pub open spec fn spec_required_changes(
    ms: Seq<PathModel>,
    repo_root: PathModel,
    home_root: PathModel,
    path: PathModel,
    repo: Seq<FsEntryModel>,
    home: Seq<FsEntryModel>,
) -> Result<(Seq<RequiredChangeModel>, Seq<SkippedStep>), ErrorModel> {
    let in_repo = is_prefix(repo_root, path);
    let in_home = is_prefix(home_root, path) && !in_repo;
    if !in_repo && !in_home {
        Err(ErrorModel::OutsideValidDir(path))
    } else {
        let rel = if in_repo {
            path_strip(path, repo_root)
        } else {
            path_strip(path, home_root)
        };
        let homedir_path = path_join(home_root, rel);
        let dotfiles_path = path_join(repo_root, rel);
        let already_mapped = ms.contains(rel);
        if !already_mapped && first_conflict(ms, rel) is Some {
            Err(first_conflict(ms, rel)->Some_0)
        } else {
            let mapping_changes: Seq<RequiredChangeModel> = if already_mapped {
                Seq::empty()
            } else {
                seq![RequiredChangeModel::AddMapping(rel)]
            };
            let mapping_skips: Seq<SkippedStep> = if already_mapped {
                seq![SkippedStep::AlreadyMapped]
            } else {
                Seq::empty()
            };
            if tree_has(home, rel) && tree_has(repo, rel) {
                if tree_kind(home, rel) matches FsKindModel::Symlink(target) && target
                    == dotfiles_path {
                    Ok((mapping_changes, mapping_skips.push(SkippedStep::AlreadyLinked)))
                } else {
                    Err(ErrorModel::BothPathsExist(dotfiles_path, homedir_path))
                }
            } else if tree_has(home, rel) {
                Ok(
                    (
                        mapping_changes + seq![
                            RequiredChangeModel::MoveFile(homedir_path, dotfiles_path),
                            RequiredChangeModel::CreateSymlink(homedir_path, dotfiles_path),
                        ],
                        mapping_skips,
                    ),
                )
            } else {
                Ok(
                    (
                        mapping_changes + seq![
                            RequiredChangeModel::CreateSymlink(homedir_path, dotfiles_path),
                        ],
                        mapping_skips,
                    ),
                )
            }
        }
    }
}

/// Computes the plan bringing `path` under management: the ordered changes
/// and skippable steps, or the failure that rules the candidate out. The
/// result is exactly `spec_required_changes` of the inputs; nothing is
/// mutated.
pub fn get_required_changes(
    config: &AppConfig,
    dotfiles_root: &NormPath,
    home_dir: &NormPath,
    path: &NormPath,
    repo_tree: &FsTree,
    home_tree: &FsTree,
) -> (r: Result<(Vec<RequiredChanges>, Vec<SkippedStep>), Error>)
    requires
        repo_tree.wf(),
        home_tree.wf(),
        mappings_validated(config@.mappings),
    ensures
        ({
            let s = spec_required_changes(
                config@.mappings,
                dotfiles_root@,
                home_dir@,
                path@,
                repo_tree@,
                home_tree@,
            );
            match r {
                Ok((changes, skipped)) => s is Ok && change_views(changes@) == s->Ok_0.0
                    && skipped@ == s->Ok_0.1,
                Err(e) => s is Err && e@ == s->Err_0,
            }
        }),
{
    let ghost msv = config@.mappings;
    proof {
        assert(msv =~= views_of(config.mappings@));
    }
    let in_repo = path.starts_with(dotfiles_root);
    let in_home = !in_repo && path.starts_with(home_dir);
    if !in_repo && !in_home {
        return Err(Error::OutsideValidDir(path.clone()));
    }
    let rel = if in_repo {
        path.strip_prefix(dotfiles_root)
    } else {
        path.strip_prefix(home_dir)
    };
    let homedir_path = home_dir.join(&rel);
    let dotfiles_path = dotfiles_root.join(&rel);
    let already_mapped = contains_path_in(&config.mappings, &rel);
    let mut changes: Vec<RequiredChanges> = Vec::new();
    let mut skipped: Vec<SkippedStep> = Vec::new();
    if already_mapped {
        skipped.push(SkippedStep::AlreadyMapped);
    } else {
        // Make sure the addition cannot nest with an existing mapping.
        let mut i: usize = 0;
        while i < config.mappings.len()
            invariant
                msv == config@.mappings,
                0 <= i <= msv.len(),
                msv.len() == config.mappings@.len(),
                !msv.contains(rel@),
                is_prefix(dotfiles_root@, path@) || is_prefix(home_dir@, path@),
                rel@ == if is_prefix(dotfiles_root@, path@) {
                    path_strip(path@, dotfiles_root@)
                } else {
                    path_strip(path@, home_dir@)
                },
                forall|k: int|
                    0 <= k < i ==> !is_prefix(rel@, #[trigger] msv[k]) && !is_prefix(
                        msv[k],
                        rel@,
                    ),
            decreases msv.len() - i,
        {
            proof {
                lemma_first_conflict_skip(msv, rel@, i as int);
                assert(msv.skip(i as int)[0] == msv[i as int]);
                assert(msv.skip(i as int).drop_first() =~= msv.skip(i + 1));
            }
            if config.mappings[i].starts_with(&rel) {
                proof {
                    assert(is_prefix(rel@, msv[i as int]));
                    assert(first_conflict(msv.skip(i as int), rel@) == Some(
                        ErrorModel::ExistingChild(rel@, msv[i as int]),
                    ));
                    assert(first_conflict(msv, rel@) == Some(
                        ErrorModel::ExistingChild(rel@, msv[i as int]),
                    ));
                }
                return Err(Error::ExistingChild(rel, config.mappings[i].clone()));
            } else if rel.starts_with(&config.mappings[i]) {
                proof {
                    assert(is_prefix(msv[i as int], rel@));
                    assert(first_conflict(msv.skip(i as int), rel@) == Some(
                        ErrorModel::ExistingParent(rel@, msv[i as int]),
                    ));
                    assert(first_conflict(msv, rel@) == Some(
                        ErrorModel::ExistingParent(rel@, msv[i as int]),
                    ));
                }
                return Err(Error::ExistingParent(rel, config.mappings[i].clone()));
            }
            i = i + 1;
        }
        proof {
            lemma_first_conflict_skip(msv, rel@, msv.len() as int);
            assert(msv.skip(msv.len() as int) =~= Seq::<PathModel>::empty());
        }
        changes.push(RequiredChanges::AddMapping(rel.clone()));
    }
    let ghost mapping_changes = change_views(changes@);
    let ghost mapping_skips = skipped@;
    let home_kind = home_tree.lookup(&rel);
    let repo_present = repo_tree.contains_path(&rel);
    match home_kind {
        Some(kind) => {
            if repo_present {
                let linked = match kind {
                    FsKind::Symlink(target) => target.eq(&dotfiles_path),
                    _ => false,
                };
                if linked {
                    skipped.push(SkippedStep::AlreadyLinked);
                    proof {
                        assert(skipped@ =~= mapping_skips.push(SkippedStep::AlreadyLinked));
                    }
                    Ok((changes, skipped))
                } else {
                    Err(Error::BothPathsExist(dotfiles_path, homedir_path))
                }
            } else {
                let ghost before = change_views(changes@);
                changes.push(
                    RequiredChanges::MoveFile(homedir_path.clone(), dotfiles_path.clone()),
                );
                changes.push(RequiredChanges::CreateSymlink(homedir_path, dotfiles_path));
                proof {
                    assert(change_views(changes@) =~= mapping_changes + seq![
                        RequiredChangeModel::MoveFile(
                            path_join(home_dir@, rel@),
                            path_join(dotfiles_root@, rel@),
                        ),
                        RequiredChangeModel::CreateSymlink(
                            path_join(home_dir@, rel@),
                            path_join(dotfiles_root@, rel@),
                        ),
                    ]);
                }
                Ok((changes, skipped))
            }
        },
        None => {
            changes.push(RequiredChanges::CreateSymlink(homedir_path, dotfiles_path));
            proof {
                assert(change_views(changes@) =~= mapping_changes + seq![
                    RequiredChangeModel::CreateSymlink(
                        path_join(home_dir@, rel@),
                        path_join(dotfiles_root@, rel@),
                    ),
                ]);
            }
            Ok((changes, skipped))
        },
    }
}

} // verus!
