//! Pure path resolution shared by the operations: where the configuration
//! file lives inside the repository, and how a user-given path is made
//! absolute against the working directory.

use vstd::prelude::*;

use crate::cli::GlobalArgs;
use crate::errors::AppError;
use crate::paths::{
    is_prefix, path_join, path_strip, path_wf, seg_wf, NormPath, PathModel,
};

verus! {

/// The repository-relative location of the configuration file below the
/// user configuration directory: `dotfiles/config.toml`.
pub open spec fn config_rel_path() -> PathModel {
    PathModel {
        absolute: false,
        segments: seq![
            seq![100u8, 111u8, 116u8, 102u8, 105u8, 108u8, 101u8, 115u8],
            seq![99u8, 111u8, 110u8, 102u8, 105u8, 103u8, 46u8, 116u8, 111u8, 109u8, 108u8],
        ],
    }
}

/// Where the configuration file lives: the user configuration directory,
/// taken relative to the home directory, re-rooted under the repository,
/// with `dotfiles/config.toml` appended. The configuration is thereby kept
/// inside the repository itself and never needs to be linked.
pub open spec fn spec_config_file_path(
    dotfiles_root: PathModel,
    home: PathModel,
    config_dir: PathModel,
) -> PathModel {
    path_join(path_join(dotfiles_root, path_strip(config_dir, home)), config_rel_path())
}

/// Builds the segment bytes of `dotfiles`.
fn dotfiles_segment() -> (r: Vec<u8>)
    ensures
        r@ == config_rel_path().segments[0],
{
    let mut r: Vec<u8> = Vec::new();
    r.push(100);
    r.push(111);
    r.push(116);
    r.push(102);
    r.push(105);
    r.push(108);
    r.push(101);
    r.push(115);
    proof {
        assert(r@ =~= config_rel_path().segments[0]);
    }
    r
}

/// Builds the segment bytes of `config.toml`.
fn config_toml_segment() -> (r: Vec<u8>)
    ensures
        r@ == config_rel_path().segments[1],
{
    let mut r: Vec<u8> = Vec::new();
    r.push(99);
    r.push(111);
    r.push(110);
    r.push(102);
    r.push(105);
    r.push(103);
    r.push(46);
    r.push(116);
    r.push(111);
    r.push(109);
    r.push(108);
    proof {
        assert(r@ =~= config_rel_path().segments[1]);
    }
    r
}

/// Returns the location of the dotfiles configuration file inside the
/// repository, or the resolution failure when the user configuration
/// directory does not lie below the home directory.
pub fn get_config_file_path(
    global_args: &GlobalArgs,
    home: &NormPath,
    config_dir: &NormPath,
) -> (r: Result<NormPath, AppError>)
    ensures
        match r {
            Ok(p) => is_prefix(home@, config_dir@) && p@ == spec_config_file_path(
                global_args.dotfiles_root@,
                home@,
                config_dir@,
            ),
            Err(e) => !is_prefix(home@, config_dir@) && e is FsResolveConfig,
        },
{
    if !config_dir.starts_with(home) {
        return Err(AppError::FsResolveConfig);
    }
    let rel_config = config_dir.strip_prefix(home);
    let base = global_args.dotfiles_root.join(&rel_config);
    let mut tail_segments: Vec<Vec<u8>> = Vec::new();
    tail_segments.push(dotfiles_segment());
    tail_segments.push(config_toml_segment());
    let tail = NormPath { absolute: false, segments: tail_segments };
    proof {
        crate::paths::lemma_bytes_deep_view(tail_segments@[0]);
        crate::paths::lemma_bytes_deep_view(tail_segments@[1]);
        assert(tail@.segments =~~= config_rel_path().segments);
        assert(tail@ =~= config_rel_path());
    }
    Ok(base.join(&tail))
}

/// The parent-directory marker `..`.
pub open spec fn parent_marker() -> Seq<u8> {
    seq![46u8, 46u8]
}

/// Resolving parent-directory markers against already-resolved segments:
/// a marker drops the last resolved segment, and at the root it is simply
/// ignored, the way operating systems resolve `/..`.
pub open spec fn resolve_dots(acc: Seq<Seq<u8>>, rest: Seq<Seq<u8>>) -> Seq<Seq<u8>>
    decreases rest.len(),
{
    if rest.len() == 0 {
        acc
    } else if rest[0] == parent_marker() {
        resolve_dots(
            if acc.len() > 0 {
                acc.drop_last()
            } else {
                acc
            },
            rest.drop_first(),
        )
    } else {
        resolve_dots(acc.push(rest[0]), rest.drop_first())
    }
}

/// The two paths joined, with parent-directory markers resolved away
/// textually — symlinks are deliberately not resolved.
pub open spec fn spec_normalize_paths(a: PathModel, b: PathModel) -> PathModel {
    let joined = path_join(a, b);
    PathModel { absolute: joined.absolute, segments: resolve_dots(Seq::empty(), joined.segments) }
}

/// Resolution never invents segments: every resolved segment is one of the
/// accumulated or remaining ones.
proof fn lemma_resolve_dots_wf(acc: Seq<Seq<u8>>, rest: Seq<Seq<u8>>)
    requires
        forall|i: int| 0 <= i < acc.len() ==> seg_wf(#[trigger] acc[i]),
        forall|i: int| 0 <= i < rest.len() ==> seg_wf(#[trigger] rest[i]),
    ensures
        forall|i: int|
            0 <= i < resolve_dots(acc, rest).len() ==> seg_wf(
                #[trigger] resolve_dots(acc, rest)[i],
            ),
    decreases rest.len(),
{
    let res = resolve_dots(acc, rest);
    if rest.len() == 0 {
        assert forall|i: int| 0 <= i < res.len() implies seg_wf(#[trigger] res[i]) by {
            assert(res[i] == acc[i]);
        }
    } else if rest[0] == parent_marker() {
        let acc2 = if acc.len() > 0 {
            acc.drop_last()
        } else {
            acc
        };
        assert(forall|i: int| 0 <= i < acc2.len() ==> seg_wf(#[trigger] acc2[i]));
        lemma_resolve_dots_wf(acc2, rest.drop_first());
        assert forall|i: int| 0 <= i < res.len() implies seg_wf(#[trigger] res[i]) by {
            assert(res[i] == resolve_dots(acc2, rest.drop_first())[i]);
        }
    } else {
        assert(forall|i: int|
            0 <= i < acc.push(rest[0]).len() ==> seg_wf(#[trigger] acc.push(rest[0])[i]));
        lemma_resolve_dots_wf(acc.push(rest[0]), rest.drop_first());
        assert forall|i: int| 0 <= i < res.len() implies seg_wf(#[trigger] res[i]) by {
            assert(res[i] == resolve_dots(acc.push(rest[0]), rest.drop_first())[i]);
        }
    }
}

/// Whether a segment is the parent-directory marker.
fn is_parent_marker(seg: &Vec<u8>) -> (r: bool)
    ensures
        r == (seg@ == parent_marker()),
{
    if seg.len() == 2 && seg[0] == 46 && seg[1] == 46 {
        proof {
            assert(seg@ =~= parent_marker());
        }
        true
    } else {
        proof {
            if seg@ == parent_marker() {
                assert(seg@.len() == 2);
                assert(seg@[0] == 46 && seg@[1] == 46);
            }
        }
        false
    }
}

/// Returns the two given paths joined together, with parent-directory
/// markers resolved textually. Unlike a full canonicalization this never
/// touches the filesystem and does *not* resolve symlinks.
pub fn normalize_paths(p1: &NormPath, p2: &NormPath) -> (r: NormPath)
    ensures
        r@ == spec_normalize_paths(p1@, p2@),
        path_wf(p1@) && path_wf(p2@) ==> path_wf(r@),
{
    let joined = p1.join(p2);
    let ghost js = joined@.segments;
    let mut segments: Vec<Vec<u8>> = Vec::new();
    let mut i: usize = 0;
    proof {
        assert(segments.deep_view() =~= Seq::<Seq<u8>>::empty());
        assert(js.skip(0) =~= js);
    }
    while i < joined.segments.len()
        invariant
            0 <= i <= js.len(),
            js == joined@.segments,
            joined@.segments == joined.segments.deep_view(),
            resolve_dots(Seq::empty(), js) == resolve_dots(segments.deep_view(), js.skip(i as int)),
        decreases js.len() - i,
    {
        proof {
            assert(js.skip(i as int)[0] == js[i as int]);
            assert(js.skip(i as int).drop_first() =~= js.skip(i + 1));
            crate::paths::lemma_bytes_deep_view(joined.segments@[i as int]);
        }
        if is_parent_marker(&joined.segments[i]) {
            let ghost prev = segments.deep_view();
            if segments.len() > 0 {
                segments.pop();
                proof {
                    assert(segments.deep_view() =~= prev.drop_last());
                }
            }
        } else {
            let seg = crate::paths::clone_bytes(&joined.segments[i]);
            let ghost prev = segments.deep_view();
            proof {
                crate::paths::lemma_bytes_deep_view(seg);
            }
            segments.push(seg);
            proof {
                assert(segments.deep_view() =~= prev.push(js[i as int]));
            }
        }
        i = i + 1;
    }
    proof {
        assert(js.skip(js.len() as int) =~= Seq::<Seq<u8>>::empty());
    }
    let r = NormPath { absolute: joined.absolute, segments };
    proof {
        assert(r@ =~= spec_normalize_paths(p1@, p2@));
        if path_wf(p1@) && path_wf(p2@) {
            assert(forall|k: int| 0 <= k < js.len() ==> seg_wf(#[trigger] js[k]));
            lemma_resolve_dots_wf(Seq::empty(), js);
        }
    }
    r
}

} // verus!
