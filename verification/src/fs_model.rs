//! An in-memory model of one directory tree, as observed on disk. The
//! library's traversal, classification and planning logic runs on these
//! values; the binary fills them in by reading the real filesystem (without
//! following symlinks) and never interprets them itself.

use vstd::prelude::*;

use crate::paths::{is_prefix, path_wf, NormPath, PathModel};

verus! {

/// What kind of object sits at a path, as `symlink_metadata` reports it:
/// symlinks are never followed, so a symlink is its own kind and carries
/// the literal target it stores.
#[verifier::ext_equal]
pub ghost enum FsKindModel {
    File,
    Dir,
    Symlink(PathModel),
}

/// Model of one observed tree entry: its path relative to the tree root,
/// and what sits there.
#[verifier::ext_equal]
pub ghost struct FsEntryModel {
    pub path: PathModel,
    pub kind: FsKindModel,
}

/// The kind of an observed filesystem object.
#[derive(Debug, PartialEq, Eq)]
pub enum FsKind {
    /// A regular file (or anything that is neither directory nor symlink).
    File,
    /// A directory.
    Dir,
    /// A symbolic link, with the literal target path it stores.
    Symlink(NormPath),
}

impl View for FsKind {
    type V = FsKindModel;

    open spec fn view(&self) -> FsKindModel {
        match self {
            FsKind::File => FsKindModel::File,
            FsKind::Dir => FsKindModel::Dir,
            FsKind::Symlink(t) => FsKindModel::Symlink(t@),
        }
    }
}

impl Clone for FsKind {
    /// Cloning keeps the observed kind.
    fn clone(&self) -> (r: FsKind)
        ensures
            r@ == self@,
    {
        match self {
            FsKind::File => FsKind::File,
            FsKind::Dir => FsKind::Dir,
            FsKind::Symlink(t) => FsKind::Symlink(t.clone()),
        }
    }
}

/// One observed tree entry.
#[derive(Debug)]
pub struct FsEntry {
    /// The entry's path, relative to the tree root.
    pub path: NormPath,
    /// What sits at that path.
    pub kind: FsKind,
}

impl View for FsEntry {
    type V = FsEntryModel;

    open spec fn view(&self) -> FsEntryModel {
        FsEntryModel { path: self.path@, kind: self.kind@ }
    }
}

/// A snapshot of one directory tree: the entries observed below its root.
#[derive(Debug)]
pub struct FsTree {
    /// The observed entries, in no particular order.
    pub entries: Vec<FsEntry>,
}

impl View for FsTree {
    type V = Seq<FsEntryModel>;

    open spec fn view(&self) -> Seq<FsEntryModel> {
        Seq::new(self.entries@.len(), |i: int| self.entries@[i]@)
    }
}

/// Whether the tree holds an entry at `p`.
pub open spec fn tree_has(t: Seq<FsEntryModel>, p: PathModel) -> bool {
    exists|i: int| 0 <= i < t.len() && t[i].path == p
}

/// The kind of the entry at `p`; meaningful only when `tree_has` holds of a
/// well-formed tree.
pub open spec fn tree_kind(t: Seq<FsEntryModel>, p: PathModel) -> FsKindModel {
    let i = choose|i: int| 0 <= i < t.len() && t[i].path == p;
    t[i].kind
}

/// A well-formed snapshot: every entry path is relative, nonempty and
/// well-formed, and no path occurs twice.
pub open spec fn tree_wf(t: Seq<FsEntryModel>) -> bool {
    &&& forall|i: int|
        0 <= i < t.len() ==> {
            &&& !(#[trigger] t[i]).path.absolute
            &&& t[i].path.segments.len() > 0
            &&& path_wf(t[i].path)
        }
    &&& forall|i: int, j: int| 0 <= i < j < t.len() ==> t[i].path != t[j].path
}

/// `q` is a direct child of `p`: one segment longer, extending `p`.
pub open spec fn is_child(p: PathModel, q: PathModel) -> bool {
    &&& is_prefix(p, q)
    &&& q.segments.len() == p.segments.len() + 1
}

impl FsTree {
    /// A well-formed snapshot.
    pub open spec fn wf(&self) -> bool {
        tree_wf(self@)
    }

    /// An empty snapshot, for a tree with nothing below its root.
    pub fn new() -> (r: FsTree)
        ensures
            r@ == Seq::<FsEntryModel>::empty(),
            r.wf(),
    {
        let r = FsTree { entries: Vec::new() };
        proof {
            assert(r@ =~= Seq::<FsEntryModel>::empty());
        }
        r
    }

    /// Looks up the entry at `p`, if any.
    pub fn lookup(&self, p: &NormPath) -> (r: Option<FsKind>)
        requires
            self.wf(),
        ensures
            match r {
                Some(k) => tree_has(self@, p@) && k@ == tree_kind(self@, p@),
                None => !tree_has(self@, p@),
            },
    {
        let mut i: usize = 0;
        while i < self.entries.len()
            invariant
                self.wf(),
                0 <= i <= self@.len(),
                self@.len() == self.entries@.len(),
                forall|k: int| 0 <= k < i ==> self@[k].path != p@,
            decreases self@.len() - i,
        {
            if self.entries[i].path.eq(p) {
                let r = self.entries[i].kind.clone();
                proof {
                    assert(self@[i as int].path == p@);
                    let w = choose|w: int| 0 <= w < self@.len() && self@[w].path == p@;
                    if w != i {
                        assert(self@[w].path != self@[i as int].path);
                    }
                }
                return Some(r);
            }
            i = i + 1;
        }
        None
    }

    /// Whether the tree holds an entry at `p`.
    pub fn contains_path(&self, p: &NormPath) -> (r: bool)
        requires
            self.wf(),
        ensures
            r == tree_has(self@, p@),
    {
        match self.lookup(p) {
            Some(_) => true,
            None => false,
        }
    }

    /// The paths of the direct children of `p` in the tree, each one
    /// segment longer than `p`; their order follows the entry list.
    pub fn children_of(&self, p: &NormPath) -> (r: Vec<NormPath>)
        requires
            self.wf(),
        ensures
            forall|j: int|
                0 <= j < r@.len() ==> {
                    &&& tree_has(self@, (#[trigger] r@[j])@)
                    &&& is_child(p@, r@[j]@)
                },
            forall|i: int|
                0 <= i < self@.len() && is_child(p@, (#[trigger] self@[i]).path) ==> exists|j: int|
                    0 <= j < r@.len() && r@[j]@ == self@[i].path,
            forall|j: int, k: int| 0 <= j < k < r@.len() ==> r@[j]@ != r@[k]@,
    {
        let mut r: Vec<NormPath> = Vec::new();
        let mut i: usize = 0;
        while i < self.entries.len()
            invariant
                self.wf(),
                0 <= i <= self@.len(),
                self@.len() == self.entries@.len(),
                forall|j: int|
                    0 <= j < r@.len() ==> {
                        &&& tree_has(self@, (#[trigger] r@[j])@)
                        &&& is_child(p@, r@[j]@)
                        &&& exists|w: int| 0 <= w < i && self@[w].path == r@[j]@
                    },
                forall|w: int|
                    0 <= w < i && is_child(p@, (#[trigger] self@[w]).path) ==> exists|j: int|
                        0 <= j < r@.len() && r@[j]@ == self@[w].path,
                forall|j: int, k: int| 0 <= j < k < r@.len() ==> r@[j]@ != r@[k]@,
            decreases self@.len() - i,
        {
            let ec = self.entries[i].path.seg_count();
            if ec > 0 && ec - 1 == p.seg_count() && self.entries[i].path.starts_with(p) {
                let ghost prev = r@;
                proof {
                    // The new path differs from every path already pushed:
                    // those come from earlier tree entries, and a well-formed
                    // tree never repeats a path.
                    assert forall|j: int| 0 <= j < prev.len() implies (#[trigger] prev[j])@
                        != self@[i as int].path by {
                        let w = choose|w: int| 0 <= w < i && self@[w].path == prev[j]@;
                        assert(self@[w].path != self@[i as int].path);
                    }
                }
                r.push(self.entries[i].path.clone());
                proof {
                    assert(r@[prev.len() as int]@ == self@[i as int].path);
                    assert(forall|j: int| 0 <= j < prev.len() ==> r@[j] == prev[j]);
                }
            }
            i = i + 1;
        }
        r
    }
}

} // verus!
