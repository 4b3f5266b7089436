//! The `status` operation: traversing the repository tree pruned by the
//! configured mappings, and classifying every resulting entry against the
//! home directory.
//!
//! The traversal contract is stated declaratively: a repository path is
//! *visitable* when every proper ancestor is a directory that the traversal
//! descends into (an ancestor of some mapping that is itself unmapped), and
//! the produced entries are exactly the visitable paths that are mapped or
//! unmapped, plus one `Invalid` entry for every configured mapping the
//! traversal never discovered — the whole list strictly sorted by path.

use vstd::multiset::Multiset;
use vstd::prelude::*;
use vstd::seq_lib::group_to_multiset_ensures;

use crate::cli::GlobalArgs;
use crate::config::{
    any_mapping_extends, contains_path_in, lemma_pair_in_rearrangement, mappings_validated,
    views_of, AppConfig,
};
use crate::fs_model::{is_child, tree_has, tree_kind, FsEntryModel, FsKind, FsKindModel, FsTree};
use crate::paths::{
    is_prefix, path_join, path_le, path_lt, path_wf, lemma_path_le_antisymmetric,
    lemma_path_le_total, lemma_path_le_transitive, NormPath, PathModel,
};

verus! {

broadcast use group_to_multiset_ensures;

/// How one repository entry relates to the configured mappings.
#[derive(Debug, Clone, Copy, PartialEq, Eq, Structural)]
pub enum DotfilesEntryState {
    /// The entry exactly matches a configured mapping.
    Mapped,
    /// No mapping equals or lies below the entry; it is never linked.
    Unmapped,
    /// A configured mapping whose path was not found in the repository.
    Invalid,
}

/// One discovered (or synthesized) repository entry.
pub type DotfilesEntry = (NormPath, DotfilesEntryState);

/// The models of a list of entries.
pub open spec fn entry_views(v: Seq<DotfilesEntry>) -> Seq<(PathModel, DotfilesEntryState)> {
    Seq::new(v.len(), |i: int| (v[i].0@, v[i].1))
}

/// The ancestor of `p` keeping its first `k` segments.
pub open spec fn prefix_model(p: PathModel, k: int) -> PathModel {
    PathModel { absolute: p.absolute, segments: p.segments.take(k) }
}

/// Some mapping equals `p` or lies below it: traversal must not stop here.
pub open spec fn on_path_to_mapping(ms: Seq<PathModel>, p: PathModel) -> bool {
    exists|i: int| 0 <= i < ms.len() && is_prefix(p, #[trigger] ms[i])
}

/// The traversal descends through `p`: it is a directory in the repository,
/// not itself mapped, but some mapping lies below it.
pub open spec fn descend_node(t: Seq<FsEntryModel>, ms: Seq<PathModel>, p: PathModel) -> bool {
    &&& tree_has(t, p)
    &&& tree_kind(t, p) is Dir
    &&& !ms.contains(p)
    &&& on_path_to_mapping(ms, p)
}

/// The traversal reaches `p`: every proper ancestor is descended through.
pub open spec fn visitable(t: Seq<FsEntryModel>, ms: Seq<PathModel>, p: PathModel) -> bool {
    &&& !p.absolute
    &&& p.segments.len() >= 1
    &&& forall|k: int| 1 <= k < p.segments.len() ==> descend_node(t, ms, prefix_model(p, k))
}

/// The traversal emits `(p, Mapped)`: it reaches `p` in the repository and
/// `p` is configured.
pub open spec fn emit_mapped(t: Seq<FsEntryModel>, ms: Seq<PathModel>, p: PathModel) -> bool {
    &&& tree_has(t, p)
    &&& visitable(t, ms, p)
    &&& ms.contains(p)
}

/// The traversal emits `(p, Unmapped)`: it reaches `p` and no mapping
/// equals or lies below `p`.
pub open spec fn emit_unmapped(t: Seq<FsEntryModel>, ms: Seq<PathModel>, p: PathModel) -> bool {
    &&& tree_has(t, p)
    &&& visitable(t, ms, p)
    &&& !on_path_to_mapping(ms, p)
}

/// The traversal synthesizes `(m, Invalid)`: `m` is configured but was
/// never discovered as mapped.
pub open spec fn emit_invalid(t: Seq<FsEntryModel>, ms: Seq<PathModel>, m: PathModel) -> bool {
    &&& ms.contains(m)
    &&& !emit_mapped(t, ms, m)
}

/// The full characterization of one produced entry.
pub open spec fn entry_expected(
    t: Seq<FsEntryModel>,
    ms: Seq<PathModel>,
    p: PathModel,
    st: DotfilesEntryState,
) -> bool {
    match st {
        DotfilesEntryState::Mapped => emit_mapped(t, ms, p),
        DotfilesEntryState::Unmapped => emit_unmapped(t, ms, p),
        DotfilesEntryState::Invalid => emit_invalid(t, ms, p),
    }
}

/// A list of distinct paths all present in a well-formed tree is no longer
/// than the tree itself.
proof fn lemma_queue_bound(q: Seq<PathModel>, t: Seq<FsEntryModel>)
    requires
        crate::fs_model::tree_wf(t),
        forall|k: int, l: int| 0 <= k < l < q.len() ==> q[k] != q[l],
        forall|k: int| 0 <= k < q.len() ==> tree_has(t, #[trigger] q[k]),
    ensures
        q.len() <= t.len(),
{
    broadcast use vstd::seq_lib::seq_to_set_is_finite;

    let tp = Seq::new(t.len(), |i: int| t[i].path);
    assert(q.no_duplicates());
    assert(tp.no_duplicates());
    q.unique_seq_to_set();
    tp.unique_seq_to_set();
    assert forall|x: PathModel| q.to_set().contains(x) implies tp.to_set().contains(x) by {
        assert(q.contains(x));
        let k = choose|k: int| 0 <= k < q.len() && q[k] == x;
        assert(tree_has(t, q[k]));
        let i = choose|i: int| 0 <= i < t.len() && t[i].path == x;
        assert(tp[i] == x);
        assert(tp.contains(x));
    }
    vstd::set_lib::lemma_len_subset(q.to_set(), tp.to_set());
}

/// Appends every path of `kids` to the work queue.
fn append_paths(queue: &mut Vec<NormPath>, kids: &Vec<NormPath>)
    ensures
        views_of(final(queue)@) == views_of(old(queue)@) + views_of(kids@),
{
    let mut i: usize = 0;
    while i < kids.len()
        invariant
            0 <= i <= kids@.len(),
            views_of(queue@) == views_of(old(queue)@) + views_of(kids@).take(i as int),
        decreases kids@.len() - i,
    {
        let ghost prev = views_of(queue@);
        queue.push(kids[i].clone());
        proof {
            assert(views_of(queue@) =~= prev.push(kids@[i as int]@));
            assert(prev.push(kids@[i as int]@) =~= views_of(old(queue)@) + views_of(
                kids@,
            ).take(i + 1));
        }
        i = i + 1;
    }
    proof {
        assert(views_of(kids@).take(kids@.len() as int) =~= views_of(kids@));
    }
}

/// Breadth-first traversal of the repository tree, pruned by the mappings:
/// a work queue is seeded with the children of the repository root; a
/// popped path that exactly matches a mapping is emitted as mapped and not
/// descended into, one that no mapping equals or lies below is emitted as
/// unmapped, and any other directory has its children enqueued. Symlinks
/// are never followed into. The result holds exactly the visitable mapped
/// and unmapped paths, each once.
fn walk_repository(repo_tree: &FsTree, config: &AppConfig) -> (r: Vec<DotfilesEntry>)
    requires
        repo_tree.wf(),
        mappings_validated(config@.mappings),
    ensures
        forall|i: int|
            0 <= i < r@.len() ==> entry_expected(
                repo_tree@,
                config@.mappings,
                (#[trigger] r@[i]).0@,
                r@[i].1,
            ) && r@[i].1 != DotfilesEntryState::Invalid,
        forall|p: PathModel, st: DotfilesEntryState|
            #[trigger] entry_expected(repo_tree@, config@.mappings, p, st) && st
                != DotfilesEntryState::Invalid ==> exists|i: int|
                0 <= i < r@.len() && (#[trigger] r@[i]).0@ == p && r@[i].1 == st,
        forall|i: int, j: int| 0 <= i < j < r@.len() ==> (#[trigger] r@[i]).0@ != (#[trigger] r@[j]).0@,
{
    let ghost t = repo_tree@;
    let ghost msv = config@.mappings;
    let root = NormPath::empty();
    let mut queue: Vec<NormPath> = repo_tree.children_of(&root);
    let mut out: Vec<DotfilesEntry> = Vec::new();
    let mut head: usize = 0;
    proof {
        lemma_queue_bound(views_of(queue@), t);
        // Seeds are pairwise non-prefix: distinct paths of equal length.
        assert forall|k: int, l: int|
            0 <= k < queue@.len() && 0 <= l < queue@.len() && k != l implies !is_prefix(
            views_of(queue@)[k],
            views_of(queue@)[l],
        ) by {
            if is_prefix(views_of(queue@)[k], views_of(queue@)[l]) {
                crate::paths::lemma_prefix_same_len_eq(
                    views_of(queue@)[k],
                    views_of(queue@)[l],
                );
            }
        }
        // Seeds are sound: a one-segment tree path has no proper ancestor.
        assert forall|k: int| 0 <= k < queue@.len() implies visitable(
            t,
            msv,
            #[trigger] views_of(queue@)[k],
        ) by {
            assert(is_child(root@, views_of(queue@)[k]));
        }
        // Every expected path has its one-segment ancestor among the seeds.
        assert forall|p: PathModel, st: DotfilesEntryState|
            #[trigger] entry_expected(t, msv, p, st) && st != DotfilesEntryState::Invalid implies (
        exists|k: int| 0 <= k < queue@.len() && is_prefix(views_of(queue@)[k], p)) by {
            assert(visitable(t, msv, p));
            let c = prefix_model(p, 1);
            assert(c.segments =~= p.segments.take(1));
            if p.segments.len() == 1 {
                assert(c =~= p);
                assert(tree_has(t, c));
            } else {
                assert(descend_node(t, msv, prefix_model(p, 1)));
                assert(tree_has(t, c));
            }
            let i = choose|i: int| 0 <= i < t.len() && t[i].path == c;
            assert(c.segments.len() == 1);
            assert(root@.segments.is_prefix_of(c.segments)) by {
                assert(root@.segments =~= c.segments.subrange(0, 0));
            }
            assert(is_child(root@, t[i].path));
            let j = choose|j: int| 0 <= j < queue@.len() && queue@[j]@ == t[i].path;
            assert(views_of(queue@)[j] == c);
            assert(is_prefix(c, p)) by {
                assert(c.segments =~= p.segments.subrange(0, c.segments.len() as int));
            }
        }
    }
    while head < queue.len()
        invariant
            repo_tree.wf(),
            t == repo_tree@,
            msv == config@.mappings,
            mappings_validated(msv),
            0 <= head <= queue@.len(),
            queue@.len() <= t.len(),
            forall|k: int|
                0 <= k < queue@.len() ==> tree_has(t, #[trigger] views_of(queue@)[k])
                    && visitable(t, msv, views_of(queue@)[k]),
            forall|k: int, l: int|
                0 <= k < l < queue@.len() ==> views_of(queue@)[k] != views_of(queue@)[l],
            forall|k: int, l: int|
                head <= k < queue@.len() && head <= l < queue@.len() && k != l ==> !is_prefix(
                    views_of(queue@)[k],
                    views_of(queue@)[l],
                ),
            forall|k: int, l: int|
                head <= k < queue@.len() && 0 <= l < head ==> !is_prefix(
                    views_of(queue@)[k],
                    views_of(queue@)[l],
                ),
            forall|i: int|
                0 <= i < out@.len() ==> entry_expected(t, msv, (#[trigger] out@[i]).0@, out@[i].1)
                    && out@[i].1 != DotfilesEntryState::Invalid,
            forall|i: int|
                0 <= i < out@.len() ==> exists|l: int|
                    0 <= l < head && views_of(queue@)[l] == (#[trigger] out@[i]).0@,
            forall|i: int, j: int| 0 <= i < j < out@.len() ==> out@[i].0@ != out@[j].0@,
            forall|p: PathModel, st: DotfilesEntryState|
                #[trigger] entry_expected(t, msv, p, st) && st != DotfilesEntryState::Invalid ==> (
                exists|i: int| 0 <= i < out@.len() && out@[i].0@ == p && out@[i].1 == st) || (
                exists|k: int| head <= k < queue@.len() && is_prefix(views_of(queue@)[k], p)),
        decreases t.len() - head,
    {
        let ghost old_qv = views_of(queue@);
        let ghost h = head as int;
        let p = queue[head].clone();
        proof {
            assert(p@ == old_qv[h]);
        }
        head = head + 1;
        let is_mapped = contains_path_in(&config.mappings, &p);
        let extends = if is_mapped {
            true
        } else {
            any_mapping_extends(&config.mappings, &p)
        };
        if is_mapped || !extends {
            let st = if is_mapped {
                DotfilesEntryState::Mapped
            } else {
                DotfilesEntryState::Unmapped
            };
            let ghost old_out = out@;
            out.push((p.clone(), st));
            proof {
                assert(out@[old_out.len() as int].0@ == p@);
                assert(entry_expected(t, msv, p@, st));
                // Completeness: anything that was covered by the popped
                // slot is now either the pushed entry itself, or cannot be
                // expected at all.
                assert forall|q: PathModel, qst: DotfilesEntryState|
                    #[trigger] entry_expected(t, msv, q, qst) && qst
                        != DotfilesEntryState::Invalid implies (exists|i: int|
                    0 <= i < out@.len() && out@[i].0@ == q && out@[i].1 == qst) || (exists|k: int|
                    head <= k < queue@.len() && is_prefix(views_of(queue@)[k], q)) by {
                    if exists|i: int| 0 <= i < old_out.len() && old_out[i].0@ == q && old_out[i].1
                        == qst {
                        let i = choose|i: int|
                            0 <= i < old_out.len() && old_out[i].0@ == q && old_out[i].1 == qst;
                        assert(out@[i].0@ == q && out@[i].1 == qst);
                    } else {
                        let k = choose|k: int|
                            h <= k < old_qv.len() && is_prefix(old_qv[k], q);
                        if k == h {
                            if old_qv[h].segments.len() == q.segments.len() {
                                crate::paths::lemma_prefix_same_len_eq(old_qv[h], q);
                                // q is the popped path; its only possible
                                // state is the one just pushed.
                                if is_mapped {
                                    assert(qst != DotfilesEntryState::Unmapped) by {
                                        if qst == DotfilesEntryState::Unmapped {
                                            assert(msv.contains(q));
                                            let w = choose|w: int|
                                                0 <= w < msv.len() && msv[w] == q;
                                            crate::paths::lemma_prefix_refl(q);
                                            assert(is_prefix(q, msv[w]));
                                        }
                                    }
                                    assert(qst == DotfilesEntryState::Mapped);
                                } else {
                                    assert(qst == DotfilesEntryState::Unmapped);
                                }
                                assert(out@[old_out.len() as int].0@ == q);
                            } else {
                                // q strictly extends the popped path, so
                                // the traversal would have to descend
                                // through it — impossible in this case.
                                assert(visitable(t, msv, q));
                                let pl = old_qv[h].segments.len() as int;
                                assert(1 <= pl < q.segments.len());
                                assert(prefix_model(q, pl) == old_qv[h]) by {
                                    assert(prefix_model(q, pl).segments =~= old_qv[h].segments);
                                }
                                assert(descend_node(t, msv, old_qv[h]));
                                if is_mapped {
                                    assert(!msv.contains(old_qv[h]));
                                } else {
                                    assert(on_path_to_mapping(msv, old_qv[h]));
                                }
                                assert(false);
                            }
                        } else {
                            assert(head <= k < queue@.len());
                            assert(is_prefix(views_of(queue@)[k], q));
                        }
                    }
                }
            }
        } else {
            let kind = repo_tree.lookup(&p);
            let is_dir = match kind {
                Some(FsKind::Dir) => true,
                _ => false,
            };
            proof {
                assert(tree_has(t, p@));
                assert(is_dir == (tree_kind(t, p@) is Dir));
            }
            if is_dir {
                let kids = repo_tree.children_of(&p);
                proof {
                    assert(descend_node(t, msv, p@));
                }
                append_paths(&mut queue, &kids);
                proof {
                    let qv = views_of(queue@);
                    let kv = views_of(kids@);
                    let n = old_qv.len() as int;
                    assert(qv.len() == n + kv.len());
                    assert(forall|k: int| 0 <= k < n ==> qv[k] == old_qv[k]);
                    assert(forall|k: int| 0 <= k < kv.len() ==> qv[n + k] == kv[k]);
                    // Each child is a tree path directly below p.
                    assert(forall|k: int|
                        0 <= k < kv.len() ==> tree_has(t, #[trigger] kv[k]) && is_child(
                            p@,
                            kv[k],
                        ));
                    // Children are visitable: their proper ancestors are
                    // p's proper ancestors, and p itself.
                    assert forall|k: int| 0 <= k < kv.len() implies visitable(
                        t,
                        msv,
                        #[trigger] kv[k],
                    ) by {
                        let c = kv[k];
                        assert(c.segments.len() == p@.segments.len() + 1);
                        assert forall|w: int| 1 <= w < c.segments.len() implies descend_node(
                            t,
                            msv,
                            prefix_model(c, w),
                        ) by {
                            if w < p@.segments.len() {
                                assert(prefix_model(c, w) == prefix_model(p@, w)) by {
                                    assert(prefix_model(c, w).segments =~= prefix_model(
                                        p@,
                                        w,
                                    ).segments) by {
                                        assert(p@.segments =~= c.segments.subrange(
                                            0,
                                            p@.segments.len() as int,
                                        ));
                                    }
                                }
                                assert(visitable(t, msv, p@));
                            } else {
                                assert(w == p@.segments.len());
                                assert(prefix_model(c, w) == p@) by {
                                    assert(prefix_model(c, w).segments =~= p@.segments) by {
                                        assert(p@.segments =~= c.segments.subrange(
                                            0,
                                            p@.segments.len() as int,
                                        ));
                                    }
                                }
                            }
                        }
                    }
                    // No child repeats an existing queue slot.
                    assert forall|k: int, l: int|
                        0 <= k < kv.len() && 0 <= l < n implies kv[k] != old_qv[l] by {
                        if kv[k] == old_qv[l] {
                            assert(is_prefix(p@, old_qv[l]));
                            if l < h {
                                assert(!is_prefix(old_qv[h], old_qv[l]));
                            } else if l == h {
                                assert(old_qv[l].segments.len() == p@.segments.len());
                            } else {
                                assert(!is_prefix(old_qv[h], old_qv[l]));
                            }
                        }
                    }
                    // Pending slots and children are pairwise non-prefix.
                    assert forall|k: int, l: int|
                        head <= k < qv.len() && head <= l < qv.len() && k != l implies !is_prefix(
                        qv[k],
                        qv[l],
                    ) by {
                        if k < n && l < n {
                            assert(!is_prefix(old_qv[k], old_qv[l]));
                        } else if k < n && l >= n {
                            // old pending vs child
                            if is_prefix(qv[k], qv[l]) {
                                let c = kv[l - n];
                                if qv[k].segments.len() <= p@.segments.len() {
                                    crate::paths::lemma_prefix_narrow(qv[k], p@, c);
                                    assert(k != h);
                                    assert(!is_prefix(old_qv[k], old_qv[h]));
                                } else {
                                    crate::paths::lemma_prefix_same_len_eq(qv[k], c);
                                }
                            }
                        } else if k >= n && l < n {
                            // child vs old pending
                            if is_prefix(qv[k], qv[l]) {
                                crate::paths::lemma_prefix_transitive(p@, qv[k], qv[l]);
                                assert(l != h);
                                assert(!is_prefix(old_qv[h], old_qv[l]));
                            }
                        } else {
                            // two children: same length, distinct
                            if is_prefix(qv[k], qv[l]) {
                                crate::paths::lemma_prefix_same_len_eq(qv[k], qv[l]);
                            }
                        }
                    }
                    // No pending slot is a prefix of a popped one.
                    assert forall|k: int, l: int|
                        head <= k < qv.len() && 0 <= l < head implies !is_prefix(
                        qv[k],
                        qv[l],
                    ) by {
                        if k < n {
                            assert(!is_prefix(old_qv[k], old_qv[l]));
                        } else {
                            if is_prefix(qv[k], qv[l]) {
                                crate::paths::lemma_prefix_transitive(p@, qv[k], qv[l]);
                                if l < h {
                                    assert(!is_prefix(old_qv[h], old_qv[l]));
                                } else {
                                    assert(l == h);
                                    crate::paths::lemma_prefix_refl(p@);
                                    assert(qv[k].segments.len() > p@.segments.len());
                                    assert(is_prefix(qv[k], p@));
                                }
                            }
                        }
                    }
                    lemma_queue_bound(qv, t);
                    // Completeness: anything covered by the popped slot is
                    // now covered by one of its children.
                    assert forall|q: PathModel, qst: DotfilesEntryState|
                        #[trigger] entry_expected(t, msv, q, qst) && qst
                            != DotfilesEntryState::Invalid implies (exists|i: int|
                        0 <= i < out@.len() && out@[i].0@ == q && out@[i].1 == qst) || (exists|
                    k: int|
                        head <= k < qv.len() && is_prefix(qv[k], q)) by {
                        if !(exists|i: int|
                            0 <= i < out@.len() && out@[i].0@ == q && out@[i].1 == qst) {
                            let k = choose|k: int|
                                h <= k < old_qv.len() && is_prefix(old_qv[k], q);
                            if k == h {
                                // q extends p; it cannot equal p, because p
                                // is neither mapped nor free of mappings.
                                assert(visitable(t, msv, q));
                                if q.segments.len() == p@.segments.len() {
                                    crate::paths::lemma_prefix_same_len_eq(p@, q);
                                    if qst == DotfilesEntryState::Mapped {
                                        assert(msv.contains(q));
                                    } else {
                                        assert(!on_path_to_mapping(msv, q));
                                    }
                                    assert(false);
                                } else {
                                    let pl = p@.segments.len() as int;
                                    let c0 = prefix_model(q, pl + 1);
                                    assert(c0.segments =~= q.segments.take(pl + 1));
                                    if q.segments.len() == pl + 1 {
                                        assert(c0 =~= q);
                                        assert(tree_has(t, c0));
                                    } else {
                                        assert(descend_node(t, msv, prefix_model(q, pl + 1)));
                                        assert(tree_has(t, c0));
                                    }
                                    assert(is_prefix(p@, c0)) by {
                                        assert(p@.segments =~= c0.segments.subrange(0, pl)) by {
                                            assert(p@.segments =~= q.segments.subrange(0, pl));
                                        }
                                    }
                                    assert(is_child(p@, c0));
                                    let i = choose|i: int|
                                        0 <= i < t.len() && t[i].path == c0;
                                    assert(is_child(p@, t[i].path));
                                    let j = choose|j: int|
                                        0 <= j < kids@.len() && kids@[j]@ == t[i].path;
                                    assert(qv[n + j] == c0);
                                    assert(is_prefix(c0, q)) by {
                                        assert(c0.segments =~= q.segments.subrange(
                                            0,
                                            c0.segments.len() as int,
                                        ));
                                    }
                                    assert(head <= n + j < qv.len());
                                }
                            } else {
                                assert(is_prefix(qv[k], q));
                            }
                        }
                    }
                }
            } else {
                proof {
                    // Nothing below p can be expected: descending through p
                    // would need p to be a directory.
                    assert forall|q: PathModel, qst: DotfilesEntryState|
                        #[trigger] entry_expected(t, msv, q, qst) && qst
                            != DotfilesEntryState::Invalid implies (exists|i: int|
                        0 <= i < out@.len() && out@[i].0@ == q && out@[i].1 == qst) || (exists|
                    k: int|
                        head <= k < queue@.len() && is_prefix(views_of(queue@)[k], q)) by {
                        if !(exists|i: int|
                            0 <= i < out@.len() && out@[i].0@ == q && out@[i].1 == qst) {
                            let k = choose|k: int|
                                h <= k < old_qv.len() && is_prefix(old_qv[k], q);
                            if k == h {
                                assert(visitable(t, msv, q));
                                if q.segments.len() == p@.segments.len() {
                                    crate::paths::lemma_prefix_same_len_eq(p@, q);
                                    if qst == DotfilesEntryState::Mapped {
                                        assert(msv.contains(q));
                                    } else {
                                        assert(!on_path_to_mapping(msv, q));
                                    }
                                    assert(false);
                                } else {
                                    let pl = p@.segments.len() as int;
                                    assert(prefix_model(q, pl) == p@) by {
                                        assert(prefix_model(q, pl).segments =~= p@.segments) by {
                                            assert(p@.segments =~= q.segments.subrange(0, pl));
                                        }
                                    }
                                    assert(descend_node(t, msv, p@));
                                    assert(false);
                                }
                            } else {
                                assert(is_prefix(views_of(queue@)[k], q));
                            }
                        }
                    }
                }
            }
        }
    }
    out
}

/// Whether some produced entry already has the path `p`.
fn out_contains_path(out: &Vec<DotfilesEntry>, p: &NormPath) -> (r: bool)
    ensures
        r == exists|i: int| 0 <= i < out@.len() && (#[trigger] out@[i]).0@ == p@,
{
    let mut i: usize = 0;
    while i < out.len()
        invariant
            0 <= i <= out@.len(),
            forall|k: int| 0 <= k < i ==> (#[trigger] out@[k]).0@ != p@,
        decreases out@.len() - i,
    {
        if out[i].0.eq(p) {
            proof {
                assert(out@[i as int].0@ == p@);
            }
            return true;
        }
        i = i + 1;
    }
    false
}

/// Sorts entries by path (selection sort): the result holds the same
/// entries, pairwise ordered by path.
fn sort_entries(input: Vec<DotfilesEntry>) -> (r: Vec<DotfilesEntry>)
    ensures
        entry_views(r@).to_multiset() == entry_views(input@).to_multiset(),
        forall|j: int, k: int| 0 <= j < k < r@.len() ==> path_le((#[trigger] r@[j]).0@, (#[trigger] r@[k]).0@),
{
    let mut rest = input;
    let ghost iv = entry_views(rest@);
    let mut out: Vec<DotfilesEntry> = Vec::new();
    while rest.len() > 0
        invariant
            entry_views(out@).to_multiset().add(entry_views(rest@).to_multiset()) == iv.to_multiset(),
            forall|j: int, k: int|
                0 <= j < k < out@.len() ==> path_le((#[trigger] out@[j]).0@, (#[trigger] out@[k]).0@),
            forall|j: int, k: int|
                0 <= j < out@.len() && 0 <= k < rest@.len() ==> path_le(
                    (#[trigger] out@[j]).0@,
                    (#[trigger] rest@[k]).0@,
                ),
        decreases rest@.len(),
    {
        let mut m: usize = 0;
        let mut j: usize = 1;
        while j < rest.len()
            invariant
                0 <= m < j <= rest@.len(),
                forall|k: int| 0 <= k < j ==> path_le(rest@[m as int].0@, (#[trigger] rest@[k]).0@),
            decreases rest@.len() - j,
        {
            if rest[j].0.le(&rest[m].0) {
                proof {
                    assert forall|k: int| 0 <= k < j + 1 implies path_le(
                        rest@[j as int].0@,
                        (#[trigger] rest@[k]).0@,
                    ) by {
                        if k < j {
                            lemma_path_le_transitive(
                                rest@[j as int].0@,
                                rest@[m as int].0@,
                                rest@[k].0@,
                            );
                        }
                    }
                }
                m = j;
            } else {
                proof {
                    lemma_path_le_total(rest@[m as int].0@, rest@[j as int].0@);
                }
            }
            j = j + 1;
        }
        let ghost old_rest = rest@;
        let ghost old_out = out@;
        let x = rest.remove(m);
        proof {
            assert(entry_views(old_rest)[m as int] == (x.0@, x.1));
            assert(entry_views(old_rest).contains((x.0@, x.1)));
            assert(entry_views(old_rest).to_multiset().count((x.0@, x.1)) > 0);
            assert(entry_views(rest@) =~= entry_views(old_rest).remove(m as int));
            assert(entry_views(old_rest).remove(m as int).to_multiset() == entry_views(
                old_rest,
            ).to_multiset().remove((x.0@, x.1)));
        }
        let ghost xv = (x.0@, x.1);
        out.push(x);
        proof {
            assert(entry_views(out@) =~= entry_views(old_out).push(xv));
            assert(entry_views(old_out).push(xv).to_multiset() =~= entry_views(
                old_out,
            ).to_multiset().insert(xv));
            assert(entry_views(out@).to_multiset() == entry_views(old_out).to_multiset().insert(
                xv,
            ));
            assert(entry_views(out@).to_multiset().add(entry_views(rest@).to_multiset())
                =~= iv.to_multiset());
            assert forall|k: int| 0 <= k < rest@.len() implies path_le(
                xv.0,
                (#[trigger] rest@[k]).0@,
            ) by {
                if k < m {
                    assert(rest@[k].0@ == old_rest[k].0@);
                } else {
                    assert(rest@[k].0@ == old_rest[k + 1].0@);
                }
            }
        }
    }
    proof {
        assert(entry_views(rest@) =~= Seq::<(PathModel, DotfilesEntryState)>::empty());
        assert(entry_views(rest@).to_multiset() =~= Multiset::<(
            PathModel,
            DotfilesEntryState,
        )>::empty());
        assert(entry_views(out@).to_multiset() =~= iv.to_multiset());
    }
    out
}

/// Returns the repository entries a status report is made of: the
/// breadth-first pruned traversal of the repository, one synthesized
/// `Invalid` entry for every configured mapping the traversal never found,
/// and the whole list strictly sorted by path. The result is exactly the
/// set of expected entries, each path occurring once, in strictly
/// ascending path order — in particular the output is fully determined by
/// the repository tree and the mappings.
pub fn get_dotfiles_entries(repo_tree: &FsTree, config: &AppConfig) -> (r: Vec<DotfilesEntry>)
    requires
        repo_tree.wf(),
        mappings_validated(config@.mappings),
    ensures
        forall|i: int|
            0 <= i < r@.len() ==> entry_expected(
                repo_tree@,
                config@.mappings,
                (#[trigger] r@[i]).0@,
                r@[i].1,
            ),
        forall|p: PathModel, st: DotfilesEntryState|
            #[trigger] entry_expected(repo_tree@, config@.mappings, p, st) ==> exists|i: int|
                0 <= i < r@.len() && (#[trigger] r@[i]).0@ == p && r@[i].1 == st,
        forall|i: int, j: int| 0 <= i < j < r@.len() ==> path_lt((#[trigger] r@[i]).0@, (#[trigger] r@[j]).0@),
        forall|i: int| 0 <= i < r@.len() ==> path_wf((#[trigger] r@[i]).0@) && !r@[i].0@.absolute,
{
    let ghost t = repo_tree@;
    let ghost msv = config@.mappings;
    let mut entries = walk_repository(repo_tree, config);
    let mut i: usize = 0;
    while i < config.mappings.len()
        invariant
            repo_tree.wf(),
            t == repo_tree@,
            msv == config@.mappings,
            mappings_validated(msv),
            0 <= i <= msv.len(),
            msv.len() == config.mappings@.len(),
            forall|w: int|
                0 <= w < entries@.len() ==> entry_expected(
                    t,
                    msv,
                    (#[trigger] entries@[w]).0@,
                    entries@[w].1,
                ),
            forall|w: int, v: int| 0 <= w < v < entries@.len() ==> entries@[w].0@ != entries@[v].0@,
            forall|p: PathModel, st: DotfilesEntryState|
                #[trigger] entry_expected(t, msv, p, st) && st != DotfilesEntryState::Invalid
                    ==> exists|w: int|
                    0 <= w < entries@.len() && (#[trigger] entries@[w]).0@ == p && entries@[w].1
                        == st,
            forall|w: int|
                0 <= w < i && emit_invalid(t, msv, #[trigger] msv[w]) ==> exists|v: int|
                    0 <= v < entries@.len() && (#[trigger] entries@[v]).0@ == msv[w]
                        && entries@[v].1 == DotfilesEntryState::Invalid,
        decreases msv.len() - i,
    {
        let m = &config.mappings[i];
        proof {
            assert(msv[i as int] == m@);
            assert(msv.contains(m@));
        }
        if !out_contains_path(&entries, m) {
            let ghost old_entries = entries@;
            proof {
                // The mapping was never discovered as mapped, otherwise a
                // mapped entry with its path would be present.
                if emit_mapped(t, msv, m@) {
                    assert(entry_expected(t, msv, m@, DotfilesEntryState::Mapped));
                }
                assert(emit_invalid(t, msv, m@));
            }
            entries.push((m.clone(), DotfilesEntryState::Invalid));
            proof {
                assert(entries@[old_entries.len() as int].0@ == m@);
                assert(forall|w: int|
                    0 <= w < old_entries.len() ==> entries@[w] == old_entries[w]);
            }
        } else {
            proof {
                // Whatever entry already carries this path: if the mapping
                // is invalid, that entry can only be the invalid one.
                if emit_invalid(t, msv, m@) {
                    let v = choose|v: int|
                        0 <= v < entries@.len() && entries@[v].0@ == m@;
                    if entries@[v].1 == DotfilesEntryState::Mapped {
                        assert(emit_mapped(t, msv, m@));
                        assert(false);
                    }
                    if entries@[v].1 == DotfilesEntryState::Unmapped {
                        assert(emit_unmapped(t, msv, m@));
                        crate::paths::lemma_prefix_refl(m@);
                        let w = choose|w: int| 0 <= w < msv.len() && msv[w] == m@;
                        assert(is_prefix(m@, msv[w]));
                        assert(false);
                    }
                    assert(entries@[v].1 == DotfilesEntryState::Invalid);
                }
            }
        }
        i = i + 1;
    }
    let ghost pre = entries@;
    proof {
        // Every expected entry, of any state, is now present.
        assert forall|p: PathModel, st: DotfilesEntryState|
            #[trigger] entry_expected(t, msv, p, st) implies exists|w: int|
            0 <= w < pre.len() && (#[trigger] pre[w]).0@ == p && pre[w].1 == st by {
            if st == DotfilesEntryState::Invalid {
                assert(msv.contains(p));
                let w = choose|w: int| 0 <= w < msv.len() && msv[w] == p;
                assert(emit_invalid(t, msv, msv[w]));
            }
        }
    }
    let sorted = sort_entries(entries);
    proof {
        let sv = entry_views(sorted@);
        let pv = entry_views(pre);
        // Soundness and completeness carry through the rearrangement.
        assert forall|w: int| 0 <= w < sorted@.len() implies entry_expected(
            t,
            msv,
            (#[trigger] sorted@[w]).0@,
            sorted@[w].1,
        ) && path_wf(sorted@[w].0@) && !sorted@[w].0@.absolute by {
            assert(sv[w] == (sorted@[w].0@, sorted@[w].1));
            assert(sv.contains(sv[w]));
            assert(sv.to_multiset().count(sv[w]) > 0);
            assert(pv.to_multiset().count(sv[w]) > 0);
            assert(pv.contains(sv[w]));
            let u = choose|u: int| 0 <= u < pv.len() && pv[u] == sv[w];
            assert(entry_expected(t, msv, pre[u].0@, pre[u].1));
            // Well-formedness: tree entries and mappings are well-formed.
            let p = sorted@[w].0@;
            if sorted@[w].1 == DotfilesEntryState::Invalid {
                let x = choose|x: int| 0 <= x < msv.len() && msv[x] == p;
                assert(path_wf(msv[x]));
            } else {
                assert(tree_has(t, p));
                let x = choose|x: int| 0 <= x < t.len() && t[x].path == p;
                assert(path_wf(t[x].path));
            }
        }
        assert forall|p: PathModel, st: DotfilesEntryState|
            #[trigger] entry_expected(t, msv, p, st) implies exists|w: int|
            0 <= w < sorted@.len() && (#[trigger] sorted@[w]).0@ == p && sorted@[w].1 == st by {
            let u = choose|u: int| 0 <= u < pre.len() && pre[u].0@ == p && pre[u].1 == st;
            assert(pv[u] == (p, st));
            assert(pv.contains(pv[u]));
            assert(pv.to_multiset().count(pv[u]) > 0);
            assert(sv.to_multiset().count(pv[u]) > 0);
            assert(sv.contains(pv[u]));
            let w = choose|w: int| 0 <= w < sv.len() && sv[w] == pv[u];
            assert(sorted@[w].0@ == p && sorted@[w].1 == st);
        }
        // Distinct paths plus pairwise order give strict order.
        assert forall|w: int, v: int| 0 <= w < v < sorted@.len() implies path_lt(
            (#[trigger] sorted@[w]).0@,
            (#[trigger] sorted@[v]).0@,
        ) by {
            if sv[w] == sv[v] {
                lemma_pair_in_rearrangement(sv, pv, w, v);
                let (a, b) = choose|a: int, b: int|
                    0 <= a < pv.len() && 0 <= b < pv.len() && a != b && pv[a] == sv[w] && pv[b]
                        == sv[v];
                assert(pre[a].0@ == pre[b].0@);
                assert(false);
            } else {
                if sorted@[w].0@ == sorted@[v].0@ {
                    // Same path, different state: both entries occur in the
                    // unsorted list, which has distinct paths.
                    assert(sv.contains(sv[w]));
                    assert(sv.to_multiset().count(sv[w]) > 0);
                    assert(pv.to_multiset().count(sv[w]) > 0);
                    assert(pv.contains(sv[w]));
                    assert(sv.contains(sv[v]));
                    assert(sv.to_multiset().count(sv[v]) > 0);
                    assert(pv.to_multiset().count(sv[v]) > 0);
                    assert(pv.contains(sv[v]));
                    let a = choose|a: int| 0 <= a < pv.len() && pv[a] == sv[w];
                    let b = choose|b: int| 0 <= b < pv.len() && pv[b] == sv[v];
                    assert(a != b);
                    assert(pre[a].0@ == pre[b].0@);
                    assert(false);
                }
            }
        }
    }
    sorted
}

/// Soundness of one entry list: every entry is expected for the given tree
/// and mappings.
pub open spec fn entries_sound(
    t: Seq<FsEntryModel>,
    ms: Seq<PathModel>,
    r: Seq<(PathModel, DotfilesEntryState)>,
) -> bool {
    forall|i: int| 0 <= i < r.len() ==> entry_expected(t, ms, (#[trigger] r[i]).0, r[i].1)
}

/// Completeness of one entry list: every expected entry occurs in it.
pub open spec fn entries_complete(
    t: Seq<FsEntryModel>,
    ms: Seq<PathModel>,
    r: Seq<(PathModel, DotfilesEntryState)>,
) -> bool {
    forall|p: PathModel, st: DotfilesEntryState|
        #[trigger] entry_expected(t, ms, p, st) ==> exists|i: int|
            0 <= i < r.len() && r[i] == (p, st)
}

/// Strict path order over one entry list.
pub open spec fn entries_strictly_sorted(r: Seq<(PathModel, DotfilesEntryState)>) -> bool {
    forall|i: int, j: int| 0 <= i < j < r.len() ==> path_lt((#[trigger] r[i]).0, (#[trigger] r[j]).0)
}

/// The strict path order never relates a path to itself.
proof fn lemma_path_lt_irreflexive(a: PathModel)
    ensures
        !path_lt(a, a),
{
    crate::paths::lemma_segs_lt_irreflexive(a.segments);
}

/// Two strictly sorted entry lists with the same members are equal.
proof fn lemma_unique_sorted_eq(
    r1: Seq<(PathModel, DotfilesEntryState)>,
    r2: Seq<(PathModel, DotfilesEntryState)>,
)
    requires
        entries_strictly_sorted(r1),
        entries_strictly_sorted(r2),
        forall|x: (PathModel, DotfilesEntryState)| r1.contains(x) <==> r2.contains(x),
    ensures
        r1 == r2,
    decreases r1.len(),
{
    if r1.len() == 0 {
        if r2.len() > 0 {
            assert(r2.contains(r2[0]));
        }
        assert(r1 =~= r2);
    } else if r2.len() == 0 {
        assert(r1.contains(r1[0]));
        assert(false);
    } else {
        // The heads agree: each head occurs in the other list, and a
        // strictly later occurrence would put the two heads in a cycle of
        // the strict order.
        assert(r1.contains(r1[0]));
        let j = choose|j: int| 0 <= j < r2.len() && r2[j] == r1[0];
        assert(r2.contains(r2[0]));
        let k = choose|k: int| 0 <= k < r1.len() && r1[k] == r2[0];
        if j > 0 {
            assert(path_lt(r2[0].0, r2[j].0));
            if k > 0 {
                assert(path_lt(r1[0].0, r1[k].0));
                lemma_path_le_antisymmetric(r1[0].0, r2[0].0);
                lemma_path_lt_irreflexive(r1[0].0);
            }
        }
        assert(r1[0] == r2[0]);
        let t1 = r1.drop_first();
        let t2 = r2.drop_first();
        assert forall|x: (PathModel, DotfilesEntryState)| t1.contains(x) implies t2.contains(
            x,
        ) by {
            let i = choose|i: int| 0 <= i < t1.len() && t1[i] == x;
            assert(r1[i + 1] == x);
            assert(r1.contains(x));
            let w = choose|w: int| 0 <= w < r2.len() && r2[w] == x;
            if w == 0 {
                assert(path_lt(r1[0].0, r1[i + 1].0));
                lemma_path_lt_irreflexive(r1[0].0);
            }
            assert(t2[w - 1] == x);
        }
        assert forall|x: (PathModel, DotfilesEntryState)| t2.contains(x) implies t1.contains(
            x,
        ) by {
            let i = choose|i: int| 0 <= i < t2.len() && t2[i] == x;
            assert(r2[i + 1] == x);
            assert(r2.contains(x));
            let w = choose|w: int| 0 <= w < r1.len() && r1[w] == x;
            if w == 0 {
                assert(path_lt(r2[0].0, r2[i + 1].0));
                lemma_path_lt_irreflexive(r2[0].0);
            }
            assert(t1[w - 1] == x);
        }
        lemma_unique_sorted_eq(t1, t2);
        assert forall|i: int| 0 <= i < r1.len() implies r1[i] == r2[i] by {
            if i > 0 {
                assert(r1[i] == t1[i - 1]);
                assert(r2[i] == t2[i - 1]);
            }
        }
        assert(r1 =~= r2);
    }
}

/// Tree Walker determinism: the traversal contract pins its output down
/// completely, so any two entry lists that are sound, complete and
/// strictly sorted for one repository tree and one mapping set are equal —
/// running the walker twice against an unchanged filesystem and mapping
/// set yields identical, identically-ordered output.
pub proof fn lemma_walker_deterministic(
    t: Seq<FsEntryModel>,
    ms: Seq<PathModel>,
    r1: Seq<(PathModel, DotfilesEntryState)>,
    r2: Seq<(PathModel, DotfilesEntryState)>,
)
    requires
        entries_sound(t, ms, r1),
        entries_complete(t, ms, r1),
        entries_strictly_sorted(r1),
        entries_sound(t, ms, r2),
        entries_complete(t, ms, r2),
        entries_strictly_sorted(r2),
    ensures
        r1 == r2,
{
    assert forall|x: (PathModel, DotfilesEntryState)| r1.contains(x) implies r2.contains(x) by {
        let i = choose|i: int| 0 <= i < r1.len() && r1[i] == x;
        assert(entry_expected(t, ms, x.0, x.1));
        let j = choose|j: int| 0 <= j < r2.len() && r2[j] == (x.0, x.1);
        assert(r2[j] == x);
    }
    assert forall|x: (PathModel, DotfilesEntryState)| r2.contains(x) implies r1.contains(x) by {
        let i = choose|i: int| 0 <= i < r2.len() && r2[i] == x;
        assert(entry_expected(t, ms, x.0, x.1));
        let j = choose|j: int| 0 <= j < r1.len() && r1[j] == (x.0, x.1);
        assert(r1[j] == x);
    }
    lemma_unique_sorted_eq(r1, r2);
}

/// Pruning correctness: given a mapping on a directory, no entry for any
/// strict descendant of that mapping is ever produced by a sound walker
/// run over a validated mapping set.
pub proof fn lemma_pruning(
    t: Seq<FsEntryModel>,
    ms: Seq<PathModel>,
    r: Seq<(PathModel, DotfilesEntryState)>,
    d: PathModel,
)
    requires
        entries_sound(t, ms, r),
        mappings_validated(ms),
        ms.contains(d),
        d.segments.len() >= 1,
    ensures
        forall|i: int|
            0 <= i < r.len() ==> !crate::paths::is_strict_prefix(d, (#[trigger] r[i]).0),
{
    assert forall|i: int|
        0 <= i < r.len() implies !crate::paths::is_strict_prefix(d, (#[trigger] r[i]).0) by {
        let p = r[i].0;
        if crate::paths::is_strict_prefix(d, p) {
            if r[i].1 == DotfilesEntryState::Invalid {
                // Both d and the entry's path would be mappings in a
                // prefix relation, which validation excludes.
                assert(ms.contains(p));
                let a = choose|a: int| 0 <= a < ms.len() && ms[a] == d;
                let b = choose|b: int| 0 <= b < ms.len() && ms[b] == p;
                assert(a != b);
                assert(is_prefix(ms[a], ms[b]));
                assert(false);
            } else {
                // A visitable strict descendant of d would require the
                // traversal to descend through d, which is mapped.
                assert(visitable(t, ms, p));
                let dl = d.segments.len() as int;
                assert(1 <= dl < p.segments.len());
                assert(prefix_model(p, dl) == d) by {
                    assert(prefix_model(p, dl).segments =~= d.segments) by {
                        assert(d.segments =~= p.segments.subrange(0, dl));
                    }
                }
                assert(descend_node(t, ms, d));
                assert(false);
            }
        }
    }
}

/// Invalid synthesis: a mapping pointing at a repository path that does
/// not exist yields exactly one entry, `(mapping, Invalid)`; its position
/// in the strictly sorted output is thereby the unique sorted one.
pub proof fn lemma_invalid_synthesis(
    t: Seq<FsEntryModel>,
    ms: Seq<PathModel>,
    r: Seq<(PathModel, DotfilesEntryState)>,
    m: PathModel,
)
    requires
        entries_sound(t, ms, r),
        entries_complete(t, ms, r),
        entries_strictly_sorted(r),
        ms.contains(m),
        !tree_has(t, m),
    ensures
        exists|i: int| 0 <= i < r.len() && r[i] == (m, DotfilesEntryState::Invalid),
        forall|i: int, j: int|
            0 <= i < r.len() && 0 <= j < r.len() && (#[trigger] r[i]).0 == m && (#[trigger] r[j]).0
                == m ==> i == j,
{
    assert(emit_invalid(t, ms, m));
    assert(entry_expected(t, ms, m, DotfilesEntryState::Invalid));
    let i = choose|i: int| 0 <= i < r.len() && r[i] == (m, DotfilesEntryState::Invalid);
    assert(0 <= i < r.len() && r[i] == (m, DotfilesEntryState::Invalid));
    assert forall|a: int, b: int|
        0 <= a < r.len() && 0 <= b < r.len() && (#[trigger] r[a]).0 == m && (#[trigger] r[b]).0
            == m implies a == b by {
        if a < b {
            assert(path_lt(r[a].0, r[b].0));
            lemma_path_lt_irreflexive(m);
        }
        if b < a {
            assert(path_lt(r[b].0, r[a].0));
            lemma_path_lt_irreflexive(m);
        }
    }
}

/// The resolved relationship between a repository entry and its counterpart
/// under the home root.
#[verifier::ext_equal]
pub ghost enum LinkStateModel {
    Invalid(PathModel),
    Linked,
    Unlinked,
    ConflictWrongTarget(PathModel),
    ConflictNoLink(PathModel),
    Unmapped,
}

/// Describes the status of one repository entry against the home directory.
#[derive(Debug, PartialEq, Eq)]
pub enum LinkState {
    /// The entry does not exist in the dotfiles repository; carries the
    /// expected repository location.
    Invalid(NormPath),
    /// A symlink was found, pointing at the correct repository target.
    Linked,
    /// The entry is currently not linked from the home directory.
    Unlinked,
    /// A symlink was found, but it points at another target; carries that
    /// target.
    ConflictWrongTarget(NormPath),
    /// Something was found at the home location, but it is not a symlink;
    /// carries the home location.
    ConflictNoLink(NormPath),
    /// The repository entry is not listed under the configured mappings.
    Unmapped,
}

impl View for LinkState {
    type V = LinkStateModel;

    open spec fn view(&self) -> LinkStateModel {
        match self {
            LinkState::Invalid(p) => LinkStateModel::Invalid(p@),
            LinkState::Linked => LinkStateModel::Linked,
            LinkState::Unlinked => LinkStateModel::Unlinked,
            LinkState::ConflictWrongTarget(p) => LinkStateModel::ConflictWrongTarget(p@),
            LinkState::ConflictNoLink(p) => LinkStateModel::ConflictNoLink(p@),
            LinkState::Unmapped => LinkStateModel::Unmapped,
        }
    }
}

/// The decision table of the classifier: invalid and unmapped entries
/// translate directly; a mapped entry is classified by what sits at its
/// home-directory counterpart — nothing means unlinked, a non-symlink means
/// a conflict, a symlink conflicts unless its literal target is exactly the
/// expected repository location.
pub open spec fn spec_entry_state(
    repo_root: PathModel,
    home: Seq<FsEntryModel>,
    home_root: PathModel,
    p: PathModel,
    st: DotfilesEntryState,
) -> LinkStateModel {
    let expected = path_join(repo_root, p);
    match st {
        DotfilesEntryState::Invalid => LinkStateModel::Invalid(expected),
        DotfilesEntryState::Unmapped => LinkStateModel::Unmapped,
        DotfilesEntryState::Mapped => if !tree_has(home, p) {
            LinkStateModel::Unlinked
        } else {
            match tree_kind(home, p) {
                FsKindModel::Symlink(target) => if target == expected {
                    LinkStateModel::Linked
                } else {
                    LinkStateModel::ConflictWrongTarget(target)
                },
                _ => LinkStateModel::ConflictNoLink(path_join(home_root, p)),
            }
        },
    }
}

/// Returns the link status of one repository entry, judged against the
/// observed home tree rooted at `target_dir`.
pub fn get_dotfiles_entry_state(
    global_args: &GlobalArgs,
    entry: &DotfilesEntry,
    target_dir: &NormPath,
    home_tree: &FsTree,
) -> (r: LinkState)
    requires
        home_tree.wf(),
    ensures
        r@ == spec_entry_state(
            global_args.dotfiles_root@,
            home_tree@,
            target_dir@,
            entry.0@,
            entry.1,
        ),
{
    match entry.1 {
        DotfilesEntryState::Invalid => LinkState::Invalid(global_args.dotfiles_root.join(&entry.0)),
        DotfilesEntryState::Unmapped => LinkState::Unmapped,
        DotfilesEntryState::Mapped => {
            match home_tree.lookup(&entry.0) {
                None => LinkState::Unlinked,
                Some(FsKind::Symlink(target)) => {
                    let expected = global_args.dotfiles_root.join(&entry.0);
                    if target.eq(&expected) {
                        LinkState::Linked
                    } else {
                        LinkState::ConflictWrongTarget(target)
                    }
                },
                Some(_) => LinkState::ConflictNoLink(target_dir.join(&entry.0)),
            }
        },
    }
}

} // verus!
