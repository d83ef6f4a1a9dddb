//! A mathematical model of the slice of the filesystem that one backup or
//! install transaction touches. A state maps each existing absolute path
//! (bytes, `/`-separated) to its node: a file with its content, or a
//! directory. The move operations a transaction performs are given exact
//! semantics over this model, and the crash-safety laws of the engine are
//! proved against them.

use vstd::prelude::*;

verus! {

/// What a path resolves to when an entry is examined.
#[derive(Clone, Copy, Debug, PartialEq, Eq, Structural)]
pub enum EntryKind {
    /// The path does not exist; the entry is skipped with a warning.
    Missing,
    /// A plain file.
    File,
    /// A directory subtree, always handled recursively.
    Dir,
}

/// A node of the modelled filesystem.
pub enum NodeV {
    FileNode { data: Seq<u8> },
    DirNode,
}

/// `q` lies in the subtree rooted at `root`: it is `root` itself or a
/// descendant path `root/...`.
pub open spec fn in_subtree(root: Seq<u8>, q: Seq<u8>) -> bool {
    q == root || (q.len() > root.len() && q.subrange(0, root.len() as int) == root && q[root.len() as int] == 47)
}

/// No path lies in both subtrees.
pub open spec fn disjoint_trees(a: Seq<u8>, b: Seq<u8>) -> bool {
    forall|q: Seq<u8>| !(in_subtree(a, q) && in_subtree(b, q))
}

/// The path under `src` whose image under a subtree copy onto `dst`
/// is `q`.
pub open spec fn unbased(src: Seq<u8>, dst: Seq<u8>, q: Seq<u8>) -> Seq<u8> {
    src + q.skip(dst.len() as int)
}

/// Copy the subtree at `src` over the subtree at `dst`, keeping whatever
/// else already lies under `dst` (a directory copy merges; within one
/// transaction the destination is cleared first wherever that matters).
pub open spec fn copy_subtree(fs: Map<Seq<u8>, NodeV>, src: Seq<u8>, dst: Seq<u8>) -> Map<
    Seq<u8>,
    NodeV,
> {
    Map::new(
        |q: Seq<u8>|
            fs.dom().contains(q) || (in_subtree(dst, q) && fs.dom().contains(unbased(src, dst, q))),
        |q: Seq<u8>|
            if in_subtree(dst, q) && fs.dom().contains(unbased(src, dst, q)) {
                fs[unbased(src, dst, q)]
            } else {
                fs[q]
            },
    )
}

/// Remove the whole subtree at `p`.
pub open spec fn remove_subtree(fs: Map<Seq<u8>, NodeV>, p: Seq<u8>) -> Map<Seq<u8>, NodeV> {
    Map::new(|q: Seq<u8>| fs.dom().contains(q) && !in_subtree(p, q), |q: Seq<u8>| fs[q])
}

/// What a path holds in `fs`.
pub open spec fn kind_of(fs: Map<Seq<u8>, NodeV>, p: Seq<u8>) -> EntryKind {
    if !fs.dom().contains(p) {
        EntryKind::Missing
    } else if fs[p] is FileNode {
        EntryKind::File
    } else {
        EntryKind::Dir
    }
}

/// Nothing at all lies in the subtree at `p` (no orphaned descendants).
pub open spec fn subtree_empty(fs: Map<Seq<u8>, NodeV>, p: Seq<u8>) -> bool {
    forall|q: Seq<u8>| #[trigger] in_subtree(p, q) ==> !fs.dom().contains(q)
}

/// One step of a transaction, as handed to the surrounding runner. The
/// file and tree variants act alike on the model; they differ in which
/// filesystem call the runner makes (and a file call fails on a
/// directory), so the planner picks them by the observed kind.
pub enum FsOpV {
    /// Copy one file, creating the destination's parents.
    CopyFile { src: Seq<u8>, dst: Seq<u8> },
    /// Copy a directory tree recursively, creating parents.
    CopyTree { src: Seq<u8>, dst: Seq<u8> },
    /// Delete one file.
    RemoveFile { path: Seq<u8> },
    /// Delete a directory tree recursively.
    RemoveTree { path: Seq<u8> },
    /// Rename, the destination not existing.
    RenamePath { src: Seq<u8>, dst: Seq<u8> },
}

/// The model semantics of one step.
pub open spec fn apply_op(fs: Map<Seq<u8>, NodeV>, op: FsOpV) -> Map<Seq<u8>, NodeV> {
    match op {
        FsOpV::CopyFile { src, dst } => copy_subtree(fs, src, dst),
        FsOpV::CopyTree { src, dst } => copy_subtree(fs, src, dst),
        FsOpV::RemoveFile { path } => remove_subtree(fs, path),
        FsOpV::RemoveTree { path } => remove_subtree(fs, path),
        FsOpV::RenamePath { src, dst } => remove_subtree(copy_subtree(fs, src, dst), src),
    }
}

/// The model semantics of a step list, first step first.
pub open spec fn apply_ops(fs: Map<Seq<u8>, NodeV>, ops: Seq<FsOpV>) -> Map<Seq<u8>, NodeV>
    decreases ops.len(),
{
    if ops.len() == 0 {
        fs
    } else {
        apply_ops(apply_op(fs, ops[0]), ops.skip(1))
    }
}

/// The state meant by "the subtree at `src` was moved to `dst`": `dst`
/// holds the image of the old `src` subtree (over whatever else was under
/// `dst`), the `src` subtree is gone, everything else is untouched.
pub open spec fn move_result(fs: Map<Seq<u8>, NodeV>, src: Seq<u8>, dst: Seq<u8>) -> Map<
    Seq<u8>,
    NodeV,
> {
    Map::new(
        |q: Seq<u8>|
            !in_subtree(src, q) && (fs.dom().contains(q) || (in_subtree(dst, q)
                && fs.dom().contains(unbased(src, dst, q)))),
        |q: Seq<u8>|
            if in_subtree(dst, q) && fs.dom().contains(unbased(src, dst, q)) {
                fs[unbased(src, dst, q)]
            } else {
                fs[q]
            },
    )
}

/// The state meant by "the entry at `src` was installed over `dst` through
/// the staging path": `dst` holds exactly the image of the `src` subtree,
/// nothing is left at the staging path, and everything else — the source
/// tree included — is untouched.
pub open spec fn replace_result(
    fs: Map<Seq<u8>, NodeV>,
    src: Seq<u8>,
    dst: Seq<u8>,
    stage: Seq<u8>,
) -> Map<Seq<u8>, NodeV> {
    Map::new(
        |q: Seq<u8>|
            if in_subtree(dst, q) {
                fs.dom().contains(unbased(src, dst, q))
            } else if in_subtree(stage, q) {
                false
            } else {
                fs.dom().contains(q)
            },
        |q: Seq<u8>|
            if in_subtree(dst, q) {
                fs[unbased(src, dst, q)]
            } else {
                fs[q]
            },
    )
}

/// Two subtrees with no path in common are rooted at paths neither of
/// which lies under the other, and the other way round.
pub proof fn lemma_disjoint_from_roots(a: Seq<u8>, b: Seq<u8>)
    requires
        !in_subtree(a, b),
        !in_subtree(b, a),
    ensures
        disjoint_trees(a, b),
{
    assert forall|q: Seq<u8>| !(in_subtree(a, q) && in_subtree(b, q)) by {
        if in_subtree(a, q) && in_subtree(b, q) {
            if a.len() <= b.len() {
                assert(in_subtree(a, b)) by {
                    if b.len() > a.len() {
                        assert(b.subrange(0, a.len() as int) =~= q.subrange(0, a.len() as int))
                            by {
                            if q != b {
                                assert(forall|x: int|
                                    0 <= x < b.len() ==> b[x] == #[trigger] q.subrange(
                                        0,
                                        b.len() as int,
                                    )[x]);
                            }
                        }
                        if q == a {
                            assert(false);
                        }
                        assert(b[a.len() as int] == q[a.len() as int]);
                    } else {
                        assert(a =~= b);
                    }
                }
            } else {
                assert(in_subtree(b, a)) by {
                    assert(a.subrange(0, b.len() as int) =~= q.subrange(0, b.len() as int)) by {
                        if q != a {
                            assert(forall|x: int|
                                0 <= x < a.len() ==> a[x] == #[trigger] q.subrange(
                                    0,
                                    a.len() as int,
                                )[x]);
                        }
                    }
                    if q == b {
                        assert(false);
                    }
                    assert(a[b.len() as int] == q[b.len() as int]);
                }
            }
        }
    }
}

/// A path under `dst` rebases back to a path under `src`.
pub proof fn lemma_unbased_in_src(src: Seq<u8>, dst: Seq<u8>, q: Seq<u8>)
    requires
        in_subtree(dst, q),
    ensures
        in_subtree(src, unbased(src, dst, q)),
        unbased(src, dst, q) == src <==> q == dst,
    decreases 0int,
{
    let u = unbased(src, dst, q);
    if q == dst {
        assert(q.skip(dst.len() as int) =~= Seq::<u8>::empty());
        assert(u =~= src);
    } else {
        assert(q.skip(dst.len() as int).len() > 0);
        assert(u.len() > src.len());
        assert(u.subrange(0, src.len() as int) =~= src);
        assert(u[src.len() as int] == q.skip(dst.len() as int)[0]);
        assert(q.skip(dst.len() as int)[0] == q[dst.len() as int]);
    }
}

} // verus!
