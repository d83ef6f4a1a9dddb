//! The transactional mover: for each manifest entry it plans the exact
//! filesystem steps of one move, in one of two modes.
//!
//! - Relocate (backup): rename first; on failure, copy then delete the
//!   source. The destination is newly chosen, so no concurrent reader is
//!   assumed there.
//! - AtomicReplace (install): the destination may be live, so the entry is
//!   first copied fully to a staging sibling, then the old destination is
//!   removed, then the staged copy is renamed into place. The destination
//!   is never observably half-written: old fully present or new fully
//!   present, never a mix (there is a brief window where it is absent).
//!
//! The planners only decide; the surrounding runner performs each step.
//! The laws proved here state what any run of the planned steps does to
//! the filesystem model.

use vstd::prelude::*;
use crate::fsmodel::{
    EntryKind, NodeV, FsOpV, apply_op, apply_ops, copy_subtree, remove_subtree, kind_of,
    subtree_empty, in_subtree, disjoint_trees, move_result, replace_result,
    unbased, lemma_disjoint_from_roots, lemma_unbased_in_src,
};

verus! {

/// One planned filesystem step, with concrete paths.
pub enum FsOp {
    /// Copy one file, creating the destination's parents first.
    CopyFile { src: Vec<u8>, dst: Vec<u8> },
    /// Copy a directory tree recursively, creating parents first.
    CopyTree { src: Vec<u8>, dst: Vec<u8> },
    /// Delete one file.
    RemoveFile { path: Vec<u8> },
    /// Delete a directory tree recursively.
    RemoveTree { path: Vec<u8> },
    /// Rename onto a currently absent destination.
    RenamePath { src: Vec<u8>, dst: Vec<u8> },
}

impl View for FsOp {
    type V = FsOpV;

    open spec fn view(&self) -> FsOpV {
        match self {
            FsOp::CopyFile { src, dst } => FsOpV::CopyFile { src: src@, dst: dst@ },
            FsOp::CopyTree { src, dst } => FsOpV::CopyTree { src: src@, dst: dst@ },
            FsOp::RemoveFile { path } => FsOpV::RemoveFile { path: path@ },
            FsOp::RemoveTree { path } => FsOpV::RemoveTree { path: path@ },
            FsOp::RenamePath { src, dst } => FsOpV::RenamePath { src: src@, dst: dst@ },
        }
    }
}

/// The step sequences planned, as the model sees them.
pub open spec fn op_views(ops: Seq<FsOp>) -> Seq<FsOpV> {
    Seq::new(ops.len(), |i: int| ops[i]@)
}

/// The reserved staging suffix, `.tmp-installing`.
pub open spec fn stage_suffix() -> Seq<u8> {
    seq![46u8, 116u8, 109u8, 112u8, 45u8, 105u8, 110u8, 115u8, 116u8, 97u8, 108u8, 108u8, 105u8, 110u8, 103u8]
}

/// The staging sibling of a destination path.
pub open spec fn staging_of(dst: Seq<u8>) -> Seq<u8> {
    dst + stage_suffix()
}

/// Builds the staging sibling path of `dst`.
pub fn staging_path(dst: &Vec<u8>) -> (r: Vec<u8>)
    ensures
        r@ == staging_of(dst@),
{
    let mut r = clone_bytes(dst);
    r.push(46);
    r.push(116);
    r.push(109);
    r.push(112);
    r.push(45);
    r.push(105);
    r.push(110);
    r.push(115);
    r.push(116);
    r.push(97);
    r.push(108);
    r.push(108);
    r.push(105);
    r.push(110);
    r.push(103);
    assert(r@ =~= staging_of(dst@));
    r
}

/// Copy of a byte string.
pub fn clone_bytes(v: &Vec<u8>) -> (r: Vec<u8>)
    ensures
        r@ == v@,
{
    let r = v.clone();
    assert(r@ =~= v@);
    r
}

/// A destination and its staging sibling never share a path: the suffix
/// starts with a dot, not a separator.
pub proof fn lemma_staging_disjoint(dst: Seq<u8>)
    ensures
        disjoint_trees(dst, staging_of(dst)),
{
    let stage = staging_of(dst);
    assert(stage.len() == dst.len() + 15);
    assert(stage[dst.len() as int] == 46);
    assert(!in_subtree(dst, stage));
    assert(!in_subtree(stage, dst));
    lemma_disjoint_from_roots(dst, stage);
}

/// The fallback steps of a Relocate move: copy, then delete the source,
/// with file and directory entries using their respective calls.
pub open spec fn relocate_ops_spec(kind: EntryKind, src: Seq<u8>, dst: Seq<u8>) -> Seq<FsOpV> {
    match kind {
        EntryKind::Missing => Seq::empty(),
        EntryKind::File => seq![
            FsOpV::CopyFile { src, dst },
            FsOpV::RemoveFile { path: src },
        ],
        EntryKind::Dir => seq![
            FsOpV::CopyTree { src, dst },
            FsOpV::RemoveTree { path: src },
        ],
    }
}

/// Plan the fallback of a Relocate move, taken when the in-place rename
/// fails (typically a cross-device move). A missing source plans nothing:
/// the entry is skipped, not an error.
pub fn relocate_fallback_ops(kind: EntryKind, src: &Vec<u8>, dst: &Vec<u8>) -> (r: Vec<FsOp>)
    ensures
        op_views(r@) == relocate_ops_spec(kind, src@, dst@),
{
    let mut r: Vec<FsOp> = Vec::new();
    match kind {
        EntryKind::Missing => {
            assert(op_views(r@) =~= relocate_ops_spec(kind, src@, dst@));
        },
        EntryKind::File => {
            r.push(FsOp::CopyFile { src: clone_bytes(src), dst: clone_bytes(dst) });
            r.push(FsOp::RemoveFile { path: clone_bytes(src) });
            assert(op_views(r@) =~= relocate_ops_spec(kind, src@, dst@));
        },
        EntryKind::Dir => {
            r.push(FsOp::CopyTree { src: clone_bytes(src), dst: clone_bytes(dst) });
            r.push(FsOp::RemoveTree { path: clone_bytes(src) });
            assert(op_views(r@) =~= relocate_ops_spec(kind, src@, dst@));
        },
    }
    r
}

/// Applying a step list `a + b` is applying `a`, then `b`.
pub proof fn lemma_apply_ops_app(fs: Map<Seq<u8>, NodeV>, a: Seq<FsOpV>, b: Seq<FsOpV>)
    ensures
        apply_ops(fs, a + b) == apply_ops(apply_ops(fs, a), b),
    decreases a.len(),
{
    if a.len() == 0 {
        assert(a + b =~= b);
    } else {
        assert((a + b)[0] == a[0]);
        assert((a + b).skip(1) =~= a.skip(1) + b);
        lemma_apply_ops_app(apply_op(fs, a[0]), a.skip(1), b);
    }
}

/// The fallback steps of a Relocate move change the filesystem exactly as
/// the rename they stand in for would: whichever route a backup entry
/// takes, the outcome is the same move.
pub proof fn lemma_relocate_matches_rename(
    fs: Map<Seq<u8>, NodeV>,
    kind: EntryKind,
    src: Seq<u8>,
    dst: Seq<u8>,
)
    requires
        kind != EntryKind::Missing,
    ensures
        apply_ops(fs, relocate_ops_spec(kind, src, dst)) == apply_op(
            fs,
            FsOpV::RenamePath { src, dst },
        ),
{
    reveal_with_fuel(apply_ops, 4);
    let ops = relocate_ops_spec(kind, src, dst);
    assert(ops.len() == 2);
    assert(apply_ops(fs, ops) == apply_ops(apply_op(fs, ops[0]), ops.skip(1)));
    assert(ops.skip(1).len() == 1);
    assert(ops.skip(1)[0] == ops[1]);
    assert(ops.skip(1).skip(1).len() == 0);
    let s1 = apply_op(fs, ops[0]);
    assert(apply_ops(s1, ops.skip(1)) == apply_ops(apply_op(s1, ops[1]), ops.skip(1).skip(1)));
    assert(apply_ops(apply_op(s1, ops[1]), ops.skip(1).skip(1)) == apply_op(s1, ops[1]));
    match kind {
        EntryKind::File => {
            assert(ops[0] == (FsOpV::CopyFile { src, dst }));
            assert(ops[1] == (FsOpV::RemoveFile { path: src }));
        },
        _ => {
            assert(ops[0] == (FsOpV::CopyTree { src, dst }));
            assert(ops[1] == (FsOpV::RemoveTree { path: src }));
        },
    }
}

/// A completed Relocate leaves exactly the intended move: the destination
/// subtree holds the image of the old source subtree, the source subtree
/// is gone, and no other path changed.
pub proof fn lemma_rename_is_move(fs: Map<Seq<u8>, NodeV>, src: Seq<u8>, dst: Seq<u8>)
    ensures
        apply_op(fs, FsOpV::RenamePath { src, dst }) == move_result(fs, src, dst),
{
    assert(apply_op(fs, FsOpV::RenamePath { src, dst }) =~= move_result(fs, src, dst));
}

/// The step that clears the path `p` holding a node of kind `k`, if any.
pub open spec fn clear_ops(k: EntryKind, p: Seq<u8>) -> Seq<FsOpV> {
    match k {
        EntryKind::Missing => Seq::empty(),
        EntryKind::File => seq![FsOpV::RemoveFile { path: p }],
        EntryKind::Dir => seq![FsOpV::RemoveTree { path: p }],
    }
}

proof fn lemma_clear_ops(fs: Map<Seq<u8>, NodeV>, k: EntryKind, p: Seq<u8>)
    requires
        k is Missing ==> subtree_empty(fs, p),
    ensures
        apply_ops(fs, clear_ops(k, p)) == remove_subtree(fs, p),
{
    reveal_with_fuel(apply_ops, 3);
    match k {
        EntryKind::Missing => {
            assert(fs =~= remove_subtree(fs, p));
        },
        _ => {
            assert(clear_ops(k, p).skip(1).len() == 0);
        },
    }
}

/// The copy step of an AtomicReplace: the entry copied fully onto its
/// staging sibling, by the call fitting its kind.
pub open spec fn stage_copy_op(kind: EntryKind, src: Seq<u8>, stage: Seq<u8>) -> FsOpV {
    match kind {
        EntryKind::Dir => FsOpV::CopyTree { src, dst: stage },
        _ => FsOpV::CopyFile { src, dst: stage },
    }
}

/// The steps of an AtomicReplace up to, but not including, the final
/// activation rename: clear a stale staging leftover, copy the source
/// fully onto the staging path, then remove the old destination.
pub open spec fn atomic_replace_prefix_spec(
    kind: EntryKind,
    dst_kind: EntryKind,
    stage_kind: EntryKind,
    src: Seq<u8>,
    dst: Seq<u8>,
    stage: Seq<u8>,
) -> Seq<FsOpV> {
    clear_ops(stage_kind, stage) + (seq![stage_copy_op(kind, src, stage)] + clear_ops(
        dst_kind,
        dst,
    ))
}

/// All the steps of an AtomicReplace: the prefix above, then the rename
/// that activates the staged copy.
pub open spec fn atomic_replace_ops_spec(
    kind: EntryKind,
    dst_kind: EntryKind,
    stage_kind: EntryKind,
    src: Seq<u8>,
    dst: Seq<u8>,
    stage: Seq<u8>,
) -> Seq<FsOpV> {
    atomic_replace_prefix_spec(kind, dst_kind, stage_kind, src, dst, stage) + seq![
        FsOpV::RenamePath { src: stage, dst },
    ]
}

/// Plan a whole AtomicReplace move from the observed kinds of the source,
/// the destination and a stale staging leftover. A missing source plans
/// nothing: the entry is skipped, not an error.
pub fn atomic_replace_ops(
    kind: EntryKind,
    dst_kind: EntryKind,
    stage_kind: EntryKind,
    src: &Vec<u8>,
    dst: &Vec<u8>,
) -> (r: Vec<FsOp>)
    ensures
        kind is Missing ==> op_views(r@) == Seq::<FsOpV>::empty(),
        !(kind is Missing) ==> op_views(r@) == atomic_replace_ops_spec(
            kind,
            dst_kind,
            stage_kind,
            src@,
            dst@,
            staging_of(dst@),
        ),
{
    let mut r: Vec<FsOp> = Vec::new();
    if let EntryKind::Missing = kind {
        assert(op_views(r@) =~= Seq::<FsOpV>::empty());
        return r;
    }
    let stage = staging_path(dst);
    match stage_kind {
        EntryKind::Missing => {},
        EntryKind::File => {
            r.push(FsOp::RemoveFile { path: clone_bytes(&stage) });
        },
        EntryKind::Dir => {
            r.push(FsOp::RemoveTree { path: clone_bytes(&stage) });
        },
    }
    match kind {
        EntryKind::Dir => {
            r.push(FsOp::CopyTree { src: clone_bytes(src), dst: clone_bytes(&stage) });
        },
        _ => {
            r.push(FsOp::CopyFile { src: clone_bytes(src), dst: clone_bytes(&stage) });
        },
    }
    match dst_kind {
        EntryKind::Missing => {},
        EntryKind::File => {
            r.push(FsOp::RemoveFile { path: clone_bytes(dst) });
        },
        EntryKind::Dir => {
            r.push(FsOp::RemoveTree { path: clone_bytes(dst) });
        },
    }
    r.push(FsOp::RenamePath { src: stage, dst: clone_bytes(dst) });
    assert(op_views(r@) =~= atomic_replace_ops_spec(
        kind,
        dst_kind,
        stage_kind,
        src@,
        dst@,
        staging_of(dst@),
    ));
    r
}

/// The filesystem as it stands if the process dies between "destination
/// removed" and "staged copy activated": the staging path holds the full
/// image of the source, the destination is gone, nothing else changed.
pub open spec fn crash_result(
    fs: Map<Seq<u8>, NodeV>,
    src: Seq<u8>,
    dst: Seq<u8>,
    stage: Seq<u8>,
) -> Map<Seq<u8>, NodeV> {
    Map::new(
        |q: Seq<u8>|
            if in_subtree(stage, q) {
                fs.dom().contains(unbased(src, stage, q))
            } else if in_subtree(dst, q) {
                false
            } else {
                fs.dom().contains(q)
            },
        |q: Seq<u8>|
            if in_subtree(stage, q) {
                fs[unbased(src, stage, q)]
            } else {
                fs[q]
            },
    )
}

/// The common preconditions of the AtomicReplace laws: the observed kinds
/// are what the filesystem holds, a missing destination or staging path
/// hides no orphaned descendants, and the three subtrees are separate.
pub open spec fn replace_pre(
    fs: Map<Seq<u8>, NodeV>,
    kind: EntryKind,
    dst_kind: EntryKind,
    stage_kind: EntryKind,
    src: Seq<u8>,
    dst: Seq<u8>,
    stage: Seq<u8>,
) -> bool {
    &&& kind_of(fs, src) == kind
    &&& !(kind is Missing)
    &&& kind_of(fs, dst) == dst_kind
    &&& kind_of(fs, stage) == stage_kind
    &&& (stage_kind is Missing ==> subtree_empty(fs, stage))
    &&& (dst_kind is Missing ==> subtree_empty(fs, dst))
    &&& disjoint_trees(src, dst)
    &&& disjoint_trees(src, stage)
    &&& disjoint_trees(dst, stage)
}

/// Rebasing a path from under `dst` to under `src` and rebasing it back
/// returns it; and the two skips agree.
proof fn lemma_unbased_roundtrip(src: Seq<u8>, dst: Seq<u8>, q: Seq<u8>)
    requires
        in_subtree(dst, q),
    ensures
        unbased(src, dst, q).skip(src.len() as int) == q.skip(dst.len() as int),
{
    assert(unbased(src, dst, q).skip(src.len() as int) =~= q.skip(dst.len() as int));
}

/// Running the AtomicReplace prefix leaves exactly the crash-window state.
pub proof fn lemma_replace_prefix_result(
    fs: Map<Seq<u8>, NodeV>,
    kind: EntryKind,
    dst_kind: EntryKind,
    stage_kind: EntryKind,
    src: Seq<u8>,
    dst: Seq<u8>,
    stage: Seq<u8>,
)
    requires
        replace_pre(fs, kind, dst_kind, stage_kind, src, dst, stage),
    ensures
        apply_ops(fs, atomic_replace_prefix_spec(kind, dst_kind, stage_kind, src, dst, stage))
            == crash_result(fs, src, dst, stage),
{
    reveal_with_fuel(apply_ops, 3);
    let cs = clear_ops(stage_kind, stage);
    let mid = seq![stage_copy_op(kind, src, stage)] + clear_ops(dst_kind, dst);
    let prefix = atomic_replace_prefix_spec(kind, dst_kind, stage_kind, src, dst, stage);
    lemma_apply_ops_app(fs, cs, mid);
    lemma_clear_ops(fs, stage_kind, stage);
    let s1 = remove_subtree(fs, stage);
    assert(apply_ops(fs, prefix) == apply_ops(s1, mid));
    assert(mid[0] == stage_copy_op(kind, src, stage));
    assert(mid.skip(1) =~= clear_ops(dst_kind, dst));
    let s2 = copy_subtree(s1, src, stage);
    assert(apply_op(s1, mid[0]) == s2);
    assert(apply_ops(s1, mid) == apply_ops(s2, clear_ops(dst_kind, dst)));
    assert(dst_kind is Missing ==> subtree_empty(s2, dst)) by {
        if dst_kind is Missing {
            assert forall|q: Seq<u8>| #[trigger] in_subtree(dst, q) implies !s2.dom().contains(q) by {
                assert(!(in_subtree(dst, q) && in_subtree(stage, q)));
            }
        }
    }
    lemma_clear_ops(s2, dst_kind, dst);
    let s3 = remove_subtree(s2, dst);
    assert(apply_ops(fs, prefix) == s3);
    assert(s3 =~= crash_result(fs, src, dst, stage)) by {
        assert forall|q: Seq<u8>| #[trigger] s3.dom().contains(q) == crash_result(
            fs,
            src,
            dst,
            stage,
        ).dom().contains(q) by {
            if in_subtree(stage, q) {
                assert(!(in_subtree(dst, q) && in_subtree(stage, q)));
                let u = unbased(src, stage, q);
                lemma_unbased_in_src(src, stage, q);
                assert(!(in_subtree(src, u) && in_subtree(stage, u)));
            } else if in_subtree(dst, q) {
            } else {
            }
        }
        assert forall|q: Seq<u8>| s3.dom().contains(q) implies s3[q] == crash_result(
            fs,
            src,
            dst,
            stage,
        )[q] by {
            if in_subtree(stage, q) {
                assert(!(in_subtree(dst, q) && in_subtree(stage, q)));
                let u = unbased(src, stage, q);
                lemma_unbased_in_src(src, stage, q);
                assert(!(in_subtree(src, u) && in_subtree(stage, u)));
            }
        }
    }
}

/// Running all the steps of an AtomicReplace leaves exactly the intended
/// replacement: the destination holds the image of the source subtree —
/// whatever stood at the destination before, file or directory — the
/// staging path is gone, and every other path, the source included, is
/// untouched.
pub proof fn lemma_atomic_replace_result(
    fs: Map<Seq<u8>, NodeV>,
    kind: EntryKind,
    dst_kind: EntryKind,
    stage_kind: EntryKind,
    src: Seq<u8>,
    dst: Seq<u8>,
    stage: Seq<u8>,
)
    requires
        replace_pre(fs, kind, dst_kind, stage_kind, src, dst, stage),
    ensures
        apply_ops(fs, atomic_replace_ops_spec(kind, dst_kind, stage_kind, src, dst, stage))
            == replace_result(fs, src, dst, stage),
{
    reveal_with_fuel(apply_ops, 3);
    let prefix = atomic_replace_prefix_spec(kind, dst_kind, stage_kind, src, dst, stage);
    let ops = atomic_replace_ops_spec(kind, dst_kind, stage_kind, src, dst, stage);
    let fin = seq![FsOpV::RenamePath { src: stage, dst }];
    lemma_apply_ops_app(fs, prefix, fin);
    lemma_replace_prefix_result(fs, kind, dst_kind, stage_kind, src, dst, stage);
    let sc = crash_result(fs, src, dst, stage);
    assert(apply_ops(fs, ops) == apply_op(sc, fin[0]));
    let s4 = remove_subtree(copy_subtree(sc, stage, dst), stage);
    assert(apply_op(sc, fin[0]) == s4);
    assert(s4 =~= replace_result(fs, src, dst, stage)) by {
        assert forall|q: Seq<u8>| #[trigger] s4.dom().contains(q) == replace_result(
            fs,
            src,
            dst,
            stage,
        ).dom().contains(q) by {
            lemma_replace_final_point(fs, src, dst, stage, q);
        }
        assert forall|q: Seq<u8>| s4.dom().contains(q) implies s4[q] == replace_result(
            fs,
            src,
            dst,
            stage,
        )[q] by {
            lemma_replace_final_point(fs, src, dst, stage, q);
        }
    }
}

/// After an AtomicReplace the destination matches the source's kind and
/// content — also when the destination previously held a node of another
/// kind, a directory over a file or a file over a directory — and the
/// source tree itself is untouched.
pub proof fn lemma_replace_destination_matches_source(
    fs: Map<Seq<u8>, NodeV>,
    kind: EntryKind,
    dst_kind: EntryKind,
    stage_kind: EntryKind,
    src: Seq<u8>,
    dst: Seq<u8>,
    stage: Seq<u8>,
)
    requires
        replace_pre(fs, kind, dst_kind, stage_kind, src, dst, stage),
    ensures
        ({
            let fs2 = apply_ops(
                fs,
                atomic_replace_ops_spec(kind, dst_kind, stage_kind, src, dst, stage),
            );
            &&& kind_of(fs2, dst) == kind
            &&& (forall|q: Seq<u8>| #[trigger]
                in_subtree(dst, q) ==> (fs2.dom().contains(q) <==> fs.dom().contains(
                    unbased(src, dst, q),
                )))
            &&& (forall|q: Seq<u8>| #[trigger]
                in_subtree(dst, q) && fs2.dom().contains(q) ==> fs2[q] == fs[unbased(src, dst, q)])
            &&& (forall|q: Seq<u8>| #[trigger]
                in_subtree(src, q) ==> fs2.dom().contains(q) == fs.dom().contains(q) && (
                fs.dom().contains(q) ==> fs2[q] == fs[q]))
        }),
{
    lemma_atomic_replace_result(fs, kind, dst_kind, stage_kind, src, dst, stage);
    let fs2 = replace_result(fs, src, dst, stage);
    assert(in_subtree(dst, dst));
    assert(unbased(src, dst, dst) =~= src);
    assert(kind_of(fs2, dst) == kind);
    assert forall|q: Seq<u8>| #[trigger]
        in_subtree(src, q) implies fs2.dom().contains(q) == fs.dom().contains(q) && (
    fs.dom().contains(q) ==> fs2[q] == fs[q]) by {
        assert(!(in_subtree(src, q) && in_subtree(dst, q)));
        assert(!(in_subtree(src, q) && in_subtree(stage, q)));
    }
}

/// Running an AtomicReplace again, over a destination already replaced,
/// changes nothing: installing twice leaves the filesystem exactly as
/// installing once did.
pub proof fn lemma_install_idempotent(
    fs: Map<Seq<u8>, NodeV>,
    kind: EntryKind,
    dst_kind: EntryKind,
    stage_kind: EntryKind,
    src: Seq<u8>,
    dst: Seq<u8>,
    stage: Seq<u8>,
)
    requires
        replace_pre(fs, kind, dst_kind, stage_kind, src, dst, stage),
    ensures
        ({
            let fs1 = apply_ops(
                fs,
                atomic_replace_ops_spec(kind, dst_kind, stage_kind, src, dst, stage),
            );
            apply_ops(fs1, atomic_replace_ops_spec(kind, kind, EntryKind::Missing, src, dst, stage))
                == fs1
        }),
{
    lemma_atomic_replace_result(fs, kind, dst_kind, stage_kind, src, dst, stage);
    let fs1 = replace_result(fs, src, dst, stage);
    assert(in_subtree(src, src));
    assert(in_subtree(dst, dst));
    assert(in_subtree(stage, stage));
    assert(!(in_subtree(src, src) && in_subtree(dst, src)));
    assert(!(in_subtree(src, src) && in_subtree(stage, src)));
    assert(kind_of(fs1, src) == kind);
    assert(unbased(src, dst, dst) =~= src);
    assert(kind_of(fs1, dst) == kind);
    assert(!(in_subtree(dst, stage) && in_subtree(stage, stage)));
    assert(kind_of(fs1, stage) == EntryKind::Missing);
    assert(subtree_empty(fs1, stage)) by {
        assert forall|q: Seq<u8>| #[trigger] in_subtree(stage, q) implies !fs1.dom().contains(q) by {
            assert(!(in_subtree(dst, q) && in_subtree(stage, q)));
        }
    }
    assert(replace_pre(fs1, kind, kind, EntryKind::Missing, src, dst, stage));
    lemma_atomic_replace_result(fs1, kind, kind, EntryKind::Missing, src, dst, stage);
    assert(replace_result(fs1, src, dst, stage) =~= fs1) by {
        assert forall|q: Seq<u8>| #[trigger]
            replace_result(fs1, src, dst, stage).dom().contains(q) == fs1.dom().contains(q) && (
        fs1.dom().contains(q) ==> replace_result(fs1, src, dst, stage)[q] == fs1[q]) by {
            if in_subtree(dst, q) {
                let u = unbased(src, dst, q);
                lemma_unbased_in_src(src, dst, q);
                assert(!(in_subtree(src, u) && in_subtree(dst, u)));
                assert(!(in_subtree(src, u) && in_subtree(stage, u)));
            } else if in_subtree(stage, q) {
                assert(!(in_subtree(dst, q) && in_subtree(stage, q)));
            }
        }
    }
}

/// If the process dies between "destination removed" and "staged copy
/// activated", the staging artifact is still there to be seen — of the
/// same kind as the source, holding its full image — and running the
/// install again completes the replacement exactly as an uninterrupted
/// run would have. No content is silently lost in the window.
pub proof fn lemma_interrupted_install_recovers(
    fs: Map<Seq<u8>, NodeV>,
    kind: EntryKind,
    dst_kind: EntryKind,
    stage_kind: EntryKind,
    src: Seq<u8>,
    dst: Seq<u8>,
    stage: Seq<u8>,
)
    requires
        replace_pre(fs, kind, dst_kind, stage_kind, src, dst, stage),
    ensures
        ({
            let fsc = apply_ops(
                fs,
                atomic_replace_prefix_spec(kind, dst_kind, stage_kind, src, dst, stage),
            );
            &&& kind_of(fsc, stage) == kind
            &&& subtree_empty(fsc, dst)
            &&& apply_ops(
                fsc,
                atomic_replace_ops_spec(kind, EntryKind::Missing, kind, src, dst, stage),
            ) == replace_result(fs, src, dst, stage)
        }),
{
    lemma_replace_prefix_result(fs, kind, dst_kind, stage_kind, src, dst, stage);
    let fsc = crash_result(fs, src, dst, stage);
    assert(in_subtree(stage, stage));
    assert(unbased(src, stage, stage) =~= src);
    assert(kind_of(fsc, stage) == kind);
    assert(subtree_empty(fsc, dst)) by {
        assert forall|q: Seq<u8>| #[trigger] in_subtree(dst, q) implies !fsc.dom().contains(q) by {
            assert(!(in_subtree(dst, q) && in_subtree(stage, q)));
        }
    }
    assert(in_subtree(src, src));
    assert(in_subtree(dst, dst));
    assert(!(in_subtree(src, src) && in_subtree(dst, src)));
    assert(!(in_subtree(src, src) && in_subtree(stage, src)));
    assert(kind_of(fsc, src) == kind);
    assert(kind_of(fsc, dst) == EntryKind::Missing);
    assert(replace_pre(fsc, kind, EntryKind::Missing, kind, src, dst, stage));
    lemma_atomic_replace_result(fsc, kind, EntryKind::Missing, kind, src, dst, stage);
    assert(replace_result(fsc, src, dst, stage) =~= replace_result(fs, src, dst, stage)) by {
        assert forall|q: Seq<u8>| #[trigger]
            replace_result(fsc, src, dst, stage).dom().contains(q) == replace_result(
                fs,
                src,
                dst,
                stage,
            ).dom().contains(q) && (replace_result(fsc, src, dst, stage).dom().contains(q)
            ==> replace_result(fsc, src, dst, stage)[q] == replace_result(fs, src, dst, stage)[q])
            by {
            if in_subtree(dst, q) {
                let u = unbased(src, dst, q);
                lemma_unbased_in_src(src, dst, q);
                assert(!(in_subtree(src, u) && in_subtree(dst, u)));
                assert(!(in_subtree(src, u) && in_subtree(stage, u)));
            }
        }
    }
}

/// Pointwise account of the activation rename applied to the crash state.
proof fn lemma_replace_final_point(
    fs: Map<Seq<u8>, NodeV>,
    src: Seq<u8>,
    dst: Seq<u8>,
    stage: Seq<u8>,
    q: Seq<u8>,
)
    requires
        disjoint_trees(src, dst),
        disjoint_trees(src, stage),
        disjoint_trees(dst, stage),
    ensures
        ({
            let sc = crash_result(fs, src, dst, stage);
            let s4 = remove_subtree(copy_subtree(sc, stage, dst), stage);
            let rr = replace_result(fs, src, dst, stage);
            s4.dom().contains(q) == rr.dom().contains(q) && (s4.dom().contains(q) ==> s4[q]
                == rr[q])
        }),
{
    let sc = crash_result(fs, src, dst, stage);
    let s4 = remove_subtree(copy_subtree(sc, stage, dst), stage);
    let rr = replace_result(fs, src, dst, stage);
    if in_subtree(dst, q) {
        assert(!(in_subtree(dst, q) && in_subtree(stage, q)));
        assert(!(in_subtree(src, q) && in_subtree(dst, q)));
        let w = unbased(stage, dst, q);
        lemma_unbased_in_src(stage, dst, q);
        assert(in_subtree(stage, w));
        assert(!(in_subtree(dst, w) && in_subtree(stage, w)));
        let u = unbased(src, stage, w);
        lemma_unbased_in_src(src, stage, w);
        lemma_unbased_roundtrip(stage, dst, q);
        assert(u =~= unbased(src, dst, q));
        // sc at q holds nothing, so the copy brings exactly the image of w
        assert(sc.dom().contains(w) == fs.dom().contains(u));
        assert(sc.dom().contains(w) ==> sc[w] == fs[u]);
    } else if in_subtree(stage, q) {
        assert(!s4.dom().contains(q));
        assert(!rr.dom().contains(q));
    } else {
        assert(sc.dom().contains(q) == fs.dom().contains(q));
        assert(sc.dom().contains(q) ==> sc[q] == fs[q]);
    }
}

} // verus!
