//! The install service: replaces the entries a manifest lists, from an
//! extracted build tree into the live install root, one AtomicReplace per
//! entry. A missing source is skipped with a warning; every installed
//! entry yields one observable record saying whether it was a file or a
//! directory.

use vstd::prelude::*;
use crate::fsmodel::{EntryKind, FsOpV};
use crate::mover::{FsOp, op_views, atomic_replace_ops, atomic_replace_ops_spec, staging_of};

verus! {

/// Installs (replaces) paths from an extracted build tree into the
/// install root, entry by entry, with stage-then-swap crash safety.
#[derive(Clone, Copy, Debug, PartialEq, Eq, Structural)]
pub struct Installer;

impl Default for Installer {
    fn default() -> (r: Self)
        ensures
            r == (Installer {  }),
    {
        Installer {  }
    }
}

/// The plan for one install entry: whether it was skipped, the observable
/// record of what kind it was, and the steps to run in order.
pub struct InstallPlan {
    /// The source was missing in the extracted tree; warn and carry on.
    pub skip: bool,
    /// The observable record: the entry was a directory, else a file.
    pub is_dir: bool,
    /// The AtomicReplace steps, first step first.
    pub ops: Vec<FsOp>,
}

impl Installer {
    /// Plan one install entry from the observed kinds of its source, its
    /// destination, and any stale staging leftover beside the
    /// destination. A missing source plans nothing: the entry is skipped,
    /// never an error, and the remaining entries still run.
    pub fn plan_entry(
        &self,
        kind: EntryKind,
        dst_kind: EntryKind,
        stage_kind: EntryKind,
        src: &Vec<u8>,
        dst: &Vec<u8>,
    ) -> (r: InstallPlan)
        ensures
            r.skip == (kind is Missing),
            r.is_dir == (kind is Dir),
            kind is Missing ==> op_views(r.ops@) == Seq::<FsOpV>::empty(),
            !(kind is Missing) ==> op_views(r.ops@) == atomic_replace_ops_spec(
                kind,
                dst_kind,
                stage_kind,
                src@,
                dst@,
                staging_of(dst@),
            ),
    {
        let ops = atomic_replace_ops(kind, dst_kind, stage_kind, src, dst);
        InstallPlan {
            skip: matches!(kind, EntryKind::Missing),
            is_dir: matches!(kind, EntryKind::Dir),
            ops,
        }
    }
}

} // verus!
