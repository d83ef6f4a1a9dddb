use std::collections::BTreeMap;
use updater_core::backup::{
    dated_folder_name, plan_backup_entry, unique_backup_name, Backup,
};
use updater_core::fsmodel::EntryKind;
use updater_core::install::Installer;
use updater_core::mover::{relocate_fallback_ops, staging_path, FsOp};

/// A toy filesystem: each existing path maps to a file's content or to a
/// directory marker, mirroring the model the library's laws are proved
/// against.
#[derive(Clone, Debug, PartialEq, Eq)]
enum Node {
    File(Vec<u8>),
    Dir,
}

type Fs = BTreeMap<Vec<u8>, Node>;

fn in_subtree(root: &[u8], q: &[u8]) -> bool {
    q == root || (q.len() > root.len() && &q[..root.len()] == root && q[root.len()] == b'/')
}

fn copy_subtree(fs: &mut Fs, src: &[u8], dst: &[u8]) {
    let image: Vec<(Vec<u8>, Node)> = fs
        .iter()
        .filter(|(p, _)| in_subtree(src, p))
        .map(|(p, n)| {
            let mut q = dst.to_vec();
            q.extend_from_slice(&p[src.len()..]);
            (q, n.clone())
        })
        .collect();
    for (q, n) in image {
        fs.insert(q, n);
    }
}

fn remove_subtree(fs: &mut Fs, p: &[u8]) {
    fs.retain(|q, _| !in_subtree(p, q));
}

fn run_ops(fs: &mut Fs, ops: &[FsOp]) {
    for op in ops {
        match op {
            FsOp::CopyFile { src, dst } | FsOp::CopyTree { src, dst } => {
                copy_subtree(fs, src, dst)
            }
            FsOp::RemoveFile { path } | FsOp::RemoveTree { path } => remove_subtree(fs, path),
            FsOp::RenamePath { src, dst } => {
                copy_subtree(fs, src, dst);
                remove_subtree(fs, src);
            }
        }
    }
}

fn kind_at(fs: &Fs, p: &[u8]) -> EntryKind {
    match fs.get(p) {
        None => EntryKind::Missing,
        Some(Node::File(_)) => EntryKind::File,
        Some(Node::Dir) => EntryKind::Dir,
    }
}

fn install_once(fs: &mut Fs, src: &[u8], dst: &[u8]) {
    let stage = staging_path(&dst.to_vec());
    let plan = Installer.plan_entry(
        kind_at(fs, src),
        kind_at(fs, dst),
        kind_at(fs, &stage),
        &src.to_vec(),
        &dst.to_vec(),
    );
    run_ops(fs, &plan.ops);
}

#[test]
fn missing_backup_source_is_skipped() {
    let plan = plan_backup_entry(
        EntryKind::Missing,
        &b"plugin.dll".to_vec(),
        &b"backups/backup-20240307/plugin.dll".to_vec(),
        &Vec::new(),
    );
    assert!(plan.skip);
    assert!(plan.fallback.is_empty());
    // the rest of the run carries on; the filesystem is untouched
    let mut fs = Fs::new();
    fs.insert(b"other.txt".to_vec(), Node::File(b"keep".to_vec()));
    let before = fs.clone();
    run_ops(&mut fs, &plan.fallback);
    assert_eq!(fs, before);
}

#[test]
fn backup_fallback_moves_a_file() {
    let mut fs = Fs::new();
    fs.insert(b"cfg/a.txt".to_vec(), Node::File(b"v1".to_vec()));
    let ops = relocate_fallback_ops(
        EntryKind::File,
        &b"cfg/a.txt".to_vec(),
        &b"backups/backup-20240307/cfg/a.txt".to_vec(),
    );
    run_ops(&mut fs, &ops);
    assert_eq!(kind_at(&fs, b"cfg/a.txt"), EntryKind::Missing);
    assert_eq!(
        fs.get(b"backups/backup-20240307/cfg/a.txt".as_slice()),
        Some(&Node::File(b"v1".to_vec()))
    );
}

#[test]
fn backup_fallback_moves_a_directory_tree() {
    let mut fs = Fs::new();
    fs.insert(b"data/saves".to_vec(), Node::Dir);
    fs.insert(b"data/saves/slot1".to_vec(), Node::File(b"s1".to_vec()));
    fs.insert(b"data/saves/deep".to_vec(), Node::Dir);
    fs.insert(b"data/saves/deep/slot2".to_vec(), Node::File(b"s2".to_vec()));
    let ops = relocate_fallback_ops(
        EntryKind::Dir,
        &b"data/saves".to_vec(),
        &b"bk/data/saves".to_vec(),
    );
    run_ops(&mut fs, &ops);
    assert_eq!(kind_at(&fs, b"data/saves"), EntryKind::Missing);
    assert_eq!(kind_at(&fs, b"bk/data/saves"), EntryKind::Dir);
    assert_eq!(
        fs.get(b"bk/data/saves/deep/slot2".as_slice()),
        Some(&Node::File(b"s2".to_vec()))
    );
}

#[test]
fn second_same_day_backup_gets_numeric_suffix() {
    // the dated directory already holds a.txt from the first run
    let taken = vec![b"bk/backup-20240307/a.txt".to_vec()];
    let plan = plan_backup_entry(
        EntryKind::File,
        &b"a.txt".to_vec(),
        &b"bk/backup-20240307/a.txt".to_vec(),
        &taken,
    );
    assert_eq!(plan.dest, b"bk/backup-20240307/a-1.txt".to_vec());
    let taken2 = vec![
        b"bk/backup-20240307/a.txt".to_vec(),
        b"bk/backup-20240307/a-1.txt".to_vec(),
    ];
    let plan2 = plan_backup_entry(
        EntryKind::File,
        &b"a.txt".to_vec(),
        &b"bk/backup-20240307/a.txt".to_vec(),
        &taken2,
    );
    assert_eq!(plan2.dest, b"bk/backup-20240307/a-2.txt".to_vec());
}

#[test]
fn unique_name_without_collision_is_unchanged() {
    let r = unique_backup_name(&b"bk/a.txt".to_vec(), &vec![b"bk/b.txt".to_vec()]);
    assert_eq!(r, b"bk/a.txt".to_vec());
}

#[test]
fn unique_name_suffix_handles_dotless_and_hidden_names() {
    let r = unique_backup_name(&b"bk/README".to_vec(), &vec![b"bk/README".to_vec()]);
    assert_eq!(r, b"bk/README-1".to_vec());
    let r = unique_backup_name(&b"bk/.bashrc".to_vec(), &vec![b"bk/.bashrc".to_vec()]);
    assert_eq!(r, b"bk/.bashrc-1".to_vec());
    let r = unique_backup_name(&b"bk.d/x".to_vec(), &vec![b"bk.d/x".to_vec()]);
    assert_eq!(r, b"bk.d/x-1".to_vec());
}

#[test]
fn dated_folder_name_is_zero_padded() {
    assert_eq!(dated_folder_name(2024, 3, 7), b"backup-20240307".to_vec());
    assert_eq!(dated_folder_name(987, 12, 31), b"backup-09871231".to_vec());
}

#[test]
fn same_date_names_the_same_directory() {
    let b = Backup::new(b"backups".to_vec());
    let d1 = b.dated_dir(2024, 3, 7);
    let d2 = b.dated_dir(2024, 3, 7);
    assert_eq!(d1, d2);
    assert_eq!(d1, b"backups/backup-20240307".to_vec());
}

#[test]
fn install_replaces_directory_with_file() {
    // the destination exists as a directory, the new entry is a file
    let mut fs = Fs::new();
    fs.insert(b"live/mod".to_vec(), Node::Dir);
    fs.insert(b"live/mod/old".to_vec(), Node::File(b"old".to_vec()));
    fs.insert(b"ext/mod".to_vec(), Node::File(b"new".to_vec()));
    install_once(&mut fs, b"ext/mod", b"live/mod");
    assert_eq!(fs.get(b"live/mod".as_slice()), Some(&Node::File(b"new".to_vec())));
    assert_eq!(kind_at(&fs, b"live/mod/old"), EntryKind::Missing);
    // no staging artifact survives a successful install
    let stage = staging_path(&b"live/mod".to_vec());
    assert_eq!(kind_at(&fs, &stage), EntryKind::Missing);
    // the extracted tree is untouched
    assert_eq!(fs.get(b"ext/mod".as_slice()), Some(&Node::File(b"new".to_vec())));
}

#[test]
fn install_replaces_file_with_directory() {
    let mut fs = Fs::new();
    fs.insert(b"live/mod".to_vec(), Node::File(b"old".to_vec()));
    fs.insert(b"ext/mod".to_vec(), Node::Dir);
    fs.insert(b"ext/mod/part".to_vec(), Node::File(b"p".to_vec()));
    install_once(&mut fs, b"ext/mod", b"live/mod");
    assert_eq!(kind_at(&fs, b"live/mod"), EntryKind::Dir);
    assert_eq!(fs.get(b"live/mod/part".as_slice()), Some(&Node::File(b"p".to_vec())));
}

#[test]
fn install_twice_equals_install_once() {
    let mut fs = Fs::new();
    fs.insert(b"live/app.bin".to_vec(), Node::File(b"v1".to_vec()));
    fs.insert(b"ext/app.bin".to_vec(), Node::File(b"v2".to_vec()));
    install_once(&mut fs, b"ext/app.bin", b"live/app.bin");
    let after_once = fs.clone();
    install_once(&mut fs, b"ext/app.bin", b"live/app.bin");
    assert_eq!(fs, after_once);
}

#[test]
fn interrupted_install_leaves_stage_and_rerun_recovers() {
    let mut fs = Fs::new();
    fs.insert(b"live/mod".to_vec(), Node::Dir);
    fs.insert(b"live/mod/old".to_vec(), Node::File(b"old".to_vec()));
    fs.insert(b"ext/mod".to_vec(), Node::Dir);
    fs.insert(b"ext/mod/new".to_vec(), Node::File(b"new".to_vec()));

    // what an uninterrupted run would leave
    let mut want = fs.clone();
    install_once(&mut want, b"ext/mod", b"live/mod");

    // run all steps but the final activation rename: the crash window
    let stage = staging_path(&b"live/mod".to_vec());
    let plan = Installer.plan_entry(
        kind_at(&fs, b"ext/mod"),
        kind_at(&fs, b"live/mod"),
        kind_at(&fs, &stage),
        &b"ext/mod".to_vec(),
        &b"live/mod".to_vec(),
    );
    let n = plan.ops.len();
    run_ops(&mut fs, &plan.ops[..n - 1]);

    // the staging artifact is there to be seen, with the full new content
    assert_eq!(kind_at(&fs, &stage), EntryKind::Dir);
    let mut staged_new = stage.clone();
    staged_new.extend_from_slice(b"/new");
    assert_eq!(fs.get(&staged_new), Some(&Node::File(b"new".to_vec())));
    // the destination is briefly absent, but nothing was silently lost
    assert_eq!(kind_at(&fs, b"live/mod"), EntryKind::Missing);

    // a re-run completes the replacement
    install_once(&mut fs, b"ext/mod", b"live/mod");
    assert_eq!(fs, want);
}

#[test]
fn stale_staging_leftover_is_cleared_first() {
    let mut fs = Fs::new();
    let stage = staging_path(&b"live/a.txt".to_vec());
    fs.insert(stage.clone(), Node::File(b"stale".to_vec()));
    fs.insert(b"ext/a.txt".to_vec(), Node::File(b"new".to_vec()));
    install_once(&mut fs, b"ext/a.txt", b"live/a.txt");
    assert_eq!(fs.get(b"live/a.txt".as_slice()), Some(&Node::File(b"new".to_vec())));
    assert_eq!(kind_at(&fs, &stage), EntryKind::Missing);
}

#[test]
fn missing_install_source_is_skipped() {
    let mut fs = Fs::new();
    fs.insert(b"live/keep.txt".to_vec(), Node::File(b"k".to_vec()));
    let before = fs.clone();
    install_once(&mut fs, b"ext/optional.dll", b"live/optional.dll");
    assert_eq!(fs, before);
}
