use treesync::engine::{classify, Decision};
use treesync::model::{Action, Direction, Reason, SyncEntry, SyncError, SyncOptions};
use treesync::partition::partition;
use treesync::plan::synchronize;

fn entry(path: &str, name: &str, size: u64, modified: i64) -> SyncEntry {
    SyncEntry {
        path: path.to_string(),
        name: name.to_string(),
        size,
        modified,
    }
}

fn options(direction: Direction, propagate_mtime: bool, delete_orphans: bool, ignored: &[&str]) -> SyncOptions {
    SyncOptions {
        direction,
        propagate_mtime,
        delete_orphans,
        ignored_prefixes: ignored.iter().map(|s| s.to_string()).collect(),
    }
}

fn run(
    src_files: Vec<SyncEntry>,
    src_empty: Vec<&str>,
    dest_files: Vec<SyncEntry>,
    dest_empty: Vec<&str>,
    opts: &SyncOptions,
) -> Vec<Action> {
    synchronize(
        &"/src".to_string(),
        &"/dst".to_string(),
        &src_files,
        &src_empty.iter().map(|s| s.to_string()).collect(),
        &dest_files,
        &dest_empty.iter().map(|s| s.to_string()).collect(),
        opts,
    )
    .expect("listings are consistent")
}

#[test]
fn newer_source_is_copied() {
    // Source a/f.txt (10 bytes, t=100); destination a/f.txt (10 bytes, t=90):
    // sizes equal and the source is strictly newer, so exactly one copy with
    // reason "newer" to the destination file's own path.
    let opts = options(Direction::Pull, false, false, &[]);
    let acts = run(
        vec![entry("/src/a/f.txt", "f.txt", 10, 100)],
        vec![],
        vec![entry("/dst/a/f.txt", "f.txt", 10, 90)],
        vec![],
        &opts,
    );
    assert_eq!(acts.len(), 1);
    match &acts[0] {
        Action::CopyFile { src, dest, reason, preserve_mtime } => {
            assert_eq!(src, "/src/a/f.txt");
            assert_eq!(dest, "/dst/a/f.txt");
            assert_eq!(*reason, Reason::Newer);
            assert!(!*preserve_mtime);
        }
        other => panic!("expected a copy, got {:?}", kind_of(other)),
    }
}

#[test]
fn equal_pair_is_skipped() {
    let opts = options(Direction::Pull, false, false, &[]);
    let acts = run(
        vec![entry("/src/a/f.txt", "f.txt", 10, 100)],
        vec![],
        vec![entry("/dst/a/f.txt", "f.txt", 10, 100)],
        vec![],
        &opts,
    );
    assert!(acts.is_empty());
}

#[test]
fn size_mismatch_beats_newer_destination() {
    // The destination file has the newer timestamp, but the sizes differ:
    // size is an unconditional signal, so the copy still happens.
    let opts = options(Direction::Pull, false, false, &[]);
    let acts = run(
        vec![entry("/src/a/f.txt", "f.txt", 10, 100)],
        vec![],
        vec![entry("/dst/a/f.txt", "f.txt", 99, 500)],
        vec![],
        &opts,
    );
    assert_eq!(acts.len(), 1);
    match &acts[0] {
        Action::CopyFile { reason, .. } => assert_eq!(*reason, Reason::SizeMismatch),
        other => panic!("expected a copy, got {:?}", kind_of(other)),
    }
}

#[test]
fn new_directory_created_before_copy() {
    // A file under a brand-new relative directory: the directory creation
    // comes first, then the copy, with reason "does not exist".
    let opts = options(Direction::Pull, false, false, &[]);
    let acts = run(
        vec![entry("/src/b/g.txt", "g.txt", 3, 7)],
        vec![],
        vec![],
        vec![],
        &opts,
    );
    assert_eq!(acts.len(), 2);
    match &acts[0] {
        Action::CreateDir { path } => assert_eq!(path, "/dst/b"),
        other => panic!("expected a directory creation, got {:?}", kind_of(other)),
    }
    match &acts[1] {
        Action::CopyFile { src, dest, reason, .. } => {
            assert_eq!(src, "/src/b/g.txt");
            assert_eq!(dest, "/dst/b/g.txt");
            assert_eq!(*reason, Reason::DoesNotExist);
        }
        other => panic!("expected a copy, got {:?}", kind_of(other)),
    }
}

#[test]
fn orphan_kept_without_flag() {
    let opts = options(Direction::Pull, false, false, &[]);
    let acts = run(
        vec![entry("/src/a/f.txt", "f.txt", 10, 100)],
        vec![],
        vec![
            entry("/dst/a/f.txt", "f.txt", 10, 100),
            entry("/dst/a/old.txt", "old.txt", 4, 1),
        ],
        vec![],
        &opts,
    );
    assert!(acts.is_empty());
}

#[test]
fn orphan_deleted_with_flag() {
    let opts = options(Direction::Pull, false, true, &[]);
    let acts = run(
        vec![entry("/src/a/f.txt", "f.txt", 10, 100)],
        vec![],
        vec![
            entry("/dst/a/f.txt", "f.txt", 10, 100),
            entry("/dst/a/old.txt", "old.txt", 4, 1),
        ],
        vec![],
        &opts,
    );
    assert_eq!(acts.len(), 1);
    match &acts[0] {
        Action::RemoveFile { path } => assert_eq!(path, "/dst/a/old.txt"),
        other => panic!("expected a file removal, got {:?}", kind_of(other)),
    }
}

#[test]
fn trailing_dot_counterpart_is_not_an_orphan() {
    // Source holds "name." which the destination side stores as "name":
    // the destination file only fails to match because of the reserved
    // trailing dot, so it must not be deleted. The copy pass, however,
    // does not apply the adjustment and still copies "name.".
    let opts = options(Direction::Pull, false, true, &[]);
    let acts = run(
        vec![entry("/src/a/name.", "name.", 5, 10)],
        vec![],
        vec![entry("/dst/a/name", "name", 5, 10)],
        vec![],
        &opts,
    );
    assert!(acts.iter().all(|a| !matches!(a, Action::RemoveFile { .. })));
    assert_eq!(
        acts.iter()
            .filter(|a| matches!(a, Action::CopyFile { reason: Reason::DoesNotExist, .. }))
            .count(),
        1
    );
}

#[test]
fn ignored_directory_is_only_reported() {
    let opts = options(Direction::Pull, false, true, &["skip"]);
    let acts = run(
        vec![entry("/src/skip/deep/h.txt", "h.txt", 8, 2)],
        vec![],
        vec![],
        vec![],
        &opts,
    );
    assert_eq!(acts.len(), 1);
    match &acts[0] {
        Action::SkipIgnored { dir } => assert_eq!(dir, "skip/deep"),
        other => panic!("expected a skip report, got {:?}", kind_of(other)),
    }
}

#[test]
fn ignored_empty_directory_is_not_created() {
    let opts = options(Direction::Pull, false, false, &["skip"]);
    let acts = run(
        vec![],
        vec!["/src/skip/inner", "/src/keep"],
        vec![],
        vec![],
        &opts,
    );
    assert_eq!(acts.len(), 1);
    match &acts[0] {
        Action::CreateDir { path } => assert_eq!(path, "/dst/keep"),
        other => panic!("expected a directory creation, got {:?}", kind_of(other)),
    }
}

#[test]
fn source_empty_directory_created_exactly_once() {
    // Source empty directory b/ unknown to the destination: exactly one
    // createDirectory(dest/b) and no file operation at all.
    let opts = options(Direction::Pull, false, false, &[]);
    let acts = run(vec![], vec!["/src/b"], vec![], vec![], &opts);
    assert_eq!(acts.len(), 1);
    match &acts[0] {
        Action::CreateDir { path } => assert_eq!(path, "/dst/b"),
        other => panic!("expected a directory creation, got {:?}", kind_of(other)),
    }
}

#[test]
fn destination_empty_directory_removed_only_with_flag() {
    let keep = options(Direction::Pull, false, false, &[]);
    let acts = run(vec![], vec![], vec![], vec!["/dst/c"], &keep);
    assert!(acts.is_empty());

    let sweep = options(Direction::Pull, false, true, &[]);
    let acts = run(vec![], vec![], vec![], vec!["/dst/c"], &sweep);
    assert_eq!(acts.len(), 1);
    match &acts[0] {
        Action::RemoveDir { path } => assert_eq!(path, "/dst/c"),
        other => panic!("expected a directory removal, got {:?}", kind_of(other)),
    }
}

#[test]
fn shared_empty_directory_untouched() {
    let opts = options(Direction::Pull, false, true, &[]);
    let acts = run(vec![], vec!["/src/b"], vec![], vec!["/dst/b"], &opts);
    assert!(acts.is_empty());
}

#[test]
fn destination_only_directory_removed_recursively() {
    let opts = options(Direction::Pull, false, true, &[]);
    let acts = run(
        vec![],
        vec![],
        vec![entry("/dst/gone/x.txt", "x.txt", 1, 1)],
        vec![],
        &opts,
    );
    assert_eq!(acts.len(), 1);
    match &acts[0] {
        Action::RemoveDir { path } => assert_eq!(path, "/dst/gone"),
        other => panic!("expected a directory removal, got {:?}", kind_of(other)),
    }
}

#[test]
fn push_with_times_sets_mtime_explicitly() {
    // On a push the transfer primitive cannot be trusted to preserve the
    // timestamp, so the engine sets it explicitly after the copy.
    let opts = options(Direction::Push, true, false, &[]);
    let acts = run(
        vec![entry("/src/a/f.txt", "f.txt", 10, 100)],
        vec![],
        vec![entry("/dst/a/f.txt", "f.txt", 9, 100)],
        vec![],
        &opts,
    );
    assert_eq!(acts.len(), 2);
    match &acts[0] {
        Action::CopyFile { preserve_mtime, .. } => assert!(!*preserve_mtime),
        other => panic!("expected a copy, got {:?}", kind_of(other)),
    }
    match &acts[1] {
        Action::SetModifiedTime { path, modified } => {
            assert_eq!(path, "/dst/a/f.txt");
            assert_eq!(*modified, 100);
        }
        other => panic!("expected a time update, got {:?}", kind_of(other)),
    }
}

#[test]
fn pull_with_times_preserves_in_transfer() {
    let opts = options(Direction::Pull, true, false, &[]);
    let acts = run(
        vec![entry("/src/a/f.txt", "f.txt", 10, 100)],
        vec![],
        vec![entry("/dst/a/f.txt", "f.txt", 9, 100)],
        vec![],
        &opts,
    );
    assert_eq!(acts.len(), 1);
    match &acts[0] {
        Action::CopyFile { preserve_mtime, .. } => assert!(*preserve_mtime),
        other => panic!("expected a copy, got {:?}", kind_of(other)),
    }
}

#[test]
fn listing_outside_root_is_fatal() {
    let opts = options(Direction::Pull, false, false, &[]);
    let r = synchronize(
        &"/src".to_string(),
        &"/dst".to_string(),
        &vec![entry("/elsewhere/f.txt", "f.txt", 1, 1)],
        &vec![],
        &vec![],
        &vec![],
        &opts,
    );
    match r {
        Err(SyncError::NotUnderRoot { path, root }) => {
            assert_eq!(path, "/elsewhere/f.txt");
            assert_eq!(root, "/src");
            let msg = SyncError::NotUnderRoot { path, root }.message();
            assert_eq!(msg, "listed path '/elsewhere/f.txt' is not under root '/src'");
        }
        Ok(_) => panic!("a path outside the root must abort the run"),
    }
}

#[test]
fn partition_groups_by_parent_directory() {
    let files = vec![
        entry("/src/a/f.txt", "f.txt", 1, 1),
        entry("/src/a/g.txt", "g.txt", 2, 2),
        entry("/src/top.txt", "top.txt", 3, 3),
        entry("/src/a/b/h.txt", "h.txt", 4, 4),
    ];
    let m = partition(&files, &"/src".to_string()).expect("all under root");
    assert_eq!(m.buckets.len(), 3);
    assert_eq!(m.buckets[0].key, "a");
    assert_eq!(m.buckets[0].files.len(), 2);
    assert_eq!(m.buckets[1].key, "");
    assert_eq!(m.buckets[1].files.len(), 1);
    assert_eq!(m.buckets[2].key, "a/b");
    assert_eq!(m.buckets[2].files.len(), 1);
}

#[test]
fn classify_matches_the_rule() {
    let af = entry("/src/a/f", "f", 10, 100);
    assert_eq!(classify(&af, None), Decision::Transfer { reason: Reason::DoesNotExist });
    let same = entry("/dst/a/f", "f", 10, 100);
    assert_eq!(classify(&af, Some(&same)), Decision::InSync);
    let newer_dest = entry("/dst/a/f", "f", 10, 150);
    assert_eq!(classify(&af, Some(&newer_dest)), Decision::InSync);
    let older_dest = entry("/dst/a/f", "f", 10, 50);
    assert_eq!(classify(&af, Some(&older_dest)), Decision::Transfer { reason: Reason::Newer });
    let other_size = entry("/dst/a/f", "f", 11, 150);
    assert_eq!(
        classify(&af, Some(&other_size)),
        Decision::Transfer { reason: Reason::SizeMismatch }
    );
}

#[test]
fn second_run_is_quiet() {
    // Convergence: run once, apply the plan to the destination snapshot,
    // run again over the updated snapshot — the second plan is empty.
    let opts = options(Direction::Pull, false, true, &[]);
    let src_files = vec![entry("/src/a/f.txt", "f.txt", 10, 100)];
    let src_empty = vec!["/src/b"];
    let dest_files = vec![
        entry("/dst/a/f.txt", "f.txt", 5, 50),
        entry("/dst/a/old.txt", "old.txt", 4, 1),
    ];
    let dest_empty = vec!["/dst/c"];
    let first = run(src_files.clone(), src_empty.clone(), dest_files, dest_empty, &opts);
    assert_eq!(first.len(), 4);
    assert!(matches!(&first[0], Action::CopyFile { reason: Reason::SizeMismatch, .. }));
    assert!(matches!(&first[1], Action::RemoveFile { .. }));
    assert!(matches!(&first[2], Action::CreateDir { .. }));
    assert!(matches!(&first[3], Action::RemoveDir { .. }));

    // The destination after those four actions: f.txt carries the source
    // state, old.txt and c/ are gone, b/ exists and is empty.
    let dest_files_after = vec![entry("/dst/a/f.txt", "f.txt", 10, 100)];
    let dest_empty_after = vec!["/dst/b"];
    let second = run(src_files, src_empty, dest_files_after, dest_empty_after, &opts);
    assert!(second.is_empty());
}

#[test]
fn root_level_file_creates_destination_root() {
    // A file directly under the source root lives in the bucket with the
    // empty relative key; a missing destination counterpart creates the
    // destination root itself.
    let opts = options(Direction::Pull, false, false, &[]);
    let acts = run(
        vec![entry("/src/top.txt", "top.txt", 1, 1)],
        vec![],
        vec![],
        vec![],
        &opts,
    );
    assert_eq!(acts.len(), 2);
    match &acts[0] {
        Action::CreateDir { path } => assert_eq!(path, "/dst"),
        other => panic!("expected a directory creation, got {:?}", kind_of(other)),
    }
    match &acts[1] {
        Action::CopyFile { dest, .. } => assert_eq!(dest, "/dst/top.txt"),
        other => panic!("expected a copy, got {:?}", kind_of(other)),
    }
}

#[test]
fn ignored_source_directory_shields_destination_counterpart() {
    // An ignored source directory still consumes its destination bucket,
    // so the destination directory is not swept as a leftover even with
    // orphan deletion on.
    let opts = options(Direction::Pull, false, true, &["skip"]);
    let acts = run(
        vec![entry("/src/skip/f.txt", "f.txt", 1, 1)],
        vec![],
        vec![entry("/dst/skip/old.txt", "old.txt", 2, 2)],
        vec![],
        &opts,
    );
    assert_eq!(acts.len(), 1);
    assert!(matches!(&acts[0], Action::SkipIgnored { .. }));
}

#[test]
fn destination_only_ignored_directory_still_swept() {
    // The ignore filter scopes the source classification pass only: a
    // destination-only directory under an ignored prefix has no source
    // bucket to consume it and is still removed by the orphan cleanup.
    let opts = options(Direction::Pull, false, true, &["skip"]);
    let acts = run(
        vec![],
        vec![],
        vec![entry("/dst/skip/old.txt", "old.txt", 2, 2)],
        vec![],
        &opts,
    );
    assert_eq!(acts.len(), 1);
    match &acts[0] {
        Action::RemoveDir { path } => assert_eq!(path, "/dst/skip"),
        other => panic!("expected a directory removal, got {:?}", kind_of(other)),
    }
}

#[test]
fn any_matching_prefix_ignores_a_directory() {
    // The test is a plain string prefix test: "tmp" also covers "tmpdir".
    let opts = options(Direction::Pull, false, false, &["cache", "tmp"]);
    let acts = run(
        vec![
            entry("/src/tmpdir/a.txt", "a.txt", 1, 1),
            entry("/src/cache/b.txt", "b.txt", 1, 1),
            entry("/src/data/c.txt", "c.txt", 1, 1),
        ],
        vec![],
        vec![],
        vec![],
        &opts,
    );
    let skips = acts.iter().filter(|a| matches!(a, Action::SkipIgnored { .. })).count();
    let copies = acts.iter().filter(|a| matches!(a, Action::CopyFile { .. })).count();
    let creations = acts.iter().filter(|a| matches!(a, Action::CreateDir { .. })).count();
    assert_eq!(skips, 2);
    assert_eq!(copies, 1);
    assert_eq!(creations, 1);
}

#[test]
fn duplicate_empty_dir_listings_create_once() {
    let opts = options(Direction::Pull, false, false, &[]);
    let acts = run(vec![], vec!["/src/b", "/src/b"], vec![], vec![], &opts);
    assert_eq!(acts.len(), 1);
    assert!(matches!(&acts[0], Action::CreateDir { .. }));
}

fn kind_of(a: &Action) -> &'static str {
    match a {
        Action::CopyFile { .. } => "copy",
        Action::SetModifiedTime { .. } => "set-modified-time",
        Action::CreateDir { .. } => "create-dir",
        Action::RemoveFile { .. } => "remove-file",
        Action::RemoveDir { .. } => "remove-dir",
        Action::SkipIgnored { .. } => "skip-ignored",
    }
}
