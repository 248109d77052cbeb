//! Per-file and per-directory synchronization decisions: change detection,
//! the ignore filter, and the actions for one source directory bucket.

use vstd::prelude::*;
use vstd::string::StringExecFns;
use crate::model::{Action, ActionModel, Direction, EntryModel, OptionsModel, Reason, SyncEntry,
    SyncOptions};
use crate::partition::{BucketModel, DirBucket};
use crate::paths::{is_prefix_of, join_under, joined, str_starts_with};

verus! {

/// What to do about one source file, given its destination counterpart.
#[derive(Clone, Copy, PartialEq, Eq, Structural, Debug)]
pub enum Decision {
    /// Copy the source file to the destination.
    Transfer { reason: Reason },
    /// The pair is already in sync; no action.
    InSync,
}

/// The change-detection rule: no counterpart means copy; a size difference
/// means copy regardless of timestamps; equal sizes copy only when the
/// source is strictly newer.
pub open spec fn decide(af: EntryModel, lf: Option<EntryModel>) -> Decision {
    match lf {
        None => Decision::Transfer { reason: Reason::DoesNotExist },
        Some(l) => if af.size != l.size {
            Decision::Transfer { reason: Reason::SizeMismatch }
        } else if af.modified > l.modified {
            Decision::Transfer { reason: Reason::Newer }
        } else {
            Decision::InSync
        },
    }
}

/// Classify one source file against its destination counterpart, if any.
pub fn classify(af: &SyncEntry, lf: Option<&SyncEntry>) -> (r: Decision)
    ensures
        r == decide(af@, lf.deep_view()),
{
    match lf {
        None => Decision::Transfer { reason: Reason::DoesNotExist },
        Some(l) => if af.size != l.size {
            Decision::Transfer { reason: Reason::SizeMismatch }
        } else if af.modified > l.modified {
            Decision::Transfer { reason: Reason::Newer }
        } else {
            Decision::InSync
        },
    }
}

/// A relative directory is ignored iff it starts with one of the configured
/// prefixes, as a plain string prefix test.
pub open spec fn ignored_dir(dir: Seq<char>, prefixes: Seq<Seq<char>>) -> bool {
    exists|i: int| 0 <= i < prefixes.len() && is_prefix_of(prefixes[i], dir)
}

/// Test a relative directory against the ignored prefixes.
pub fn is_ignored(dir: &String, prefixes: &Vec<String>) -> (r: bool)
    ensures
        r == ignored_dir(dir@, prefixes.deep_view()),
{
    let n = prefixes.len();
    let mut i: usize = 0;
    while i < n
        invariant
            i <= n,
            n == prefixes.len(),
            forall|j: int|
                0 <= j < i ==> !is_prefix_of(#[trigger] prefixes.deep_view()[j], dir@),
        decreases n - i,
    {
        if str_starts_with(dir.as_str(), prefixes[i].as_str()) {
            proof {
                assert(is_prefix_of(prefixes.deep_view()[i as int], dir@));
            }
            return true;
        }
        proof {
            assert(!is_prefix_of(prefixes.deep_view()[i as int], dir@));
        }
        i = i + 1;
    }
    false
}

/// The first file with the given name, if any: identity within one bucket
/// is the file name alone.
pub open spec fn find_by_name(files: Seq<EntryModel>, name: Seq<char>) -> Option<EntryModel>
    decreases files.len(),
{
    if files.len() == 0 {
        None
    } else if files.first().name == name {
        Some(files.first())
    } else {
        find_by_name(files.drop_first(), name)
    }
}

/// Look a name up in a bucket's files.
pub fn find_name_index(files: &Vec<SyncEntry>, name: &String) -> (r: Option<usize>)
    ensures
        match r {
            Some(i) => i < files.len() && find_by_name(files.deep_view(), name@) == Some(
                files.deep_view()[i as int],
            ),
            None => find_by_name(files.deep_view(), name@) is None,
        },
{
    let ghost dv = files.deep_view();
    proof {
        assert(dv.skip(0) =~= dv);
    }
    let n = files.len();
    let mut i: usize = 0;
    while i < n
        invariant
            i <= n,
            n == files.len(),
            dv == files.deep_view(),
            dv.len() == n,
            find_by_name(dv, name@) == find_by_name(dv.skip(i as int), name@),
        decreases n - i,
    {
        proof {
            assert(dv.skip(i as int).first() == dv[i as int]);
        }
        if files[i].name == *name {
            proof {
                assert(dv[i as int] == files@[i as int]@);
            }
            return Some(i);
        }
        proof {
            assert(dv[i as int] == files@[i as int]@);
            assert(dv.skip(i as int).drop_first() =~= dv.skip(i + 1));
        }
        i = i + 1;
    }
    proof {
        assert(dv.skip(n as int) =~= Seq::<EntryModel>::empty());
    }
    None
}

/// The files of an optional bucket.
pub open spec fn files_of(d: Option<BucketModel>) -> Option<Seq<EntryModel>> {
    match d {
        None => None,
        Some(b) => Some(b.files),
    }
}

/// The actions for one source file: nothing when in sync; otherwise a copy
/// to the counterpart's own path (or to the joined destination path when no
/// counterpart exists), followed, when modification times are propagated on
/// a push, by an explicit set of the destination's modification time. On a
/// pull the transfer primitive itself preserves the time instead.
pub open spec fn file_actions(
    af: EntryModel,
    lf: Option<EntryModel>,
    dir_key: Seq<char>,
    dest_root: Seq<char>,
    opts: OptionsModel,
) -> Seq<ActionModel> {
    match decide(af, lf) {
        Decision::InSync => Seq::empty(),
        Decision::Transfer { reason } => {
            let dest_path = match lf {
                Some(l) => l.path,
                None => joined(joined(dest_root, dir_key), af.name),
            };
            let copy = ActionModel::CopyFile {
                src: af.path,
                dest: dest_path,
                reason: reason,
                preserve_mtime: opts.propagate_mtime && opts.direction == Direction::Pull,
            };
            if opts.propagate_mtime && opts.direction == Direction::Push {
                seq![copy, ActionModel::SetModifiedTime { path: dest_path, modified: af.modified }]
            } else {
                seq![copy]
            }
        },
    }
}

/// Emit the actions for one source file.
fn file_step(
    af: &SyncEntry,
    lf: Option<&SyncEntry>,
    dir_key: &String,
    dest_root: &String,
    opts: &SyncOptions,
    out: &mut Vec<Action>,
)
    ensures
        final(out).deep_view() == old(out).deep_view() + file_actions(
            af@,
            lf.deep_view(),
            dir_key@,
            dest_root@,
            opts@,
        ),
{
    let ghost dv0 = old(out).deep_view();
    let decision = classify(af, lf);
    match decision {
        Decision::InSync => {
            proof {
                assert(out.deep_view() =~= dv0 + file_actions(
                    af@,
                    lf.deep_view(),
                    dir_key@,
                    dest_root@,
                    opts@,
                ));
            }
        },
        Decision::Transfer { reason } => {
            let dest_path = match lf {
                Some(l) => l.path.clone(),
                None => join_under(&join_under(dest_root, dir_key.as_str()), af.name.as_str()),
            };
            let preserve = opts.propagate_mtime && opts.direction == Direction::Pull;
            let explicit_mtime = opts.propagate_mtime && opts.direction == Direction::Push;
            let copy = Action::CopyFile {
                src: af.path.clone(),
                dest: dest_path.clone(),
                reason: reason,
                preserve_mtime: preserve,
            };
            out.push(copy);
            if explicit_mtime {
                out.push(Action::SetModifiedTime { path: dest_path, modified: af.modified });
            }
            proof {
                assert(out.deep_view() =~= dv0 + file_actions(
                    af@,
                    lf.deep_view(),
                    dir_key@,
                    dest_root@,
                    opts@,
                ));
            }
        },
    }
}

/// The copy/skip actions for every file of one source bucket, in listing
/// order, each matched against the destination bucket by name.
pub open spec fn files_pass(
    afs: Seq<EntryModel>,
    dest: Option<Seq<EntryModel>>,
    dir_key: Seq<char>,
    dest_root: Seq<char>,
    opts: OptionsModel,
) -> Seq<ActionModel>
    decreases afs.len(),
{
    if afs.len() == 0 {
        Seq::empty()
    } else {
        files_pass(afs.drop_last(), dest, dir_key, dest_root, opts) + file_actions(
            afs.last(),
            match dest {
                None => None,
                Some(d) => find_by_name(d, afs.last().name),
            },
            dir_key,
            dest_root,
            opts,
        )
    }
}

/// The deletions of destination files with no source counterpart. A
/// destination file is kept when a source file carries its name, or its
/// name with a trailing `.` re-appended (a name one side cannot store).
pub open spec fn orphan_deletions(dest_files: Seq<EntryModel>, afs: Seq<EntryModel>) -> Seq<
    ActionModel,
>
    decreases dest_files.len(),
{
    if dest_files.len() == 0 {
        Seq::empty()
    } else {
        orphan_deletions(dest_files.drop_last(), afs) + ({
            let lf = dest_files.last();
            if find_by_name(afs, lf.name) is None && find_by_name(afs, lf.name.push('.'))
                is None {
                seq![ActionModel::RemoveFile { path: lf.path }]
            } else {
                Seq::empty()
            }
        })
    }
}

/// All actions for one source bucket: a skip report when the directory is
/// ignored; otherwise directory creation when the destination lacks the
/// bucket, then the per-file actions, then (when orphan deletion is on and
/// the destination bucket existed) the orphan file deletions.
pub open spec fn bucket_actions(
    key: Seq<char>,
    afs: Seq<EntryModel>,
    dest: Option<Seq<EntryModel>>,
    dest_root: Seq<char>,
    opts: OptionsModel,
) -> Seq<ActionModel> {
    if ignored_dir(key, opts.ignored_prefixes) {
        seq![ActionModel::SkipIgnored { dir: key }]
    } else {
        (if dest is None {
            seq![ActionModel::CreateDir { path: joined(dest_root, key) }]
        } else {
            Seq::empty()
        }) + files_pass(afs, dest, key, dest_root, opts) + (match dest {
            Some(d) => if opts.delete_orphans {
                orphan_deletions(d, afs)
            } else {
                Seq::empty()
            },
            None => Seq::empty(),
        })
    }
}

/// Compute the actions for one source bucket against its (already removed)
/// destination counterpart.
pub fn sync_bucket(
    src_bucket: &DirBucket,
    dest_bucket: &Option<DirBucket>,
    dest_root: &String,
    opts: &SyncOptions,
) -> (r: Vec<Action>)
    ensures
        r.deep_view() == bucket_actions(
            src_bucket@.key,
            src_bucket@.files,
            files_of(dest_bucket.deep_view()),
            dest_root@,
            opts@,
        ),
{
    let ghost key = src_bucket@.key;
    let ghost afs = src_bucket@.files;
    let ghost dfo = files_of(dest_bucket.deep_view());
    let mut out: Vec<Action> = Vec::new();
    if is_ignored(&src_bucket.key, &opts.ignored_prefixes) {
        out.push(Action::SkipIgnored { dir: src_bucket.key.clone() });
        proof {
            assert(out.deep_view() =~= bucket_actions(key, afs, dfo, dest_root@, opts@));
        }
        return out;
    }
    if dest_bucket.is_none() {
        out.push(Action::CreateDir { path: join_under(dest_root, src_bucket.key.as_str()) });
    }
    let ghost header = out.deep_view();
    proof {
        assert(header =~= if dfo is None {
            seq![ActionModel::CreateDir { path: joined(dest_root@, key) }]
        } else {
            Seq::<ActionModel>::empty()
        });
    }
    let n = src_bucket.files.len();
    let mut i: usize = 0;
    while i < n
        invariant
            i <= n,
            n == src_bucket.files.len(),
            afs == src_bucket@.files,
            key == src_bucket@.key,
            dfo == files_of(dest_bucket.deep_view()),
            afs.len() == n,
            out.deep_view() == header + files_pass(afs.take(i as int), dfo, key, dest_root@, opts@),
        decreases n - i,
    {
        let af = &src_bucket.files[i];
        proof {
            assert(af@ == afs[i as int]);
        }
        let lf_index = match dest_bucket {
            None => None,
            Some(db) => find_name_index(&db.files, &af.name),
        };
        match lf_index {
            Some(j) => {
                let db = dest_bucket.as_ref().unwrap();
                file_step(af, Some(&db.files[j]), &src_bucket.key, dest_root, opts, &mut out);
            },
            None => {
                file_step(af, None, &src_bucket.key, dest_root, opts, &mut out);
            },
        }
        proof {
            assert(afs.take(i + 1).drop_last() =~= afs.take(i as int));
            assert(afs.take(i + 1).last() == afs[i as int]);
        }
        i = i + 1;
    }
    proof {
        assert(afs.take(n as int) =~= afs);
    }
    if opts.delete_orphans {
        if let Some(db) = dest_bucket {
            let ghost dfs = db@.files;
            let ghost mid = out.deep_view();
            let m = db.files.len();
            let mut j: usize = 0;
            while j < m
                invariant
                    j <= m,
                    m == db.files.len(),
                    dfs == db@.files,
                    afs == src_bucket@.files,
                    dfs.len() == m,
                    out.deep_view() == mid + orphan_deletions(dfs.take(j as int), afs),
                decreases m - j,
            {
                let lf = &db.files[j];
                proof {
                    assert(lf@ == dfs[j as int]);
                }
                let ghost pre_dv = out.deep_view();
                if find_name_index(&src_bucket.files, &lf.name).is_none() {
                    let dotted = lf.name.clone().concat(".");
                    proof {
                        reveal_strlit(".");
                        assert(dotted@ =~= lf@.name.push('.'));
                    }
                    if find_name_index(&src_bucket.files, &dotted).is_none() {
                        out.push(Action::RemoveFile { path: lf.path.clone() });
                        proof {
                            assert(out.deep_view() =~= pre_dv.push(
                                ActionModel::RemoveFile { path: dfs[j as int].path },
                            ));
                        }
                    }
                }
                proof {
                    assert(dfs.take(j + 1).drop_last() =~= dfs.take(j as int));
                    assert(dfs.take(j + 1).last() == dfs[j as int]);
                    assert(out.deep_view() =~= mid + orphan_deletions(dfs.take(j + 1), afs));
                }
                j = j + 1;
            }
            proof {
                assert(dfs.take(m as int) =~= dfs);
            }
        }
    }
    proof {
        assert(out.deep_view() =~= bucket_actions(key, afs, dfo, dest_root@, opts@));
    }
    out
}

} // verus!
