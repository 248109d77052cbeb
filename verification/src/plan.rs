//! The whole-run plan: the pass over every source bucket, empty-directory
//! reconciliation, destination-only directory cleanup, and `synchronize`,
//! which strings them together.

use vstd::prelude::*;
use crate::engine::{bucket_actions, files_of, ignored_dir, is_ignored, sync_bucket};
use crate::model::{Action, ActionModel, EntryModel, OptionsModel, SyncEntry, SyncError,
    SyncOptions};
use crate::partition::{bucket_index, lemma_bucket_index, partition, partition_of, BucketModel,
    DirFileMap};
use crate::paths::{join_under, joined, rel_under, strip_root};

verus! {

/// Outcome of the pass over the source buckets: the actions emitted, and
/// the destination buckets no source bucket consumed.
pub ghost struct PassModel {
    pub actions: Seq<ActionModel>,
    pub remaining: Seq<BucketModel>,
}

/// The pass over the source buckets, in order. Each source bucket consumes
/// the destination bucket with its key (whether or not the directory is
/// ignored) and contributes its actions.
pub open spec fn pass(
    src: Seq<BucketModel>,
    dest: Seq<BucketModel>,
    dest_root: Seq<char>,
    opts: OptionsModel,
) -> PassModel
    decreases src.len(),
{
    if src.len() == 0 {
        PassModel { actions: Seq::empty(), remaining: dest }
    } else {
        let b = src.first();
        let i = bucket_index(dest, b.key);
        let dest_files = if i >= 0 {
            Some(dest[i].files)
        } else {
            None
        };
        let dest2 = if i >= 0 {
            dest.remove(i)
        } else {
            dest
        };
        let rest = pass(src.drop_first(), dest2, dest_root, opts);
        PassModel {
            actions: bucket_actions(b.key, b.files, dest_files, dest_root, opts) + rest.actions,
            remaining: rest.remaining,
        }
    }
}

/// Run the pass: emit the actions for every source bucket and strip the
/// consumed buckets out of the destination map.
pub fn run_pass(
    src_map: &DirFileMap,
    dest_map: &mut DirFileMap,
    dest_root: &String,
    opts: &SyncOptions,
) -> (r: Vec<Action>)
    ensures
        r.deep_view() == pass(src_map@, old(dest_map)@, dest_root@, opts@).actions,
        final(dest_map)@ == pass(src_map@, old(dest_map)@, dest_root@, opts@).remaining,
{
    let ghost src = src_map@;
    let ghost full = pass(src_map@, old(dest_map)@, dest_root@, opts@);
    let mut out: Vec<Action> = Vec::new();
    proof {
        assert(src.skip(0) =~= src);
        assert(out.deep_view() =~= Seq::<ActionModel>::empty());
        assert(out.deep_view() + pass(src.skip(0), dest_map@, dest_root@, opts@).actions
            =~= full.actions);
    }
    let n = src_map.buckets.len();
    let mut i: usize = 0;
    while i < n
        invariant
            i <= n,
            n == src_map.buckets.len(),
            src == src_map@,
            src.len() == n,
            out.deep_view() + pass(src.skip(i as int), dest_map@, dest_root@, opts@).actions
                == full.actions,
            pass(src.skip(i as int), dest_map@, dest_root@, opts@).remaining == full.remaining,
        decreases n - i,
    {
        let b = &src_map.buckets[i];
        proof {
            assert(b@ == src[i as int]);
            assert(src.skip(i as int).first() == src[i as int]);
            assert(src.skip(i as int).drop_first() =~= src.skip(i + 1));
            lemma_bucket_index(dest_map@, b@.key);
        }
        let ghost dest_before = dest_map@;
        let taken = dest_map.take_bucket(&b.key);
        proof {
            assert(files_of(taken.deep_view()) == (if bucket_index(dest_before, b@.key) >= 0 {
                Some(dest_before[bucket_index(dest_before, b@.key)].files)
            } else {
                None::<Seq<EntryModel>>
            }));
        }
        let mut acts = sync_bucket(b, &taken, dest_root, opts);
        let ghost pre_dv = out.deep_view();
        let ghost acts_dv = acts.deep_view();
        out.append(&mut acts);
        proof {
            assert(out.deep_view() =~= pre_dv + acts_dv);
        }
        i = i + 1;
    }
    proof {
        assert(src.skip(n as int) =~= Seq::<BucketModel>::empty());
        assert(out.deep_view() + Seq::<ActionModel>::empty() =~= out.deep_view());
    }
    out
}

/// Every listed directory path turned into its root-relative form, in
/// order. `None` when one of them does not fall under the root.
pub open spec fn rels_under(paths: Seq<Seq<char>>, root: Seq<char>) -> Option<Seq<Seq<char>>>
    decreases paths.len(),
{
    if paths.len() == 0 {
        Some(Seq::empty())
    } else {
        match rels_under(paths.drop_last(), root) {
            None => None,
            Some(rs) => match rel_under(paths.last(), root) {
                None => None,
                Some(r) => Some(rs.push(r)),
            },
        }
    }
}

/// When some listed path does not fall under the root, the whole relative
/// list is undefined.
proof fn lemma_rels_prefix_none(paths: Seq<Seq<char>>, root: Seq<char>, k: int)
    requires
        0 <= k < paths.len(),
        rel_under(paths[k], root) is None,
    ensures
        rels_under(paths, root) is None,
    decreases paths.len(),
{
    if paths.len() > 0 && k < paths.len() - 1 {
        lemma_rels_prefix_none(paths.drop_last(), root, k);
    }
}

/// Strip the root off every listed directory path.
pub fn rel_dirs(paths: &Vec<String>, root: &String) -> (r: Result<Vec<String>, SyncError>)
    ensures
        r matches Ok(v) ==> rels_under(paths.deep_view(), root@) == Some(v.deep_view()),
        r is Err ==> rels_under(paths.deep_view(), root@) is None,
        r matches Err(e) ==> {
            &&& e matches SyncError::NotUnderRoot { path, root: r2 }
            &&& r2@ == root@
            &&& rel_under(path@, root@) is None
            &&& exists|k: int|
                0 <= k < paths.deep_view().len() && #[trigger] paths.deep_view()[k] == path@
        },
{
    let ghost dv = paths.deep_view();
    let mut out: Vec<String> = Vec::new();
    proof {
        assert(dv.take(0) =~= Seq::<Seq<char>>::empty());
        assert(out.deep_view() =~= Seq::<Seq<char>>::empty());
    }
    let n = paths.len();
    let mut i: usize = 0;
    while i < n
        invariant
            i <= n,
            n == paths.len(),
            dv == paths.deep_view(),
            dv.len() == n,
            rels_under(dv.take(i as int), root@) == Some(out.deep_view()),
        decreases n - i,
    {
        let p = &paths[i];
        proof {
            assert(p@ == dv[i as int]);
        }
        match strip_root(p, root) {
            None => {
                proof {
                    lemma_rels_prefix_none(dv, root@, i as int);
                }
                return Err(SyncError::NotUnderRoot { path: p.clone(), root: root.clone() });
            },
            Some(rel) => {
                let ghost pre = out.deep_view();
                let ghost relv = rel@;
                out.push(rel);
                proof {
                    assert(out.deep_view() =~= pre.push(relv));
                    assert(dv.take(i + 1).drop_last() =~= dv.take(i as int));
                    assert(dv.take(i + 1).last() == dv[i as int]);
                }
            },
        }
        i = i + 1;
    }
    proof {
        assert(dv.take(n as int) =~= dv);
    }
    Ok(out)
}

/// The relative directories that survive the ignore filter, in order.
pub open spec fn kept_rels(rels: Seq<Seq<char>>, prefixes: Seq<Seq<char>>) -> Seq<Seq<char>>
    decreases rels.len(),
{
    if rels.len() == 0 {
        Seq::empty()
    } else {
        kept_rels(rels.drop_last(), prefixes) + (if ignored_dir(rels.last(), prefixes) {
            Seq::empty()
        } else {
            seq![rels.last()]
        })
    }
}

/// Drop the relative directories matching an ignored prefix.
pub fn filter_ignored(rels: &Vec<String>, prefixes: &Vec<String>) -> (r: Vec<String>)
    ensures
        r.deep_view() == kept_rels(rels.deep_view(), prefixes.deep_view()),
{
    let ghost dv = rels.deep_view();
    let mut out: Vec<String> = Vec::new();
    proof {
        assert(dv.take(0) =~= Seq::<Seq<char>>::empty());
        assert(out.deep_view() =~= Seq::<Seq<char>>::empty());
    }
    let n = rels.len();
    let mut i: usize = 0;
    while i < n
        invariant
            i <= n,
            n == rels.len(),
            dv == rels.deep_view(),
            dv.len() == n,
            out.deep_view() == kept_rels(dv.take(i as int), prefixes.deep_view()),
        decreases n - i,
    {
        let p = &rels[i];
        proof {
            assert(p@ == dv[i as int]);
        }
        if !is_ignored(p, prefixes) {
            let ghost pre = out.deep_view();
            out.push(p.clone());
            proof {
                assert(out.deep_view() =~= pre.push(dv[i as int]));
            }
        }
        proof {
            assert(dv.take(i + 1).drop_last() =~= dv.take(i as int));
            assert(dv.take(i + 1).last() == dv[i as int]);
            assert(out.deep_view() =~= kept_rels(dv.take(i + 1), prefixes.deep_view()));
        }
        i = i + 1;
    }
    proof {
        assert(dv.take(n as int) =~= dv);
    }
    out
}

/// The distinct relative directories, keeping the first occurrence of each.
pub open spec fn distinct_rels(rels: Seq<Seq<char>>) -> Seq<Seq<char>>
    decreases rels.len(),
{
    if rels.len() == 0 {
        Seq::empty()
    } else {
        let d = distinct_rels(rels.drop_last());
        if d.contains(rels.last()) {
            d
        } else {
            d.push(rels.last())
        }
    }
}

/// Membership test on a list of relative directories.
pub fn contains_rel(v: &Vec<String>, s: &String) -> (r: bool)
    ensures
        r == v.deep_view().contains(s@),
{
    let n = v.len();
    let mut i: usize = 0;
    while i < n
        invariant
            i <= n,
            n == v.len(),
            forall|j: int| 0 <= j < i ==> #[trigger] v.deep_view()[j] != s@,
        decreases n - i,
    {
        if v[i] == *s {
            proof {
                assert(v.deep_view()[i as int] == s@);
            }
            return true;
        }
        proof {
            assert(v.deep_view()[i as int] == v@[i as int]@);
        }
        i = i + 1;
    }
    proof {
        assert(!v.deep_view().contains(s@));
    }
    false
}

/// Keep the first occurrence of each relative directory.
pub fn dedup_rels(rels: &Vec<String>) -> (r: Vec<String>)
    ensures
        r.deep_view() == distinct_rels(rels.deep_view()),
{
    let ghost dv = rels.deep_view();
    let mut out: Vec<String> = Vec::new();
    proof {
        assert(dv.take(0) =~= Seq::<Seq<char>>::empty());
        assert(out.deep_view() =~= Seq::<Seq<char>>::empty());
    }
    let n = rels.len();
    let mut i: usize = 0;
    while i < n
        invariant
            i <= n,
            n == rels.len(),
            dv == rels.deep_view(),
            dv.len() == n,
            out.deep_view() == distinct_rels(dv.take(i as int)),
        decreases n - i,
    {
        let p = &rels[i];
        proof {
            assert(p@ == dv[i as int]);
        }
        if !contains_rel(&out, p) {
            let ghost pre = out.deep_view();
            out.push(p.clone());
            proof {
                assert(out.deep_view() =~= pre.push(dv[i as int]));
            }
        }
        proof {
            assert(dv.take(i + 1).drop_last() =~= dv.take(i as int));
            assert(dv.take(i + 1).last() == dv[i as int]);
        }
        i = i + 1;
    }
    proof {
        assert(dv.take(n as int) =~= dv);
    }
    out
}

/// Directory creations for source-side empty directories the destination
/// does not have.
pub open spec fn empty_dir_creations(
    src_rels: Seq<Seq<char>>,
    dest_rels: Seq<Seq<char>>,
    dest_root: Seq<char>,
) -> Seq<ActionModel>
    decreases src_rels.len(),
{
    if src_rels.len() == 0 {
        Seq::empty()
    } else {
        empty_dir_creations(src_rels.drop_last(), dest_rels, dest_root) + (if !dest_rels.contains(
            src_rels.last(),
        ) {
            seq![ActionModel::CreateDir { path: joined(dest_root, src_rels.last()) }]
        } else {
            Seq::empty()
        })
    }
}

/// Directory removals for destination-side empty directories the source
/// does not have.
pub open spec fn empty_dir_removals(
    dest_rels: Seq<Seq<char>>,
    src_rels: Seq<Seq<char>>,
    dest_root: Seq<char>,
) -> Seq<ActionModel>
    decreases dest_rels.len(),
{
    if dest_rels.len() == 0 {
        Seq::empty()
    } else {
        empty_dir_removals(dest_rels.drop_last(), src_rels, dest_root) + (if !src_rels.contains(
            dest_rels.last(),
        ) {
            seq![ActionModel::RemoveDir { path: joined(dest_root, dest_rels.last()) }]
        } else {
            Seq::empty()
        })
    }
}

/// Recursive removals of the destination directories no source bucket
/// consumed.
pub open spec fn leftover_dir_removals(remaining: Seq<BucketModel>, dest_root: Seq<char>) -> Seq<
    ActionModel,
>
    decreases remaining.len(),
{
    if remaining.len() == 0 {
        Seq::empty()
    } else {
        leftover_dir_removals(remaining.drop_last(), dest_root) + seq![
            ActionModel::RemoveDir { path: joined(dest_root, remaining.last().key) },
        ]
    }
}

/// Emit `CreateDir` for each source-only relative directory.
fn make_empty_dir_creations(src_rels: &Vec<String>, dest_rels: &Vec<String>, dest_root: &String)
    -> (r: Vec<Action>)
    ensures
        r.deep_view() == empty_dir_creations(
            src_rels.deep_view(),
            dest_rels.deep_view(),
            dest_root@,
        ),
{
    let ghost dv = src_rels.deep_view();
    let mut out: Vec<Action> = Vec::new();
    proof {
        assert(dv.take(0) =~= Seq::<Seq<char>>::empty());
        assert(out.deep_view() =~= Seq::<ActionModel>::empty());
    }
    let n = src_rels.len();
    let mut i: usize = 0;
    while i < n
        invariant
            i <= n,
            n == src_rels.len(),
            dv == src_rels.deep_view(),
            dv.len() == n,
            out.deep_view() == empty_dir_creations(
                dv.take(i as int),
                dest_rels.deep_view(),
                dest_root@,
            ),
        decreases n - i,
    {
        let p = &src_rels[i];
        proof {
            assert(p@ == dv[i as int]);
        }
        if !contains_rel(dest_rels, p) {
            let ghost pre = out.deep_view();
            out.push(Action::CreateDir { path: join_under(dest_root, p.as_str()) });
            proof {
                assert(out.deep_view() =~= pre.push(
                    ActionModel::CreateDir { path: joined(dest_root@, dv[i as int]) },
                ));
            }
        }
        proof {
            assert(dv.take(i + 1).drop_last() =~= dv.take(i as int));
            assert(dv.take(i + 1).last() == dv[i as int]);
        }
        i = i + 1;
    }
    proof {
        assert(dv.take(n as int) =~= dv);
    }
    out
}

/// Emit `RemoveDir` for each destination-only relative directory.
fn make_empty_dir_removals(dest_rels: &Vec<String>, src_rels: &Vec<String>, dest_root: &String)
    -> (r: Vec<Action>)
    ensures
        r.deep_view() == empty_dir_removals(
            dest_rels.deep_view(),
            src_rels.deep_view(),
            dest_root@,
        ),
{
    let ghost dv = dest_rels.deep_view();
    let mut out: Vec<Action> = Vec::new();
    proof {
        assert(dv.take(0) =~= Seq::<Seq<char>>::empty());
        assert(out.deep_view() =~= Seq::<ActionModel>::empty());
    }
    let n = dest_rels.len();
    let mut i: usize = 0;
    while i < n
        invariant
            i <= n,
            n == dest_rels.len(),
            dv == dest_rels.deep_view(),
            dv.len() == n,
            out.deep_view() == empty_dir_removals(
                dv.take(i as int),
                src_rels.deep_view(),
                dest_root@,
            ),
        decreases n - i,
    {
        let p = &dest_rels[i];
        proof {
            assert(p@ == dv[i as int]);
        }
        if !contains_rel(src_rels, p) {
            let ghost pre = out.deep_view();
            out.push(Action::RemoveDir { path: join_under(dest_root, p.as_str()) });
            proof {
                assert(out.deep_view() =~= pre.push(
                    ActionModel::RemoveDir { path: joined(dest_root@, dv[i as int]) },
                ));
            }
        }
        proof {
            assert(dv.take(i + 1).drop_last() =~= dv.take(i as int));
            assert(dv.take(i + 1).last() == dv[i as int]);
        }
        i = i + 1;
    }
    proof {
        assert(dv.take(n as int) =~= dv);
    }
    out
}

/// Emit `RemoveDir` for each destination bucket no source bucket consumed.
fn make_leftover_dir_removals(remaining: &DirFileMap, dest_root: &String) -> (r: Vec<Action>)
    ensures
        r.deep_view() == leftover_dir_removals(remaining@, dest_root@),
{
    let ghost dv = remaining@;
    let mut out: Vec<Action> = Vec::new();
    proof {
        assert(dv.take(0) =~= Seq::<BucketModel>::empty());
        assert(out.deep_view() =~= Seq::<ActionModel>::empty());
    }
    let n = remaining.buckets.len();
    let mut i: usize = 0;
    while i < n
        invariant
            i <= n,
            n == remaining.buckets.len(),
            dv == remaining@,
            dv.len() == n,
            out.deep_view() == leftover_dir_removals(dv.take(i as int), dest_root@),
        decreases n - i,
    {
        let b = &remaining.buckets[i];
        proof {
            assert(b@ == dv[i as int]);
        }
        let ghost pre = out.deep_view();
        out.push(Action::RemoveDir { path: join_under(dest_root, b.key.as_str()) });
        proof {
            assert(out.deep_view() =~= pre.push(
                ActionModel::RemoveDir { path: joined(dest_root@, dv[i as int].key) },
            ));
            assert(dv.take(i + 1).drop_last() =~= dv.take(i as int));
            assert(dv.take(i + 1).last() == dv[i as int]);
        }
        i = i + 1;
    }
    proof {
        assert(dv.take(n as int) =~= dv);
    }
    out
}

/// Whether some listed file carries this path.
pub open spec fn has_path(files: Seq<EntryModel>, p: Seq<char>) -> bool {
    exists|k: int| 0 <= k < files.len() && (#[trigger] files[k]).path == p
}

/// The full plan of one run over the four listings, or `None` when some
/// listed path does not fall under its root.
pub open spec fn plan_of(
    src_files: Seq<EntryModel>,
    src_empty: Seq<Seq<char>>,
    dest_files: Seq<EntryModel>,
    dest_empty: Seq<Seq<char>>,
    source_root: Seq<char>,
    dest_root: Seq<char>,
    opts: OptionsModel,
) -> Option<Seq<ActionModel>> {
    match partition_of(src_files, source_root) {
        None => None,
        Some(src_map) => match partition_of(dest_files, dest_root) {
            None => None,
            Some(dest_map) => match rels_under(src_empty, source_root) {
                None => None,
                Some(se) => match rels_under(dest_empty, dest_root) {
                    None => None,
                    Some(de) => {
                        let src_e = distinct_rels(kept_rels(se, opts.ignored_prefixes));
                        let dest_e = distinct_rels(de);
                        let p = pass(src_map, dest_map, dest_root, opts);
                        Some(
                            p.actions + empty_dir_creations(src_e, dest_e, dest_root) + (
                            if opts.delete_orphans {
                                leftover_dir_removals(p.remaining, dest_root)
                                    + empty_dir_removals(dest_e, src_e, dest_root)
                            } else {
                                Seq::empty()
                            }),
                        )
                    },
                },
            },
        },
    }
}

/// One synchronization run, planned from a consistent snapshot pair: the
/// flat file listings and empty-directory listings of both trees. Returns
/// the actions to apply, in order, or the structural-inconsistency error
/// when a listed path does not fall under its declared root.
pub fn synchronize(
    source_root: &String,
    dest_root: &String,
    src_files: &Vec<SyncEntry>,
    src_empty_dirs: &Vec<String>,
    dest_files: &Vec<SyncEntry>,
    dest_empty_dirs: &Vec<String>,
    opts: &SyncOptions,
) -> (r: Result<Vec<Action>, SyncError>)
    ensures
        r is Ok <==> plan_of(
            src_files.deep_view(),
            src_empty_dirs.deep_view(),
            dest_files.deep_view(),
            dest_empty_dirs.deep_view(),
            source_root@,
            dest_root@,
            opts@,
        ) is Some,
        r matches Ok(acts) ==> Some(acts.deep_view()) == plan_of(
            src_files.deep_view(),
            src_empty_dirs.deep_view(),
            dest_files.deep_view(),
            dest_empty_dirs.deep_view(),
            source_root@,
            dest_root@,
            opts@,
        ),
        r matches Err(e) ==> {
            &&& e matches SyncError::NotUnderRoot { path, root }
            &&& rel_under(path@, root@) is None
            &&& ((root@ == source_root@ && (has_path(src_files.deep_view(), path@)
                || src_empty_dirs.deep_view().contains(path@))) || (root@ == dest_root@ && (
            has_path(dest_files.deep_view(), path@) || dest_empty_dirs.deep_view().contains(
                path@,
            ))))
        },
{
    let src_map = match partition(src_files, source_root) {
        Ok(m) => m,
        Err(e) => {
            return Err(e);
        },
    };
    let mut dest_map = match partition(dest_files, dest_root) {
        Ok(m) => m,
        Err(e) => {
            return Err(e);
        },
    };
    let src_rel_all = match rel_dirs(src_empty_dirs, source_root) {
        Ok(v) => v,
        Err(e) => {
            return Err(e);
        },
    };
    let dest_rel_all = match rel_dirs(dest_empty_dirs, dest_root) {
        Ok(v) => v,
        Err(e) => {
            return Err(e);
        },
    };
    let src_rels = dedup_rels(&filter_ignored(&src_rel_all, &opts.ignored_prefixes));
    let dest_rels = dedup_rels(&dest_rel_all);
    let mut out = run_pass(&src_map, &mut dest_map, dest_root, opts);
    let ghost pass_dv = out.deep_view();
    let mut creations = make_empty_dir_creations(&src_rels, &dest_rels, dest_root);
    let ghost creations_dv = creations.deep_view();
    out.append(&mut creations);
    proof {
        assert(out.deep_view() =~= pass_dv + creations_dv);
    }
    if opts.delete_orphans {
        let mut dir_removals = make_leftover_dir_removals(&dest_map, dest_root);
        let ghost dir_removals_dv = dir_removals.deep_view();
        let ghost before = out.deep_view();
        out.append(&mut dir_removals);
        proof {
            assert(out.deep_view() =~= before + dir_removals_dv);
        }
        let mut empty_removals = make_empty_dir_removals(&dest_rels, &src_rels, dest_root);
        let ghost empty_removals_dv = empty_removals.deep_view();
        let ghost before2 = out.deep_view();
        out.append(&mut empty_removals);
        proof {
            assert(out.deep_view() =~= before2 + empty_removals_dv);
            assert(out.deep_view() =~= pass_dv + creations_dv + (dir_removals_dv
                + empty_removals_dv));
        }
    } else {
        proof {
            assert(out.deep_view() =~= pass_dv + creations_dv + Seq::<ActionModel>::empty());
        }
    }
    Ok(out)
}

} // verus!
