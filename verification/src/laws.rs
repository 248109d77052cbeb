//! Laws of the synchronization engine, proved against the same spec
//! functions the public contracts use.

use vstd::prelude::*;
use crate::engine::{bucket_actions, decide, file_actions, files_pass, find_by_name, ignored_dir,
    orphan_deletions, Decision};
use crate::model::{ActionModel, EntryModel, OptionsModel, Reason};
use crate::partition::{bucket_index, insert_entry, lemma_bucket_index, partition_of, BucketModel};
use crate::paths::joined;
use crate::plan::{empty_dir_creations, empty_dir_removals, kept_rels, distinct_rels,
    leftover_dir_removals, pass, plan_of, rels_under};

verus! {

/// Size precedence: for a matched pair whose sizes differ, the decision is
/// a copy with reason `SizeMismatch`, whatever the two timestamps are.
pub proof fn lemma_size_precedence(af: EntryModel, lf: EntryModel)
    requires
        af.size != lf.size,
    ensures
        decide(af, Some(lf)) == (Decision::Transfer { reason: Reason::SizeMismatch }),
{
}

/// An already-in-sync pair: equal sizes and a source no newer than the
/// destination decide to no action.
pub proof fn lemma_in_sync_pair(af: EntryModel, lf: EntryModel)
    requires
        af.size == lf.size,
        af.modified <= lf.modified,
    ensures
        decide(af, Some(lf)) == Decision::InSync,
{
}

/// An ignored source directory contributes exactly one skip report and no
/// mutation, whatever the destination holds. (Scope: the source
/// classification pass; a destination-only directory under an ignored
/// prefix is still swept by the final orphan cleanup.)
pub proof fn lemma_ignored_bucket_untouched(
    key: Seq<char>,
    afs: Seq<EntryModel>,
    dest: Option<Seq<EntryModel>>,
    dest_root: Seq<char>,
    opts: OptionsModel,
)
    requires
        ignored_dir(key, opts.ignored_prefixes),
    ensures
        bucket_actions(key, afs, dest, dest_root, opts) == seq![
            ActionModel::SkipIgnored { dir: key },
        ],
{
}

/// An ignored relative directory never survives the ignore filter, so no
/// source-side empty directory under an ignored prefix is ever created.
pub proof fn lemma_ignored_rel_filtered(
    rels: Seq<Seq<char>>,
    prefixes: Seq<Seq<char>>,
    r: Seq<char>,
)
    requires
        ignored_dir(r, prefixes),
    ensures
        !kept_rels(rels, prefixes).contains(r),
    decreases rels.len(),
{
    if rels.len() > 0 {
        lemma_ignored_rel_filtered(rels.drop_last(), prefixes, r);
        let k = kept_rels(rels, prefixes);
        let k0 = kept_rels(rels.drop_last(), prefixes);
        if k.contains(r) {
            let j = choose|j: int| 0 <= j < k.len() && k[j] == r;
            if j < k0.len() {
                assert(k0[j] == k[j]);
                assert(k0.contains(r));
            } else {
                assert(k[j] == rels.last());
            }
        }
    }
}

/// The per-file pass emits only copies and modification-time updates.
pub proof fn lemma_files_pass_kinds(
    afs: Seq<EntryModel>,
    dest: Option<Seq<EntryModel>>,
    dir_key: Seq<char>,
    dest_root: Seq<char>,
    opts: OptionsModel,
)
    ensures
        forall|j: int|
            0 <= j < files_pass(afs, dest, dir_key, dest_root, opts).len() ==> (#[trigger] files_pass(
                afs,
                dest,
                dir_key,
                dest_root,
                opts,
            )[j] is CopyFile || files_pass(afs, dest, dir_key, dest_root, opts)[j]
                is SetModifiedTime),
    decreases afs.len(),
{
    if afs.len() > 0 {
        lemma_files_pass_kinds(afs.drop_last(), dest, dir_key, dest_root, opts);
    }
}

/// New-file creation: for a source directory absent on the destination and
/// not ignored, the very first action is the directory creation, and every
/// file of the bucket is copied (reason: it does not exist) after it.
pub proof fn lemma_new_directory_created_then_copied(
    key: Seq<char>,
    afs: Seq<EntryModel>,
    dest_root: Seq<char>,
    opts: OptionsModel,
)
    requires
        !ignored_dir(key, opts.ignored_prefixes),
    ensures
        ({
            let acts = bucket_actions(key, afs, None, dest_root, opts);
            &&& acts.len() >= 1
            &&& acts[0] == ActionModel::CreateDir { path: joined(dest_root, key) }
            &&& forall|k: int|
                0 <= k < afs.len() ==> exists|j: int|
                    1 <= j < acts.len() && acts[j] == copy_action_for(
                        #[trigger] afs[k],
                        key,
                        dest_root,
                        opts,
                    )
        }),
{
    let acts = bucket_actions(key, afs, None, dest_root, opts);
    let header = seq![ActionModel::CreateDir { path: joined(dest_root, key) }];
    let fp = files_pass(afs, None, key, dest_root, opts);
    assert(acts =~= header + fp);
    assert forall|k: int| 0 <= k < afs.len() implies exists|j: int|
        1 <= j < acts.len() && acts[j] == copy_action_for(
            #[trigger] afs[k],
            key,
            dest_root,
            opts,
        ) by {
        lemma_files_pass_dne_copy(afs, key, dest_root, opts, k);
        let j0 = choose|j0: int|
            0 <= j0 < fp.len() && fp[j0] == copy_action_for(afs[k], key, dest_root, opts);
        assert(acts[j0 + 1] == fp[j0]);
    }
}

/// The copy a source file gets when it has no destination counterpart.
pub open spec fn copy_action_for(
    af: EntryModel,
    key: Seq<char>,
    dest_root: Seq<char>,
    opts: OptionsModel,
) -> ActionModel {
    ActionModel::CopyFile {
        src: af.path,
        dest: joined(joined(dest_root, key), af.name),
        reason: Reason::DoesNotExist,
        preserve_mtime: opts.propagate_mtime && opts.direction == crate::model::Direction::Pull,
    }
}

proof fn lemma_files_pass_dne_copy(
    afs: Seq<EntryModel>,
    key: Seq<char>,
    dest_root: Seq<char>,
    opts: OptionsModel,
    k: int,
)
    requires
        0 <= k < afs.len(),
    ensures
        exists|j: int|
            0 <= j < files_pass(afs, None, key, dest_root, opts).len() && files_pass(
                afs,
                None,
                key,
                dest_root,
                opts,
            )[j] == copy_action_for(afs[k], key, dest_root, opts),
    decreases afs.len(),
{
    let fp = files_pass(afs, None, key, dest_root, opts);
    let pre = files_pass(afs.drop_last(), None, key, dest_root, opts);
    let fa = file_actions(afs.last(), None, key, dest_root, opts);
    if k == afs.len() - 1 {
        assert(fa[0] == copy_action_for(afs[k], key, dest_root, opts));
        assert(fp[pre.len() as int] == fa[0]);
    } else {
        assert(afs.drop_last()[k] == afs[k]);
        lemma_files_pass_dne_copy(afs.drop_last(), key, dest_root, opts, k);
        let j0 = choose|j0: int|
            0 <= j0 < pre.len() && pre[j0] == copy_action_for(afs[k], key, dest_root, opts);
        assert(fp[j0] == pre[j0]);
    }
}

/// Orphan deletion, positive direction: a destination file matched by no
/// source name, not even after re-appending the reserved trailing dot, is
/// deleted.
pub proof fn lemma_orphan_deleted(dfs: Seq<EntryModel>, afs: Seq<EntryModel>, k: int)
    requires
        0 <= k < dfs.len(),
        find_by_name(afs, dfs[k].name) is None,
        find_by_name(afs, dfs[k].name.push('.')) is None,
    ensures
        orphan_deletions(dfs, afs).contains(ActionModel::RemoveFile { path: dfs[k].path }),
    decreases dfs.len(),
{
    let od = orphan_deletions(dfs, afs);
    let pre = orphan_deletions(dfs.drop_last(), afs);
    if k == dfs.len() - 1 {
        assert(od[pre.len() as int] == ActionModel::RemoveFile { path: dfs[k].path });
    } else {
        assert(dfs.drop_last()[k] == dfs[k]);
        lemma_orphan_deleted(dfs.drop_last(), afs, k);
        let j0 = choose|j0: int|
            0 <= j0 < pre.len() && pre[j0] == ActionModel::RemoveFile { path: dfs[k].path };
        assert(od[j0] == pre[j0]);
    }
}

/// Orphan deletion, negative direction: a destination file whose name is
/// matched by a source file — directly or after re-appending the trailing
/// dot — is never deleted.
pub proof fn lemma_orphan_kept(dfs: Seq<EntryModel>, afs: Seq<EntryModel>, p: Seq<char>)
    requires
        forall|k: int|
            0 <= k < dfs.len() && (#[trigger] dfs[k].path) == p ==> (find_by_name(afs, dfs[k].name)
                is Some || find_by_name(afs, dfs[k].name.push('.')) is Some),
    ensures
        !orphan_deletions(dfs, afs).contains(ActionModel::RemoveFile { path: p }),
    decreases dfs.len(),
{
    let od = orphan_deletions(dfs, afs);
    if dfs.len() > 0 {
        assert(forall|k: int|
            0 <= k < dfs.drop_last().len() ==> (#[trigger] dfs.drop_last()[k]) == dfs[k]);
        lemma_orphan_kept(dfs.drop_last(), afs, p);
        let pre = orphan_deletions(dfs.drop_last(), afs);
        if od.contains(ActionModel::RemoveFile { path: p }) {
            let j = choose|j: int|
                0 <= j < od.len() && od[j] == ActionModel::RemoveFile { path: p };
            if j < pre.len() {
                assert(pre[j] == od[j]);
                assert(pre.contains(ActionModel::RemoveFile { path: p }));
            } else {
                assert(dfs.last().path == p);
            }
        }
    }
}

/// Empty-directory mirroring, creation direction: a directory empty on the
/// source side and unknown to the destination's empty set is created.
pub proof fn lemma_empty_dir_created(
    src_rels: Seq<Seq<char>>,
    dest_rels: Seq<Seq<char>>,
    dest_root: Seq<char>,
    k: int,
)
    requires
        0 <= k < src_rels.len(),
        !dest_rels.contains(src_rels[k]),
    ensures
        empty_dir_creations(src_rels, dest_rels, dest_root).contains(
            ActionModel::CreateDir { path: joined(dest_root, src_rels[k]) },
        ),
    decreases src_rels.len(),
{
    let c = empty_dir_creations(src_rels, dest_rels, dest_root);
    let pre = empty_dir_creations(src_rels.drop_last(), dest_rels, dest_root);
    if k == src_rels.len() - 1 {
        assert(c[pre.len() as int] == ActionModel::CreateDir {
            path: joined(dest_root, src_rels[k]),
        });
    } else {
        assert(src_rels.drop_last()[k] == src_rels[k]);
        lemma_empty_dir_created(src_rels.drop_last(), dest_rels, dest_root, k);
        let j0 = choose|j0: int|
            0 <= j0 < pre.len() && pre[j0] == ActionModel::CreateDir {
                path: joined(dest_root, src_rels[k]),
            };
        assert(c[j0] == pre[j0]);
    }
}

/// Empty-directory mirroring, deletion direction: a directory empty on the
/// destination side with no source counterpart is listed for removal (the
/// plan includes these removals only when orphan deletion is on).
pub proof fn lemma_empty_dir_removed(
    dest_rels: Seq<Seq<char>>,
    src_rels: Seq<Seq<char>>,
    dest_root: Seq<char>,
    k: int,
)
    requires
        0 <= k < dest_rels.len(),
        !src_rels.contains(dest_rels[k]),
    ensures
        empty_dir_removals(dest_rels, src_rels, dest_root).contains(
            ActionModel::RemoveDir { path: joined(dest_root, dest_rels[k]) },
        ),
    decreases dest_rels.len(),
{
    let c = empty_dir_removals(dest_rels, src_rels, dest_root);
    let pre = empty_dir_removals(dest_rels.drop_last(), src_rels, dest_root);
    if k == dest_rels.len() - 1 {
        assert(c[pre.len() as int] == ActionModel::RemoveDir {
            path: joined(dest_root, dest_rels[k]),
        });
    } else {
        assert(dest_rels.drop_last()[k] == dest_rels[k]);
        lemma_empty_dir_removed(dest_rels.drop_last(), src_rels, dest_root, k);
        let j0 = choose|j0: int|
            0 <= j0 < pre.len() && pre[j0] == ActionModel::RemoveDir {
                path: joined(dest_root, dest_rels[k]),
            };
        assert(c[j0] == pre[j0]);
    }
}

/// A directory that is empty on both sides is not touched: no creation is
/// emitted for a relative path the destination's empty set already holds.
pub proof fn lemma_shared_empty_dir_untouched(
    src_rels: Seq<Seq<char>>,
    dest_rels: Seq<Seq<char>>,
    dest_root: Seq<char>,
    r: Seq<char>,
)
    requires
        dest_rels.contains(r),
    ensures
        !empty_dir_creations(src_rels, dest_rels, dest_root).contains(
            ActionModel::CreateDir { path: joined(dest_root, r) },
        ),
    decreases src_rels.len(),
{
    let c = empty_dir_creations(src_rels, dest_rels, dest_root);
    if src_rels.len() > 0 {
        lemma_shared_empty_dir_untouched(src_rels.drop_last(), dest_rels, dest_root, r);
        let pre = empty_dir_creations(src_rels.drop_last(), dest_rels, dest_root);
        if c.contains(ActionModel::CreateDir { path: joined(dest_root, r) }) {
            let j = choose|j: int|
                0 <= j < c.len() && c[j] == ActionModel::CreateDir {
                    path: joined(dest_root, r),
                };
            if j < pre.len() {
                assert(pre[j] == c[j]);
                assert(pre.contains(ActionModel::CreateDir { path: joined(dest_root, r) }));
            } else {
                assert(!dest_rels.contains(src_rels.last()));
                lemma_joined_injective(dest_root, src_rels.last(), r);
            }
        }
    }
}

proof fn lemma_bucket_no_removals(
    key: Seq<char>,
    afs: Seq<EntryModel>,
    dest: Option<Seq<EntryModel>>,
    dest_root: Seq<char>,
    opts: OptionsModel,
)
    requires
        !opts.delete_orphans,
    ensures
        forall|j: int|
            0 <= j < bucket_actions(key, afs, dest, dest_root, opts).len()
                ==> !((#[trigger] bucket_actions(key, afs, dest, dest_root, opts)[j])
                is RemoveFile) && !(bucket_actions(key, afs, dest, dest_root, opts)[j]
                is RemoveDir),
{
    lemma_files_pass_kinds(afs, dest, key, dest_root, opts);
}

proof fn lemma_pass_no_removals(
    src: Seq<BucketModel>,
    dest: Seq<BucketModel>,
    dest_root: Seq<char>,
    opts: OptionsModel,
)
    requires
        !opts.delete_orphans,
    ensures
        forall|j: int|
            0 <= j < pass(src, dest, dest_root, opts).actions.len() ==> !((#[trigger] pass(
                src,
                dest,
                dest_root,
                opts,
            ).actions[j]) is RemoveFile) && !(pass(src, dest, dest_root, opts).actions[j]
                is RemoveDir),
    decreases src.len(),
{
    if src.len() > 0 {
        let b = src.first();
        let i = bucket_index(dest, b.key);
        let dest_files = if i >= 0 {
            Some(dest[i].files)
        } else {
            None
        };
        let dest2 = if i >= 0 {
            dest.remove(i)
        } else {
            dest
        };
        lemma_bucket_no_removals(b.key, b.files, dest_files, dest_root, opts);
        lemma_pass_no_removals(src.drop_first(), dest2, dest_root, opts);
    }
}

proof fn lemma_creations_kinds(
    src_rels: Seq<Seq<char>>,
    dest_rels: Seq<Seq<char>>,
    dest_root: Seq<char>,
)
    ensures
        forall|j: int|
            0 <= j < empty_dir_creations(src_rels, dest_rels, dest_root).len()
                ==> (#[trigger] empty_dir_creations(src_rels, dest_rels, dest_root)[j])
                is CreateDir,
    decreases src_rels.len(),
{
    if src_rels.len() > 0 {
        lemma_creations_kinds(src_rels.drop_last(), dest_rels, dest_root);
    }
}

/// Orphan deletion is gated by the flag: with `delete_orphans` off, the
/// whole plan holds no file removal and no directory removal.
pub proof fn lemma_orphan_deletion_gated(
    src_files: Seq<EntryModel>,
    src_empty: Seq<Seq<char>>,
    dest_files: Seq<EntryModel>,
    dest_empty: Seq<Seq<char>>,
    source_root: Seq<char>,
    dest_root: Seq<char>,
    opts: OptionsModel,
)
    requires
        !opts.delete_orphans,
        plan_of(src_files, src_empty, dest_files, dest_empty, source_root, dest_root, opts)
            is Some,
    ensures
        forall|j: int|
            0 <= j < plan_of(
                src_files,
                src_empty,
                dest_files,
                dest_empty,
                source_root,
                dest_root,
                opts,
            ).unwrap().len() ==> !((#[trigger] plan_of(
                src_files,
                src_empty,
                dest_files,
                dest_empty,
                source_root,
                dest_root,
                opts,
            ).unwrap()[j]) is RemoveFile) && !(plan_of(
                src_files,
                src_empty,
                dest_files,
                dest_empty,
                source_root,
                dest_root,
                opts,
            ).unwrap()[j] is RemoveDir),
{
    let src_map = partition_of(src_files, source_root).unwrap();
    let dest_map = partition_of(dest_files, dest_root).unwrap();
    let se = rels_under(src_empty, source_root).unwrap();
    let de = rels_under(dest_empty, dest_root).unwrap();
    let src_e = distinct_rels(kept_rels(se, opts.ignored_prefixes));
    let dest_e = distinct_rels(de);
    lemma_pass_no_removals(src_map, dest_map, dest_root, opts);
    lemma_creations_kinds(src_e, dest_e, dest_root);
    let p = pass(src_map, dest_map, dest_root, opts);
    let cr = empty_dir_creations(src_e, dest_e, dest_root);
    let full = plan_of(
        src_files,
        src_empty,
        dest_files,
        dest_empty,
        source_root,
        dest_root,
        opts,
    ).unwrap();
    assert(full == p.actions + cr + Seq::<ActionModel>::empty());
    assert forall|j: int| 0 <= j < full.len() implies !((#[trigger] full[j]) is RemoveFile) && !(
    full[j] is RemoveDir) by {
        if j < p.actions.len() {
            assert(full[j] == p.actions[j]);
        } else {
            assert(full[j] == cr[j - p.actions.len()]);
        }
    }
}

/// Pairwise distinct bucket keys.
pub open spec fn unique_keys(m: Seq<BucketModel>) -> bool {
    forall|i: int, j: int| 0 <= i < j < m.len() ==> (#[trigger] m[i]).key != (#[trigger] m[j]).key
}

proof fn lemma_insert_entry_unique(m: Seq<BucketModel>, key: Seq<char>, e: EntryModel)
    requires
        unique_keys(m),
    ensures
        unique_keys(insert_entry(m, key, e)),
{
    lemma_bucket_index(m, key);
    let r = insert_entry(m, key, e);
    let i = bucket_index(m, key);
    if i >= 0 {
        assert forall|s: int, t: int| 0 <= s < t < r.len() implies r[s].key != r[t].key by {
            assert(r[s].key == m[s].key);
            assert(r[t].key == m[t].key);
        }
    } else {
        assert forall|s: int, t: int| 0 <= s < t < r.len() implies r[s].key != r[t].key by {
            if t < m.len() {
                assert(r[s].key == m[s].key);
                assert(r[t].key == m[t].key);
            } else {
                assert(r[s].key == m[s].key);
                assert(r[t].key == key);
            }
        }
    }
}

/// A partition never holds two buckets with one key.
pub proof fn lemma_partition_unique(files: Seq<EntryModel>, root: Seq<char>)
    requires
        partition_of(files, root) is Some,
    ensures
        unique_keys(partition_of(files, root).unwrap()),
    decreases files.len(),
{
    if files.len() > 0 {
        lemma_partition_unique(files.drop_last(), root);
        let m = partition_of(files.drop_last(), root).unwrap();
        let rel = crate::paths::rel_under(files.last().path, root).unwrap();
        lemma_insert_entry_unique(m, crate::paths::dir_of(rel), files.last());
    }
}

/// A destination file is matched when some source file carries its name,
/// directly or after re-appending the reserved trailing dot.
pub open spec fn matched_in(afs: Seq<EntryModel>, lf: EntryModel) -> bool {
    find_by_name(afs, lf.name) is Some || find_by_name(afs, lf.name.push('.')) is Some
}

/// One directory pair in sync: every source file decides to no action, and
/// (when orphan deletion is on) every destination file is matched.
pub open spec fn bucket_synced(
    afs: Seq<EntryModel>,
    dfs: Seq<EntryModel>,
    opts: OptionsModel,
) -> bool {
    &&& forall|k: int|
        0 <= k < afs.len() ==> decide(
            #[trigger] afs[k],
            find_by_name(dfs, afs[k].name),
        ) == Decision::InSync
    &&& (opts.delete_orphans ==> forall|k: int|
        0 <= k < dfs.len() ==> matched_in(afs, #[trigger] dfs[k]))
}

/// The whole destination mirrors the source: every non-ignored source
/// bucket has an in-sync destination bucket; with orphan deletion on,
/// every destination bucket has a source counterpart; the (filtered,
/// distinct) source empty set is contained in the destination's, and with
/// orphan deletion on also the other way round.
pub open spec fn trees_synced(
    src_map: Seq<BucketModel>,
    dest_map: Seq<BucketModel>,
    src_e: Seq<Seq<char>>,
    dest_e: Seq<Seq<char>>,
    opts: OptionsModel,
) -> bool {
    &&& forall|i: int|
        0 <= i < src_map.len() ==> (ignored_dir(
            (#[trigger] src_map[i]).key,
            opts.ignored_prefixes,
        ) || (bucket_index(dest_map, src_map[i].key) >= 0 && bucket_synced(
            src_map[i].files,
            dest_map[bucket_index(dest_map, src_map[i].key)].files,
            opts,
        )))
    &&& (opts.delete_orphans ==> forall|j: int|
        0 <= j < dest_map.len() ==> exists|i: int|
            0 <= i < src_map.len() && (#[trigger] dest_map[j]).key == src_map[i].key)
    &&& forall|k: int| 0 <= k < src_e.len() ==> dest_e.contains(#[trigger] src_e[k])
    &&& (opts.delete_orphans ==> forall|k: int|
        0 <= k < dest_e.len() ==> src_e.contains(#[trigger] dest_e[k]))
}

proof fn lemma_files_pass_synced_empty(
    afs: Seq<EntryModel>,
    dfs: Seq<EntryModel>,
    dir_key: Seq<char>,
    dest_root: Seq<char>,
    opts: OptionsModel,
)
    requires
        forall|k: int|
            0 <= k < afs.len() ==> decide(
                #[trigger] afs[k],
                find_by_name(dfs, afs[k].name),
            ) == Decision::InSync,
    ensures
        files_pass(afs, Some(dfs), dir_key, dest_root, opts) == Seq::<ActionModel>::empty(),
    decreases afs.len(),
{
    if afs.len() > 0 {
        assert(forall|k: int|
            0 <= k < afs.drop_last().len() ==> (#[trigger] afs.drop_last()[k]) == afs[k]);
        lemma_files_pass_synced_empty(afs.drop_last(), dfs, dir_key, dest_root, opts);
        assert(afs.last() == afs[afs.len() - 1]);
        assert(files_pass(afs, Some(dfs), dir_key, dest_root, opts) =~= Seq::<
            ActionModel,
        >::empty());
    }
}

proof fn lemma_orphans_synced_empty(dfs: Seq<EntryModel>, afs: Seq<EntryModel>)
    requires
        forall|k: int| 0 <= k < dfs.len() ==> matched_in(afs, #[trigger] dfs[k]),
    ensures
        orphan_deletions(dfs, afs) == Seq::<ActionModel>::empty(),
    decreases dfs.len(),
{
    if dfs.len() > 0 {
        assert(forall|k: int|
            0 <= k < dfs.drop_last().len() ==> (#[trigger] dfs.drop_last()[k]) == dfs[k]);
        lemma_orphans_synced_empty(dfs.drop_last(), afs);
        assert(dfs.last() == dfs[dfs.len() - 1]);
        assert(orphan_deletions(dfs, afs) =~= Seq::<ActionModel>::empty());
    }
}

proof fn lemma_bucket_synced_quiet(
    key: Seq<char>,
    afs: Seq<EntryModel>,
    dfs: Seq<EntryModel>,
    dest_root: Seq<char>,
    opts: OptionsModel,
)
    requires
        !ignored_dir(key, opts.ignored_prefixes),
        bucket_synced(afs, dfs, opts),
    ensures
        bucket_actions(key, afs, Some(dfs), dest_root, opts) == Seq::<ActionModel>::empty(),
{
    lemma_files_pass_synced_empty(afs, dfs, key, dest_root, opts);
    if opts.delete_orphans {
        lemma_orphans_synced_empty(dfs, afs);
    }
    assert(bucket_actions(key, afs, Some(dfs), dest_root, opts) =~= Seq::<ActionModel>::empty());
}

proof fn lemma_remove_preserves_lookup(m: Seq<BucketModel>, j0: int, key: Seq<char>)
    requires
        unique_keys(m),
        0 <= j0 < m.len(),
        m[j0].key != key,
    ensures
        unique_keys(m.remove(j0)),
        (bucket_index(m.remove(j0), key) >= 0) <==> (bucket_index(m, key) >= 0),
        bucket_index(m, key) >= 0 ==> m.remove(j0)[bucket_index(m.remove(j0), key)] == m[
            bucket_index(m, key)],
{
    lemma_bucket_index(m, key);
    let r = m.remove(j0);
    assert(forall|i: int| 0 <= i < j0 ==> (#[trigger] r[i]) == m[i]);
    assert(forall|i: int| j0 <= i < r.len() ==> (#[trigger] r[i]) == m[i + 1]);
    assert forall|s: int, t: int| 0 <= s < t < r.len() implies r[s].key != r[t].key by {}
    lemma_bucket_index(r, key);
    let i1 = bucket_index(m, key);
    let i2 = bucket_index(r, key);
    if i1 >= 0 {
        let i1p = if i1 < j0 {
            i1
        } else {
            i1 - 1
        };
        assert(r[i1p] == m[i1]);
        if i2 == -1 {
            assert(r[i1p].key == key);
        } else {
            if i2 < i1p {
                assert(r[i2].key == key);
                assert(forall|t: int|
                    0 <= t < m.len() && t != i1 ==> (#[trigger] m[t]).key != key);
            }
            if i2 > i1p {
                assert(r[i1p].key == key);
            }
        }
    } else {
        if i2 >= 0 {
            assert(r[i2].key == key);
        }
    }
}

proof fn lemma_pass_quiet(
    src: Seq<BucketModel>,
    dest: Seq<BucketModel>,
    dest_root: Seq<char>,
    opts: OptionsModel,
)
    requires
        unique_keys(src),
        unique_keys(dest),
        forall|i: int|
            0 <= i < src.len() ==> (ignored_dir((#[trigger] src[i]).key, opts.ignored_prefixes)
                || (bucket_index(dest, src[i].key) >= 0 && bucket_synced(
                src[i].files,
                dest[bucket_index(dest, src[i].key)].files,
                opts,
            ))),
        opts.delete_orphans ==> forall|j: int|
            0 <= j < dest.len() ==> exists|i: int|
                0 <= i < src.len() && (#[trigger] dest[j]).key == src[i].key,
    ensures
        forall|t: int|
            0 <= t < pass(src, dest, dest_root, opts).actions.len() ==> (#[trigger] pass(
                src,
                dest,
                dest_root,
                opts,
            ).actions[t]) is SkipIgnored,
        opts.delete_orphans ==> pass(src, dest, dest_root, opts).remaining.len() == 0,
    decreases src.len(),
{
    if src.len() == 0 {
        if opts.delete_orphans && dest.len() > 0 {
            assert(exists|i: int| 0 <= i < src.len() && dest[0].key == src[i].key);
        }
    } else {
        let b = src.first();
        assert(b == src[0]);
        let i0 = bucket_index(dest, b.key);
        lemma_bucket_index(dest, b.key);
        let dest_files = if i0 >= 0 {
            Some(dest[i0].files)
        } else {
            None
        };
        let dest2 = if i0 >= 0 {
            dest.remove(i0)
        } else {
            dest
        };
        let acts0 = bucket_actions(b.key, b.files, dest_files, dest_root, opts);
        if ignored_dir(b.key, opts.ignored_prefixes) {
            assert(acts0 =~= seq![ActionModel::SkipIgnored { dir: b.key }]);
        } else {
            assert(i0 >= 0 && bucket_synced(b.files, dest[i0].files, opts));
            lemma_bucket_synced_quiet(b.key, b.files, dest[i0].files, dest_root, opts);
        }
        let tail = src.drop_first();
        assert(forall|i: int| 0 <= i < tail.len() ==> (#[trigger] tail[i]) == src[i + 1]);
        if i0 >= 0 {
            assert(forall|i: int| 0 <= i < i0 ==> (#[trigger] dest2[i]) == dest[i]);
            assert(forall|i: int|
                i0 <= i < dest2.len() ==> (#[trigger] dest2[i]) == dest[i + 1]);
            assert forall|s: int, t: int| 0 <= s < t < dest2.len() implies dest2[s].key
                != dest2[t].key by {}
        }
        assert forall|i: int|
            0 <= i < tail.len() && !ignored_dir(
                (#[trigger] tail[i]).key,
                opts.ignored_prefixes,
            ) implies (bucket_index(dest2, tail[i].key) >= 0 && bucket_synced(
            tail[i].files,
            dest2[bucket_index(dest2, tail[i].key)].files,
            opts,
        )) by {
            assert(tail[i] == src[i + 1]);
            assert(src[i + 1].key != src[0].key);
            if i0 >= 0 {
                lemma_remove_preserves_lookup(dest, i0, tail[i].key);
            }
        }
        if opts.delete_orphans {
            assert forall|j: int| 0 <= j < dest2.len() implies exists|i: int|
                0 <= i < tail.len() && (#[trigger] dest2[j]).key == tail[i].key by {
                let jorig = if i0 >= 0 && j >= i0 {
                    j + 1
                } else {
                    j
                };
                assert(dest2[j] == dest[jorig]);
                let iw = choose|i: int| 0 <= i < src.len() && dest[jorig].key == src[i].key;
                if iw == 0 {
                    if i0 >= 0 {
                        assert(jorig != i0);
                        assert(dest[jorig].key != dest[i0].key);
                        assert(dest[i0].key == b.key);
                        assert(false);
                    } else {
                        assert(forall|t: int|
                            0 <= t < dest.len() ==> (#[trigger] dest[t]).key != b.key);
                        assert(false);
                    }
                }
                assert(tail[iw - 1] == src[iw]);
                assert(0 <= iw - 1 < tail.len() && dest2[j].key == tail[iw - 1].key);
            }
        }
        lemma_pass_quiet(tail, dest2, dest_root, opts);
        let rest = pass(tail, dest2, dest_root, opts);
        assert(pass(src, dest, dest_root, opts).actions == acts0 + rest.actions);
        assert forall|t: int| 0 <= t < pass(src, dest, dest_root, opts).actions.len() implies (
        #[trigger] pass(src, dest, dest_root, opts).actions[t]) is SkipIgnored by {
            if t < acts0.len() {
                assert(pass(src, dest, dest_root, opts).actions[t] == acts0[t]);
            } else {
                assert(pass(src, dest, dest_root, opts).actions[t] == rest.actions[t
                    - acts0.len()]);
            }
        }
    }
}

proof fn lemma_creations_synced_empty(
    src_rels: Seq<Seq<char>>,
    dest_rels: Seq<Seq<char>>,
    dest_root: Seq<char>,
)
    requires
        forall|k: int| 0 <= k < src_rels.len() ==> dest_rels.contains(#[trigger] src_rels[k]),
    ensures
        empty_dir_creations(src_rels, dest_rels, dest_root) == Seq::<ActionModel>::empty(),
    decreases src_rels.len(),
{
    if src_rels.len() > 0 {
        assert(forall|k: int|
            0 <= k < src_rels.drop_last().len() ==> (#[trigger] src_rels.drop_last()[k])
                == src_rels[k]);
        lemma_creations_synced_empty(src_rels.drop_last(), dest_rels, dest_root);
        assert(src_rels.last() == src_rels[src_rels.len() - 1]);
        assert(empty_dir_creations(src_rels, dest_rels, dest_root) =~= Seq::<
            ActionModel,
        >::empty());
    }
}

proof fn lemma_removals_synced_empty(
    dest_rels: Seq<Seq<char>>,
    src_rels: Seq<Seq<char>>,
    dest_root: Seq<char>,
)
    requires
        forall|k: int| 0 <= k < dest_rels.len() ==> src_rels.contains(#[trigger] dest_rels[k]),
    ensures
        empty_dir_removals(dest_rels, src_rels, dest_root) == Seq::<ActionModel>::empty(),
    decreases dest_rels.len(),
{
    if dest_rels.len() > 0 {
        assert(forall|k: int|
            0 <= k < dest_rels.drop_last().len() ==> (#[trigger] dest_rels.drop_last()[k])
                == dest_rels[k]);
        lemma_removals_synced_empty(dest_rels.drop_last(), src_rels, dest_root);
        assert(dest_rels.last() == dest_rels[dest_rels.len() - 1]);
        assert(empty_dir_removals(dest_rels, src_rels, dest_root) =~= Seq::<
            ActionModel,
        >::empty());
    }
}

/// Convergence, quiescence direction: on a destination that already
/// mirrors the source under the run's options, the plan mutates nothing —
/// every action it holds is a skip report for an ignored directory, so a
/// second run over unchanged trees performs zero transfers and zero
/// deletions.
pub proof fn lemma_synced_plan_quiet(
    src_files: Seq<EntryModel>,
    src_empty: Seq<Seq<char>>,
    dest_files: Seq<EntryModel>,
    dest_empty: Seq<Seq<char>>,
    source_root: Seq<char>,
    dest_root: Seq<char>,
    opts: OptionsModel,
)
    requires
        plan_of(src_files, src_empty, dest_files, dest_empty, source_root, dest_root, opts)
            is Some,
        trees_synced(
            partition_of(src_files, source_root).unwrap(),
            partition_of(dest_files, dest_root).unwrap(),
            distinct_rels(
                kept_rels(rels_under(src_empty, source_root).unwrap(), opts.ignored_prefixes),
            ),
            distinct_rels(rels_under(dest_empty, dest_root).unwrap()),
            opts,
        ),
    ensures
        forall|t: int|
            0 <= t < plan_of(
                src_files,
                src_empty,
                dest_files,
                dest_empty,
                source_root,
                dest_root,
                opts,
            ).unwrap().len() ==> (#[trigger] plan_of(
                src_files,
                src_empty,
                dest_files,
                dest_empty,
                source_root,
                dest_root,
                opts,
            ).unwrap()[t]) is SkipIgnored,
{
    let src_map = partition_of(src_files, source_root).unwrap();
    let dest_map = partition_of(dest_files, dest_root).unwrap();
    let se = rels_under(src_empty, source_root).unwrap();
    let de = rels_under(dest_empty, dest_root).unwrap();
    let src_e = distinct_rels(kept_rels(se, opts.ignored_prefixes));
    let dest_e = distinct_rels(de);
    lemma_partition_unique(src_files, source_root);
    lemma_partition_unique(dest_files, dest_root);
    lemma_pass_quiet(src_map, dest_map, dest_root, opts);
    lemma_creations_synced_empty(src_e, dest_e, dest_root);
    let p = pass(src_map, dest_map, dest_root, opts);
    if opts.delete_orphans {
        lemma_removals_synced_empty(dest_e, src_e, dest_root);
        assert(p.remaining.len() == 0);
        assert(leftover_dir_removals(p.remaining, dest_root) == Seq::<ActionModel>::empty());
    }
    let full = plan_of(
        src_files,
        src_empty,
        dest_files,
        dest_empty,
        source_root,
        dest_root,
        opts,
    ).unwrap();
    assert(full =~= p.actions);
    assert forall|t: int| 0 <= t < full.len() implies (#[trigger] full[t]) is SkipIgnored by {
        assert(full[t] == p.actions[t]);
    }
}

proof fn lemma_bucket_index_absent_after_remove(m: Seq<BucketModel>, j0: int, key: Seq<char>)
    requires
        bucket_index(m, key) == -1,
        0 <= j0 < m.len(),
    ensures
        bucket_index(m.remove(j0), key) == -1,
{
    lemma_bucket_index(m, key);
    let r = m.remove(j0);
    assert(forall|i: int| 0 <= i < j0 ==> (#[trigger] r[i]) == m[i]);
    assert(forall|i: int| j0 <= i < r.len() ==> (#[trigger] r[i]) == m[i + 1]);
    lemma_bucket_index(r, key);
    if bucket_index(r, key) >= 0 {
        assert(r[bucket_index(r, key)].key == key);
    }
}

proof fn lemma_pass_contains_new_dir(
    src: Seq<BucketModel>,
    dest: Seq<BucketModel>,
    dest_root: Seq<char>,
    opts: OptionsModel,
    i: int,
)
    requires
        0 <= i < src.len(),
        !ignored_dir(src[i].key, opts.ignored_prefixes),
        bucket_index(dest, src[i].key) == -1,
    ensures
        ({
            let acts = pass(src, dest, dest_root, opts).actions;
            exists|c: int|
                {
                    &&& 0 <= c < acts.len()
                    &&& acts[c] == (ActionModel::CreateDir {
                        path: joined(dest_root, src[i].key),
                    })
                    &&& forall|k: int|
                        0 <= k < src[i].files.len() ==> exists|j: int|
                            c < j < acts.len() && acts[j] == copy_action_for(
                                #[trigger] src[i].files[k],
                                src[i].key,
                                dest_root,
                                opts,
                            )
                }
        }),
    decreases src.len(),
{
    let acts = pass(src, dest, dest_root, opts).actions;
    let b = src.first();
    let i0 = bucket_index(dest, b.key);
    lemma_bucket_index(dest, b.key);
    let dest_files = if i0 >= 0 {
        Some(dest[i0].files)
    } else {
        None
    };
    let dest2 = if i0 >= 0 {
        dest.remove(i0)
    } else {
        dest
    };
    let acts0 = bucket_actions(b.key, b.files, dest_files, dest_root, opts);
    let rest = pass(src.drop_first(), dest2, dest_root, opts).actions;
    assert(acts == acts0 + rest);
    if i == 0 {
        lemma_new_directory_created_then_copied(b.key, b.files, dest_root, opts);
        assert(acts[0] == acts0[0]);
        assert forall|k: int| 0 <= k < src[i].files.len() implies exists|j: int|
            0 < j < acts.len() && acts[j] == copy_action_for(
                #[trigger] src[i].files[k],
                src[i].key,
                dest_root,
                opts,
            ) by {
            let j0 = choose|j0: int|
                1 <= j0 < acts0.len() && acts0[j0] == copy_action_for(
                    src[i].files[k],
                    src[i].key,
                    dest_root,
                    opts,
                );
            assert(acts[j0] == acts0[j0]);
        }
        assert(acts[0] == (ActionModel::CreateDir { path: joined(dest_root, src[i].key) }));
    } else {
        assert(src.drop_first()[i - 1] == src[i]);
        if i0 >= 0 {
            lemma_bucket_index_absent_after_remove(dest, i0, src[i].key);
        }
        lemma_pass_contains_new_dir(src.drop_first(), dest2, dest_root, opts, i - 1);
        let cr = choose|cr: int|
            {
                &&& 0 <= cr < rest.len()
                &&& rest[cr] == (ActionModel::CreateDir { path: joined(dest_root, src[i].key) })
                &&& forall|k: int|
                    0 <= k < src[i].files.len() ==> exists|j: int|
                        cr < j < rest.len() && rest[j] == copy_action_for(
                            #[trigger] src[i].files[k],
                            src[i].key,
                            dest_root,
                            opts,
                        )
            };
        let c = cr + acts0.len();
        assert(acts[c] == rest[cr]);
        assert forall|k: int| 0 <= k < src[i].files.len() implies exists|j: int|
            c < j < acts.len() && acts[j] == copy_action_for(
                #[trigger] src[i].files[k],
                src[i].key,
                dest_root,
                opts,
            ) by {
            let jr = choose|jr: int|
                cr < jr < rest.len() && rest[jr] == copy_action_for(
                    src[i].files[k],
                    src[i].key,
                    dest_root,
                    opts,
                );
            assert(acts[jr + acts0.len()] == rest[jr]);
        }
    }
}

/// New-file creation at the plan level: for a source directory that is
/// not ignored and has no destination bucket, the plan holds the
/// directory creation, and every file of that bucket is copied after it.
pub proof fn lemma_plan_creates_new_directory_first(
    src_files: Seq<EntryModel>,
    src_empty: Seq<Seq<char>>,
    dest_files: Seq<EntryModel>,
    dest_empty: Seq<Seq<char>>,
    source_root: Seq<char>,
    dest_root: Seq<char>,
    opts: OptionsModel,
    i: int,
)
    requires
        plan_of(src_files, src_empty, dest_files, dest_empty, source_root, dest_root, opts)
            is Some,
        0 <= i < partition_of(src_files, source_root).unwrap().len(),
        !ignored_dir(
            partition_of(src_files, source_root).unwrap()[i].key,
            opts.ignored_prefixes,
        ),
        bucket_index(
            partition_of(dest_files, dest_root).unwrap(),
            partition_of(src_files, source_root).unwrap()[i].key,
        ) == -1,
    ensures
        ({
            let p = plan_of(
                src_files,
                src_empty,
                dest_files,
                dest_empty,
                source_root,
                dest_root,
                opts,
            ).unwrap();
            let bucket = partition_of(src_files, source_root).unwrap()[i];
            exists|c: int|
                {
                    &&& 0 <= c < p.len()
                    &&& p[c] == (ActionModel::CreateDir { path: joined(dest_root, bucket.key) })
                    &&& forall|k: int|
                        0 <= k < bucket.files.len() ==> exists|j: int|
                            c < j < p.len() && p[j] == copy_action_for(
                                #[trigger] bucket.files[k],
                                bucket.key,
                                dest_root,
                                opts,
                            )
                }
        }),
{
    let src_map = partition_of(src_files, source_root).unwrap();
    let dest_map = partition_of(dest_files, dest_root).unwrap();
    let p = plan_of(
        src_files,
        src_empty,
        dest_files,
        dest_empty,
        source_root,
        dest_root,
        opts,
    ).unwrap();
    let pa = pass(src_map, dest_map, dest_root, opts).actions;
    lemma_pass_contains_new_dir(src_map, dest_map, dest_root, opts, i);
    let bucket = src_map[i];
    let c = choose|c: int|
        {
            &&& 0 <= c < pa.len()
            &&& pa[c] == (ActionModel::CreateDir { path: joined(dest_root, bucket.key) })
            &&& forall|k: int|
                0 <= k < bucket.files.len() ==> exists|j: int|
                    c < j < pa.len() && pa[j] == copy_action_for(
                        #[trigger] bucket.files[k],
                        bucket.key,
                        dest_root,
                        opts,
                    )
        };
    assert(p[c] == pa[c]);
    assert forall|k: int| 0 <= k < bucket.files.len() implies exists|j: int|
        c < j < p.len() && p[j] == copy_action_for(
            #[trigger] bucket.files[k],
            bucket.key,
            dest_root,
            opts,
        ) by {
        let j0 = choose|j0: int|
            c < j0 < pa.len() && pa[j0] == copy_action_for(
                bucket.files[k],
                bucket.key,
                dest_root,
                opts,
            );
        assert(p[j0] == pa[j0]);
    }
}

proof fn lemma_bucket_deletes_orphan(
    key: Seq<char>,
    afs: Seq<EntryModel>,
    dfs: Seq<EntryModel>,
    dest_root: Seq<char>,
    opts: OptionsModel,
    k: int,
)
    requires
        !ignored_dir(key, opts.ignored_prefixes),
        opts.delete_orphans,
        0 <= k < dfs.len(),
        find_by_name(afs, dfs[k].name) is None,
        find_by_name(afs, dfs[k].name.push('.')) is None,
    ensures
        bucket_actions(key, afs, Some(dfs), dest_root, opts).contains(
            ActionModel::RemoveFile { path: dfs[k].path },
        ),
{
    lemma_orphan_deleted(dfs, afs, k);
    let acts = bucket_actions(key, afs, Some(dfs), dest_root, opts);
    let fp = files_pass(afs, Some(dfs), key, dest_root, opts);
    let od = orphan_deletions(dfs, afs);
    assert(acts =~= fp + od);
    let jo = choose|jo: int|
        0 <= jo < od.len() && od[jo] == (ActionModel::RemoveFile { path: dfs[k].path });
    assert(acts[fp.len() + jo] == od[jo]);
}

proof fn lemma_pass_deletes_orphan(
    src: Seq<BucketModel>,
    dest: Seq<BucketModel>,
    dest_root: Seq<char>,
    opts: OptionsModel,
    i: int,
    k: int,
)
    requires
        unique_keys(src),
        unique_keys(dest),
        opts.delete_orphans,
        0 <= i < src.len(),
        !ignored_dir(src[i].key, opts.ignored_prefixes),
        bucket_index(dest, src[i].key) >= 0,
        0 <= k < dest[bucket_index(dest, src[i].key)].files.len(),
        find_by_name(src[i].files, dest[bucket_index(dest, src[i].key)].files[k].name) is None,
        find_by_name(
            src[i].files,
            dest[bucket_index(dest, src[i].key)].files[k].name.push('.'),
        ) is None,
    ensures
        pass(src, dest, dest_root, opts).actions.contains(
            ActionModel::RemoveFile { path: dest[bucket_index(dest, src[i].key)].files[k].path },
        ),
    decreases src.len(),
{
    let acts = pass(src, dest, dest_root, opts).actions;
    let b = src.first();
    let i0 = bucket_index(dest, b.key);
    lemma_bucket_index(dest, b.key);
    let dest_files = if i0 >= 0 {
        Some(dest[i0].files)
    } else {
        None
    };
    let dest2 = if i0 >= 0 {
        dest.remove(i0)
    } else {
        dest
    };
    let acts0 = bucket_actions(b.key, b.files, dest_files, dest_root, opts);
    let rest = pass(src.drop_first(), dest2, dest_root, opts).actions;
    assert(acts == acts0 + rest);
    if i == 0 {
        lemma_bucket_deletes_orphan(
            b.key,
            b.files,
            dest[i0].files,
            dest_root,
            opts,
            k,
        );
        let target = ActionModel::RemoveFile { path: dest[i0].files[k].path };
        let jo = choose|jo: int| 0 <= jo < acts0.len() && acts0[jo] == target;
        assert(acts[jo] == acts0[jo]);
    } else {
        assert(src.drop_first()[i - 1] == src[i]);
        assert(src[0].key != src[i].key);
        let ji = bucket_index(dest, src[i].key);
        lemma_bucket_index(dest, src[i].key);
        if i0 >= 0 {
            assert(dest[i0].key == src[0].key);
            assert(dest[i0].key != src[i].key);
            lemma_remove_preserves_lookup(dest, i0, src[i].key);
            assert(dest2[bucket_index(dest2, src[i].key)] == dest[ji]);
        }
        assert(forall|s: int, t: int|
            0 <= s < t < src.drop_first().len() ==> (#[trigger] src.drop_first()[s]).key != (
            #[trigger] src.drop_first()[t]).key);
        lemma_pass_deletes_orphan(src.drop_first(), dest2, dest_root, opts, i - 1, k);
        let target = ActionModel::RemoveFile { path: dest[ji].files[k].path };
        let jr = choose|jr: int| 0 <= jr < rest.len() && rest[jr] == target;
        assert(acts[acts0.len() + jr] == rest[jr]);
    }
}

/// Orphan deletion at the plan level: with the flag on, a destination
/// file inside a matched, non-ignored directory whose name has no source
/// counterpart — not even after re-appending the reserved trailing dot —
/// is removed by the plan.
pub proof fn lemma_plan_deletes_orphan(
    src_files: Seq<EntryModel>,
    src_empty: Seq<Seq<char>>,
    dest_files: Seq<EntryModel>,
    dest_empty: Seq<Seq<char>>,
    source_root: Seq<char>,
    dest_root: Seq<char>,
    opts: OptionsModel,
    i: int,
    k: int,
)
    requires
        plan_of(src_files, src_empty, dest_files, dest_empty, source_root, dest_root, opts)
            is Some,
        opts.delete_orphans,
        0 <= i < partition_of(src_files, source_root).unwrap().len(),
        !ignored_dir(
            partition_of(src_files, source_root).unwrap()[i].key,
            opts.ignored_prefixes,
        ),
        bucket_index(
            partition_of(dest_files, dest_root).unwrap(),
            partition_of(src_files, source_root).unwrap()[i].key,
        ) >= 0,
        ({
            let src_map = partition_of(src_files, source_root).unwrap();
            let dest_map = partition_of(dest_files, dest_root).unwrap();
            let dfs = dest_map[bucket_index(dest_map, src_map[i].key)].files;
            &&& 0 <= k < dfs.len()
            &&& find_by_name(src_map[i].files, dfs[k].name) is None
            &&& find_by_name(src_map[i].files, dfs[k].name.push('.')) is None
        }),
    ensures
        ({
            let src_map = partition_of(src_files, source_root).unwrap();
            let dest_map = partition_of(dest_files, dest_root).unwrap();
            let dfs = dest_map[bucket_index(dest_map, src_map[i].key)].files;
            plan_of(
                src_files,
                src_empty,
                dest_files,
                dest_empty,
                source_root,
                dest_root,
                opts,
            ).unwrap().contains(ActionModel::RemoveFile { path: dfs[k].path })
        }),
{
    let src_map = partition_of(src_files, source_root).unwrap();
    let dest_map = partition_of(dest_files, dest_root).unwrap();
    lemma_partition_unique(src_files, source_root);
    lemma_partition_unique(dest_files, dest_root);
    lemma_pass_deletes_orphan(src_map, dest_map, dest_root, opts, i, k);
    let p = plan_of(
        src_files,
        src_empty,
        dest_files,
        dest_empty,
        source_root,
        dest_root,
        opts,
    ).unwrap();
    let pa = pass(src_map, dest_map, dest_root, opts).actions;
    let dfs = dest_map[bucket_index(dest_map, src_map[i].key)].files;
    let target = ActionModel::RemoveFile { path: dfs[k].path };
    let jp = choose|jp: int| 0 <= jp < pa.len() && pa[jp] == target;
    assert(p[jp] == pa[jp]);
}

proof fn lemma_find_by_name_distinct(afs: Seq<EntryModel>, k: int)
    requires
        0 <= k < afs.len(),
        forall|s: int, t: int|
            0 <= s < t < afs.len() ==> (#[trigger] afs[s]).name != (#[trigger] afs[t]).name,
    ensures
        find_by_name(afs, afs[k].name) == Some(afs[k]),
    decreases afs.len(),
{
    if k > 0 {
        assert(afs.first().name != afs[k].name);
        assert(forall|i: int|
            0 <= i < afs.drop_first().len() ==> (#[trigger] afs.drop_first()[i]) == afs[i + 1]);
        lemma_find_by_name_distinct(afs.drop_first(), k - 1);
    }
}

/// A destination map that equals the source map is in sync with it under
/// every option set, as is an equal pair of empty-directory sets: together
/// with the quiescence law, synchronizing a tree onto an identical tree
/// mutates nothing.
pub proof fn lemma_identical_trees_synced(
    m: Seq<BucketModel>,
    e: Seq<Seq<char>>,
    opts: OptionsModel,
)
    requires
        unique_keys(m),
        forall|i: int|
            0 <= i < m.len() ==> forall|s: int, t: int|
                0 <= s < t < (#[trigger] m[i]).files.len() ==> (#[trigger] m[i].files[s]).name
                    != (#[trigger] m[i].files[t]).name,
    ensures
        trees_synced(m, m, e, e, opts),
{
    assert forall|i: int|
        0 <= i < m.len() && !ignored_dir(
            (#[trigger] m[i]).key,
            opts.ignored_prefixes,
        ) implies (bucket_index(m, m[i].key) >= 0 && bucket_synced(
        m[i].files,
        m[bucket_index(m, m[i].key)].files,
        opts,
    )) by {
        lemma_bucket_index(m, m[i].key);
        let t = bucket_index(m, m[i].key);
        assert(t >= 0);
        assert(t == i);
        let afs = m[i].files;
        assert forall|k: int| 0 <= k < afs.len() implies decide(
            #[trigger] afs[k],
            find_by_name(afs, afs[k].name),
        ) == Decision::InSync by {
            lemma_find_by_name_distinct(afs, k);
        }
        assert forall|k: int| 0 <= k < afs.len() implies matched_in(afs, #[trigger] afs[k]) by {
            lemma_find_by_name_distinct(afs, k);
        }
    }
    assert forall|j: int| 0 <= j < m.len() implies exists|i: int|
        0 <= i < m.len() && (#[trigger] m[j]).key == m[i].key by {
        assert(m[j].key == m[j].key);
    }
    assert(forall|k: int| 0 <= k < e.len() ==> e.contains(#[trigger] e[k]));
}

proof fn lemma_orphans_kinds(dfs: Seq<EntryModel>, afs: Seq<EntryModel>)
    ensures
        forall|j: int|
            0 <= j < orphan_deletions(dfs, afs).len() ==> (#[trigger] orphan_deletions(
                dfs,
                afs,
            )[j]) is RemoveFile,
    decreases dfs.len(),
{
    if dfs.len() > 0 {
        lemma_orphans_kinds(dfs.drop_last(), afs);
    }
}

proof fn lemma_leftover_kinds(remaining: Seq<BucketModel>, dest_root: Seq<char>)
    ensures
        forall|j: int|
            0 <= j < leftover_dir_removals(remaining, dest_root).len()
                ==> (#[trigger] leftover_dir_removals(remaining, dest_root)[j]) is RemoveDir,
    decreases remaining.len(),
{
    if remaining.len() > 0 {
        lemma_leftover_kinds(remaining.drop_last(), dest_root);
    }
}

proof fn lemma_empty_removals_kinds(
    dest_rels: Seq<Seq<char>>,
    src_rels: Seq<Seq<char>>,
    dest_root: Seq<char>,
)
    ensures
        forall|j: int|
            0 <= j < empty_dir_removals(dest_rels, src_rels, dest_root).len()
                ==> (#[trigger] empty_dir_removals(dest_rels, src_rels, dest_root)[j])
                is RemoveDir,
    decreases dest_rels.len(),
{
    if dest_rels.len() > 0 {
        lemma_empty_removals_kinds(dest_rels.drop_last(), src_rels, dest_root);
    }
}

proof fn lemma_kept_rels_not_ignored(rels: Seq<Seq<char>>, prefixes: Seq<Seq<char>>)
    ensures
        forall|j: int|
            0 <= j < kept_rels(rels, prefixes).len() ==> !ignored_dir(
                #[trigger] kept_rels(rels, prefixes)[j],
                prefixes,
            ),
    decreases rels.len(),
{
    if rels.len() > 0 {
        lemma_kept_rels_not_ignored(rels.drop_last(), prefixes);
        let k = kept_rels(rels, prefixes);
        let k0 = kept_rels(rels.drop_last(), prefixes);
        assert forall|j: int| 0 <= j < k.len() implies !ignored_dir(
            #[trigger] k[j],
            prefixes,
        ) by {
            if j < k0.len() {
                assert(k[j] == k0[j]);
            } else {
                assert(!ignored_dir(rels.last(), prefixes));
                assert(k[j] == rels.last());
            }
        }
    }
}

proof fn lemma_distinct_subset(l: Seq<Seq<char>>)
    ensures
        forall|j: int| 0 <= j < distinct_rels(l).len() ==> l.contains(#[trigger] distinct_rels(l)[j]),
    decreases l.len(),
{
    if l.len() > 0 {
        lemma_distinct_subset(l.drop_last());
        let d0 = distinct_rels(l.drop_last());
        assert forall|j: int| 0 <= j < distinct_rels(l).len() implies l.contains(
            #[trigger] distinct_rels(l)[j],
        ) by {
            if j < d0.len() {
                assert(l.drop_last().contains(d0[j]));
                let w = choose|w: int| 0 <= w < l.drop_last().len() && l.drop_last()[w] == d0[j];
                assert(l[w] == d0[j]);
            } else {
                assert(l[l.len() - 1] == l.last());
            }
        }
    }
}

proof fn lemma_creations_avoid(
    src_rels: Seq<Seq<char>>,
    dest_rels: Seq<Seq<char>>,
    dest_root: Seq<char>,
    q: Seq<char>,
)
    requires
        forall|k: int| 0 <= k < src_rels.len() ==> (#[trigger] src_rels[k]) != q,
    ensures
        !empty_dir_creations(src_rels, dest_rels, dest_root).contains(
            ActionModel::CreateDir { path: joined(dest_root, q) },
        ),
    decreases src_rels.len(),
{
    let c = empty_dir_creations(src_rels, dest_rels, dest_root);
    if src_rels.len() > 0 {
        assert(forall|k: int|
            0 <= k < src_rels.drop_last().len() ==> (#[trigger] src_rels.drop_last()[k])
                == src_rels[k]);
        lemma_creations_avoid(src_rels.drop_last(), dest_rels, dest_root, q);
        let pre = empty_dir_creations(src_rels.drop_last(), dest_rels, dest_root);
        if c.contains(ActionModel::CreateDir { path: joined(dest_root, q) }) {
            let j = choose|j: int|
                0 <= j < c.len() && c[j] == (ActionModel::CreateDir {
                    path: joined(dest_root, q),
                });
            if j < pre.len() {
                assert(pre[j] == c[j]);
                assert(pre.contains(ActionModel::CreateDir { path: joined(dest_root, q) }));
            } else {
                assert(src_rels.last() == src_rels[src_rels.len() - 1]);
                lemma_joined_injective(dest_root, src_rels.last(), q);
            }
        }
    }
}

proof fn lemma_bucket_no_ignored_create(
    key: Seq<char>,
    afs: Seq<EntryModel>,
    dest: Option<Seq<EntryModel>>,
    dest_root: Seq<char>,
    opts: OptionsModel,
    q: Seq<char>,
)
    requires
        ignored_dir(q, opts.ignored_prefixes),
    ensures
        !bucket_actions(key, afs, dest, dest_root, opts).contains(
            ActionModel::CreateDir { path: joined(dest_root, q) },
        ),
{
    let acts = bucket_actions(key, afs, dest, dest_root, opts);
    let target = ActionModel::CreateDir { path: joined(dest_root, q) };
    if acts.contains(target) {
        let j = choose|j: int| 0 <= j < acts.len() && acts[j] == target;
        if ignored_dir(key, opts.ignored_prefixes) {
            assert(acts[0] is SkipIgnored);
        } else {
            let header: Seq<ActionModel> = if dest is None {
                seq![ActionModel::CreateDir { path: joined(dest_root, key) }]
            } else {
                Seq::empty()
            };
            let fp = files_pass(afs, dest, key, dest_root, opts);
            let tail: Seq<ActionModel> = match dest {
                Some(d) => if opts.delete_orphans {
                    orphan_deletions(d, afs)
                } else {
                    Seq::empty()
                },
                None => Seq::empty(),
            };
            assert(acts == header + fp + tail);
            lemma_files_pass_kinds(afs, dest, key, dest_root, opts);
            if dest is Some && opts.delete_orphans {
                lemma_orphans_kinds(dest.unwrap(), afs);
            }
            if j < header.len() {
                assert(acts[j] == header[j]);
                lemma_joined_injective(dest_root, key, q);
            } else if j < header.len() + fp.len() {
                assert(acts[j] == fp[j - header.len()]);
            } else {
                assert(acts[j] == tail[j - header.len() - fp.len()]);
            }
        }
    }
}

proof fn lemma_pass_no_ignored_create(
    src: Seq<BucketModel>,
    dest: Seq<BucketModel>,
    dest_root: Seq<char>,
    opts: OptionsModel,
    q: Seq<char>,
)
    requires
        ignored_dir(q, opts.ignored_prefixes),
    ensures
        !pass(src, dest, dest_root, opts).actions.contains(
            ActionModel::CreateDir { path: joined(dest_root, q) },
        ),
    decreases src.len(),
{
    let acts = pass(src, dest, dest_root, opts).actions;
    let target = ActionModel::CreateDir { path: joined(dest_root, q) };
    if src.len() > 0 {
        let b = src.first();
        let i0 = bucket_index(dest, b.key);
        let dest_files = if i0 >= 0 {
            Some(dest[i0].files)
        } else {
            None
        };
        let dest2 = if i0 >= 0 {
            dest.remove(i0)
        } else {
            dest
        };
        let acts0 = bucket_actions(b.key, b.files, dest_files, dest_root, opts);
        let rest = pass(src.drop_first(), dest2, dest_root, opts).actions;
        assert(acts == acts0 + rest);
        lemma_bucket_no_ignored_create(b.key, b.files, dest_files, dest_root, opts, q);
        lemma_pass_no_ignored_create(src.drop_first(), dest2, dest_root, opts, q);
        if acts.contains(target) {
            let j = choose|j: int| 0 <= j < acts.len() && acts[j] == target;
            if j < acts0.len() {
                assert(acts[j] == acts0[j]);
                assert(acts0.contains(target));
            } else {
                assert(acts[j] == rest[j - acts0.len()]);
                assert(rest.contains(target));
            }
        }
    }
}

/// Ignored subtree isolation at the plan level: no directory whose
/// relative path matches an ignored prefix is ever created on the
/// destination — neither for a source bucket nor for a source-side empty
/// directory. (The prefix test is prefix-closed, so this covers every
/// directory below an ignored one. Scope: creation; a destination-only
/// directory under an ignored prefix may still be swept by the final
/// orphan cleanup.)
pub proof fn lemma_plan_never_creates_ignored_dir(
    src_files: Seq<EntryModel>,
    src_empty: Seq<Seq<char>>,
    dest_files: Seq<EntryModel>,
    dest_empty: Seq<Seq<char>>,
    source_root: Seq<char>,
    dest_root: Seq<char>,
    opts: OptionsModel,
    q: Seq<char>,
)
    requires
        plan_of(src_files, src_empty, dest_files, dest_empty, source_root, dest_root, opts)
            is Some,
        ignored_dir(q, opts.ignored_prefixes),
    ensures
        !plan_of(
            src_files,
            src_empty,
            dest_files,
            dest_empty,
            source_root,
            dest_root,
            opts,
        ).unwrap().contains(ActionModel::CreateDir { path: joined(dest_root, q) }),
{
    let src_map = partition_of(src_files, source_root).unwrap();
    let dest_map = partition_of(dest_files, dest_root).unwrap();
    let se = rels_under(src_empty, source_root).unwrap();
    let de = rels_under(dest_empty, dest_root).unwrap();
    let src_e = distinct_rels(kept_rels(se, opts.ignored_prefixes));
    let dest_e = distinct_rels(de);
    let p = plan_of(
        src_files,
        src_empty,
        dest_files,
        dest_empty,
        source_root,
        dest_root,
        opts,
    ).unwrap();
    let target = ActionModel::CreateDir { path: joined(dest_root, q) };
    lemma_pass_no_ignored_create(src_map, dest_map, dest_root, opts, q);
    lemma_kept_rels_not_ignored(se, opts.ignored_prefixes);
    lemma_distinct_subset(kept_rels(se, opts.ignored_prefixes));
    assert forall|k: int| 0 <= k < src_e.len() implies (#[trigger] src_e[k]) != q by {
        let kept = kept_rels(se, opts.ignored_prefixes);
        assert(kept.contains(src_e[k]));
        let w = choose|w: int| 0 <= w < kept.len() && kept[w] == src_e[k];
        assert(!ignored_dir(kept[w], opts.ignored_prefixes));
    }
    lemma_creations_avoid(src_e, dest_e, dest_root, q);
    let pa = pass(src_map, dest_map, dest_root, opts).actions;
    let cr = empty_dir_creations(src_e, dest_e, dest_root);
    if p.contains(target) {
        let j = choose|j: int| 0 <= j < p.len() && p[j] == target;
        if j < pa.len() {
            assert(p[j] == pa[j]);
            assert(pa.contains(target));
        } else if j < pa.len() + cr.len() {
            assert(p[j] == cr[j - pa.len()]);
            assert(cr.contains(target));
        } else {
            if opts.delete_orphans {
                let lo = leftover_dir_removals(
                    pass(src_map, dest_map, dest_root, opts).remaining,
                    dest_root,
                );
                let er = empty_dir_removals(dest_e, src_e, dest_root);
                lemma_leftover_kinds(pass(src_map, dest_map, dest_root, opts).remaining, dest_root);
                lemma_empty_removals_kinds(dest_e, src_e, dest_root);
                if j < pa.len() + cr.len() + lo.len() {
                    assert(p[j] == lo[j - pa.len() - cr.len()]);
                } else {
                    assert(p[j] == er[j - pa.len() - cr.len() - lo.len()]);
                }
            }
        }
    }
}

/// Joining a root with two different relative paths gives two different
/// full paths.
pub proof fn lemma_joined_injective(root: Seq<char>, r1: Seq<char>, r2: Seq<char>)
    requires
        joined(root, r1) == joined(root, r2),
    ensures
        r1 == r2,
{
    if r1.len() == 0 && r2.len() == 0 {
        assert(r1 =~= r2);
    } else if r1.len() == 0 {
        assert(joined(root, r2).len() == root.len() + 1 + r2.len());
    } else if r2.len() == 0 {
        assert(joined(root, r1).len() == root.len() + 1 + r1.len());
    } else {
        let j1 = joined(root, r1);
        let j2 = joined(root, r2);
        assert(j1.len() == root.len() + 1 + r1.len());
        assert(j2.len() == root.len() + 1 + r2.len());
        assert forall|i: int| 0 <= i < r1.len() implies r1[i] == r2[i] by {
            assert(j1[root.len() + 1 + i] == r1[i]);
            assert(j2[root.len() + 1 + i] == r2[i]);
        }
        assert(r1 =~= r2);
    }
}

} // verus!
