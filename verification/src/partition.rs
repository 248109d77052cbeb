//! The directory partitioner: groups a flat file listing into a mapping from
//! relative parent-directory path to the files directly inside it.

use vstd::prelude::*;
use crate::model::{EntryModel, SyncEntry, SyncError};
use crate::paths::{dir_of, parent_dir, rel_under, strip_root};

verus! {

/// The files directly inside one relative directory.
pub struct DirBucket {
    pub key: String,
    pub files: Vec<SyncEntry>,
}

/// Mathematical image of a `DirBucket`.
pub ghost struct BucketModel {
    pub key: Seq<char>,
    pub files: Seq<EntryModel>,
}

impl View for DirBucket {
    type V = BucketModel;

    open spec fn view(&self) -> BucketModel {
        BucketModel { key: self.key@, files: self.files.deep_view() }
    }
}

impl DeepView for DirBucket {
    type V = BucketModel;

    open spec fn deep_view(&self) -> BucketModel {
        self@
    }
}

/// A tree snapshot: buckets with pairwise distinct keys, in first-appearance
/// order of the listing they were built from.
pub struct DirFileMap {
    pub buckets: Vec<DirBucket>,
}

impl View for DirFileMap {
    type V = Seq<BucketModel>;

    open spec fn view(&self) -> Seq<BucketModel> {
        self.buckets.deep_view()
    }
}

/// Index of the first bucket with the given key, or -1 when there is none.
pub open spec fn bucket_index(m: Seq<BucketModel>, key: Seq<char>) -> int
    decreases m.len(),
{
    if m.len() == 0 {
        -1
    } else if m.first().key == key {
        0
    } else {
        let r = bucket_index(m.drop_first(), key);
        if r < 0 {
            -1
        } else {
            r + 1
        }
    }
}

/// What `bucket_index` returns: the first index holding the key, if any.
pub proof fn lemma_bucket_index(m: Seq<BucketModel>, key: Seq<char>)
    ensures
        -1 <= bucket_index(m, key) < m.len(),
        bucket_index(m, key) >= 0 ==> m[bucket_index(m, key)].key == key && (forall|j: int|
            0 <= j < bucket_index(m, key) ==> m[j].key != key),
        bucket_index(m, key) == -1 ==> forall|j: int| 0 <= j < m.len() ==> m[j].key != key,
    decreases m.len(),
{
    if m.len() > 0 && m.first().key != key {
        lemma_bucket_index(m.drop_first(), key);
        assert(forall|j: int| 1 <= j < m.len() ==> m[j] == m.drop_first()[j - 1]);
    }
}

/// One file added to the map: appended to its directory's bucket, or opening
/// a fresh bucket at the end.
pub open spec fn insert_entry(m: Seq<BucketModel>, key: Seq<char>, e: EntryModel) -> Seq<
    BucketModel,
> {
    let i = bucket_index(m, key);
    if i >= 0 {
        m.update(i, BucketModel { key: key, files: m[i].files.push(e) })
    } else {
        m.push(BucketModel { key: key, files: seq![e] })
    }
}

/// The partition of a flat listing under a root: each entry is keyed by the
/// parent directory of its root-relative path. `None` when some entry's path
/// does not fall under the root.
pub open spec fn partition_of(files: Seq<EntryModel>, root: Seq<char>) -> Option<Seq<BucketModel>>
    decreases files.len(),
{
    if files.len() == 0 {
        Some(Seq::empty())
    } else {
        match partition_of(files.drop_last(), root) {
            None => None,
            Some(m) => match rel_under(files.last().path, root) {
                None => None,
                Some(rel) => Some(insert_entry(m, dir_of(rel), files.last())),
            },
        }
    }
}

impl DirFileMap {
    /// The empty map.
    pub fn new() -> (r: DirFileMap)
        ensures
            r@ == Seq::<BucketModel>::empty(),
    {
        let r = DirFileMap { buckets: Vec::new() };
        proof {
            assert(r@ =~= Seq::<BucketModel>::empty());
        }
        r
    }

    /// Index of the bucket holding `key`, if any.
    pub fn find_index(&self, key: &String) -> (r: Option<usize>)
        ensures
            match r {
                Some(i) => i == bucket_index(self@, key@),
                None => bucket_index(self@, key@) == -1,
            },
    {
        proof {
            lemma_bucket_index(self@, key@);
        }
        let n = self.buckets.len();
        let mut i: usize = 0;
        while i < n
            invariant
                i <= n,
                n == self@.len(),
                forall|j: int| 0 <= j < i ==> self@[j].key != key@,
            decreases n - i,
        {
            if self.buckets[i].key == *key {
                proof {
                    assert(self@[i as int] == self.buckets@[i as int]@);
                    assert(self@[i as int].key == key@);
                    lemma_bucket_index(self@, key@);
                }
                return Some(i);
            }
            i = i + 1;
        }
        None
    }

    /// Remove and return the bucket holding `key`, if any.
    pub fn take_bucket(&mut self, key: &String) -> (r: Option<DirBucket>)
        ensures
            bucket_index(old(self)@, key@) == -1 ==> r is None && final(self)@ == old(self)@,
            bucket_index(old(self)@, key@) >= 0 ==> {
                &&& r matches Some(b) && b@ == old(self)@[bucket_index(old(self)@, key@)]
                &&& final(self)@ == old(self)@.remove(bucket_index(old(self)@, key@))
            },
    {
        match self.find_index(key) {
            None => None,
            Some(i) => {
                proof {
                    lemma_bucket_index(self@, key@);
                }
                let b = self.buckets.remove(i);
                proof {
                    assert(self@ =~= old(self)@.remove(i as int));
                }
                Some(b)
            },
        }
    }
}

/// Group a flat file listing by relative parent directory. Fails with the
/// first listed entry whose path does not fall under `root`.
pub fn partition(files: &Vec<SyncEntry>, root: &String) -> (r: Result<DirFileMap, SyncError>)
    ensures
        r matches Ok(m) ==> partition_of(files.deep_view(), root@) == Some(m@),
        r is Err ==> partition_of(files.deep_view(), root@) is None,
        r matches Err(e) ==> {
            &&& e matches SyncError::NotUnderRoot { path, root: r2 }
            &&& r2@ == root@
            &&& exists|k: int|
                {
                    &&& 0 <= k < files.deep_view().len()
                    &&& files.deep_view()[k].path == path@
                    &&& rel_under(path@, root@) is None
                    &&& forall|j: int|
                        0 <= j < k ==> rel_under(#[trigger] files.deep_view()[j].path, root@)
                            is Some
                }
        },
{
    let ghost dv = files.deep_view();
    let mut m = DirFileMap::new();
    let n = files.len();
    let mut idx: usize = 0;
    while idx < n
        invariant
            idx <= n,
            n == files.len(),
            dv == files.deep_view(),
            dv.len() == n,
            partition_of(dv.take(idx as int), root@) == Some(m@),
            forall|j: int| 0 <= j < idx ==> rel_under(#[trigger] dv[j].path, root@) is Some,
        decreases n - idx,
    {
        let f = &files[idx];
        match strip_root(&f.path, root) {
            None => {
                proof {
                    lemma_partition_prefix_none(dv, root@, idx as int);
                }
                return Err(
                    SyncError::NotUnderRoot { path: f.path.clone(), root: root.clone() },
                );
            },
            Some(rel) => {
                let key = parent_dir(rel.as_str());
                let ghost m0 = m@;
                match m.find_index(&key) {
                    Some(i) => {
                        proof {
                            lemma_bucket_index(m0, key@);
                        }
                        let mut b = m.buckets.remove(i);
                        b.files.push(f.clone());
                        proof {
                            assert(b@.files =~= m0[i as int].files.push(dv[idx as int]));
                        }
                        m.buckets.insert(i, b);
                        proof {
                            assert(m@ =~= insert_entry(m0, dir_of(rel@), dv[idx as int]));
                        }
                    },
                    None => {
                        let b = DirBucket { key: key, files: vec![f.clone()] };
                        proof {
                            assert(b@.files =~= seq![dv[idx as int]]);
                        }
                        m.buckets.push(b);
                        proof {
                            assert(m@ =~= insert_entry(m0, dir_of(rel@), dv[idx as int]));
                        }
                    },
                }
                proof {
                    assert(dv.take(idx + 1).drop_last() =~= dv.take(idx as int));
                    assert(dv.take(idx + 1).last() == dv[idx as int]);
                }
            },
        }
        idx = idx + 1;
    }
    proof {
        assert(dv.take(n as int) =~= dv);
    }
    Ok(m)
}

/// When every listed path before `k` falls under the root and the one at `k`
/// does not, the whole partition is undefined.
proof fn lemma_partition_prefix_none(files: Seq<EntryModel>, root: Seq<char>, k: int)
    requires
        0 <= k < files.len(),
        rel_under(files[k].path, root) is None,
    ensures
        partition_of(files, root) is None,
    decreases files.len(),
{
    if files.len() > 0 {
        if k == files.len() - 1 {
        } else {
            lemma_partition_prefix_none(files.drop_last(), root, k);
        }
    }
}

} // verus!
