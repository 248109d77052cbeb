//! Forward-slash path arithmetic: prefix tests, stripping a root, taking the
//! parent directory of a relative path, and joining a root with a relative
//! path.

use vstd::prelude::*;
use vstd::string::StrSliceExecFns;
use vstd::string::StringExecFns;

verus! {

/// True when `p` is a prefix of `s`.
pub open spec fn is_prefix_of(p: Seq<char>, s: Seq<char>) -> bool {
    p.len() <= s.len() && s.subrange(0, p.len() as int) == p
}

/// Plain string prefix test.
pub fn str_starts_with(s: &str, p: &str) -> (r: bool)
    ensures
        r == is_prefix_of(p@, s@),
{
    let n = p.unicode_len();
    if n > s.unicode_len() {
        return false;
    }
    let mut i: usize = 0;
    while i < n
        invariant
            i <= n,
            n == p@.len(),
            n <= s@.len(),
            forall|j: int| 0 <= j < i ==> s@[j] == p@[j],
        decreases n - i,
    {
        if s.get_char(i) != p.get_char(i) {
            proof {
                assert(s@.subrange(0, p@.len() as int)[i as int] == s@[i as int]);
            }
            return false;
        }
        i = i + 1;
    }
    proof {
        assert(s@.subrange(0, p@.len() as int) =~= p@);
    }
    true
}

/// The remainder of `path` under the root `root`: `path` must be `root`
/// itself (remainder empty) or `root` followed by `/` and the remainder.
/// `None` means the path does not fall under the root.
pub open spec fn rel_under(path: Seq<char>, root: Seq<char>) -> Option<Seq<char>> {
    if path.len() > root.len() && path.subrange(0, root.len() as int) == root && path[root.len() as int]
        == '/' {
        Some(path.subrange(root.len() as int + 1, path.len() as int))
    } else if path == root {
        Some(Seq::empty())
    } else {
        None
    }
}

/// Strip the root prefix (and its separator) off a listed path.
pub fn strip_root(path: &String, root: &String) -> (r: Option<String>)
    ensures
        r.deep_view() == rel_under(path@, root@),
{
    let plen = path.as_str().unicode_len();
    let rlen = root.as_str().unicode_len();
    if plen > rlen {
        if str_starts_with(path.as_str(), root.as_str()) && path.as_str().get_char(rlen) == '/' {
            let rest = String::from_str(path.as_str().substring_char(rlen + 1, plen));
            Some(rest)
        } else {
            None
        }
    } else if *path == *root {
        Some(String::new())
    } else {
        None
    }
}

/// The parent directory of a relative path: everything before the last `/`,
/// or the empty path when there is no separator.
pub open spec fn dir_of(rel: Seq<char>) -> Seq<char>
    decreases rel.len(),
{
    if rel.len() == 0 {
        Seq::empty()
    } else if rel.last() == '/' {
        rel.drop_last()
    } else {
        dir_of(rel.drop_last())
    }
}

proof fn lemma_dir_of_suffix(rel: Seq<char>, k: int)
    requires
        0 <= k < rel.len(),
        rel[k] == '/',
        forall|j: int| k < j < rel.len() ==> rel[j] != '/',
    ensures
        dir_of(rel) == rel.subrange(0, k),
    decreases rel.len(),
{
    if k == rel.len() - 1 {
        assert(rel.drop_last() =~= rel.subrange(0, k));
    } else {
        assert(rel.last() != '/');
        lemma_dir_of_suffix(rel.drop_last(), k);
        assert(rel.drop_last().subrange(0, k) =~= rel.subrange(0, k));
    }
}

proof fn lemma_dir_of_no_slash(rel: Seq<char>)
    requires
        forall|j: int| 0 <= j < rel.len() ==> rel[j] != '/',
    ensures
        dir_of(rel) == Seq::<char>::empty(),
    decreases rel.len(),
{
    if rel.len() > 0 {
        lemma_dir_of_no_slash(rel.drop_last());
    }
}

/// Remove the final path component of a relative path.
pub fn parent_dir(rel: &str) -> (r: String)
    ensures
        r@ == dir_of(rel@),
{
    let n = rel.unicode_len();
    let mut i: usize = n;
    while i > 0
        invariant
            i <= n,
            n == rel@.len(),
            forall|j: int| i <= j < n ==> rel@[j] != '/',
        decreases i,
    {
        if rel.get_char(i - 1) == '/' {
            let parent = String::from_str(rel.substring_char(0, i - 1));
            proof {
                lemma_dir_of_suffix(rel@, i - 1);
            }
            return parent;
        }
        i = i - 1;
    }
    proof {
        lemma_dir_of_no_slash(rel@);
    }
    String::new()
}

/// A root path joined with a relative path: the root itself when the
/// relative part is empty, else root, separator, relative part.
pub open spec fn joined(root: Seq<char>, rel: Seq<char>) -> Seq<char> {
    if rel.len() == 0 {
        root
    } else {
        root + seq!['/'] + rel
    }
}

/// Append a relative path onto a root path.
pub fn join_under(root: &String, rel: &str) -> (r: String)
    ensures
        r@ == joined(root@, rel@),
{
    if rel.unicode_len() == 0 {
        root.clone()
    } else {
        let joined_path = root.clone().concat("/").concat(rel);
        proof {
            reveal_strlit("/");
            assert(joined_path@ =~= joined(root@, rel@));
        }
        joined_path
    }
}

} // verus!
