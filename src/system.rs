//! Finding the managed root: the nearest ancestor that holds `.minvcs`.

use vstd::prelude::*;
use vstd::string::*;

verus! {

/// The index of the last `c` in `p`, or -1.
pub open spec fn last_index(p: Seq<char>, c: char) -> int
    decreases p.len(),
{
    if p.len() == 0 {
        -1
    } else if p.last() == c {
        p.len() - 1
    } else {
        last_index(p.drop_last(), c)
    }
}

/// The parent of a path, as `Path::parent` gives it for a path without a
/// trailing separator.
pub open spec fn parent_of(p: Seq<char>) -> Option<Seq<char>> {
    let k = last_index(p, '/');
    if p.len() == 0 {
        None
    } else if k < 0 {
        Some(Seq::empty())
    } else if k == 0 {
        if p.len() == 1 {
            None
        } else {
            Some(seq!['/'])
        }
    } else {
        Some(p.subrange(0, k))
    }
}

/// The first of `p` and its ancestors, in order, whose mark is set.
pub open spec fn managed_dir(p: Seq<char>, marks: Seq<bool>) -> Option<Seq<char>>
    decreases marks.len(),
{
    if marks.len() == 0 {
        None
    } else if marks[0] {
        Some(p)
    } else {
        match parent_of(p) {
            None => None,
            Some(q) => managed_dir(q, marks.drop_first()),
        }
    }
}

proof fn lemma_last_index_bound(p: Seq<char>, c: char)
    ensures
        -1 <= last_index(p, c) < p.len(),
    decreases p.len(),
{
    if p.len() > 0 && p.last() != c {
        lemma_last_index_bound(p.drop_last(), c);
    }
}

/// The parent of a path.
pub fn parent_path(p: &str) -> (r: Option<String>)
    ensures
        r matches Some(q) ==> parent_of(p@) == Some(q@),
        r is None ==> parent_of(p@) is None,
{
    let n = p.unicode_len();
    if n == 0 {
        return None;
    }
    let mut i = n;
    assert(p@.subrange(0, n as int) =~= p@);
    while i > 0 && p.get_char(i - 1) != '/'
        invariant
            i <= n == p@.len(),
            last_index(p@, '/') == last_index(p@.subrange(0, i as int), '/'),
        decreases i,
    {
        assert(p@.subrange(0, i as int).drop_last() =~= p@.subrange(0, i - 1));
        i = i - 1;
    }
    proof {
        assert(p@.subrange(0, n as int) =~= p@);
        if i > 0 {
            assert(p@.subrange(0, i as int).last() == '/');
        }
    }
    if i == 0 {
        Some(String::new())
    } else if i == 1 {
        if n == 1 {
            None
        } else {
            proof {
                reveal_strlit("/");
            }
            Some(String::from_str("/"))
        }
    } else {
        Some(String::from_str(p.substring_char(0, i - 1)))
    }
}

/// The nearest of `path` and its ancestors that is managed. `has_marker[k]`
/// says whether the `k`-th of them, `path` itself first, holds `.minvcs`.
pub fn get_managed_directory(path: &str, has_marker: &Vec<bool>) -> (r: Option<String>)
    ensures
        r matches Some(q) ==> managed_dir(path@, has_marker@) == Some(q@),
        r is None ==> managed_dir(path@, has_marker@) is None,
{
    let mut cur = String::from_str(path);
    let mut k: usize = 0;
    assert(has_marker@.subrange(0, has_marker@.len() as int) =~= has_marker@);
    while k < has_marker.len()
        invariant
            k <= has_marker@.len(),
            managed_dir(path@, has_marker@) == managed_dir(cur@, has_marker@.subrange(k as int, has_marker@.len() as int)),
        decreases has_marker.len() - k,
    {
        let ghost rest = has_marker@.subrange(k as int, has_marker@.len() as int);
        assert(rest.drop_first() =~= has_marker@.subrange(k + 1, has_marker@.len() as int));
        if has_marker[k] {
            return Some(cur);
        }
        match parent_path(cur.as_str()) {
            None => {
                return None;
            },
            Some(q) => {
                cur = q;
            },
        }
        k = k + 1;
    }
    None
}

/// Is `path`, or one of its ancestors, managed? `has_marker` is as for
/// `get_managed_directory`.
pub fn is_managed(path: &str, has_marker: &Vec<bool>) -> (r: bool)
    ensures
        r == managed_dir(path@, has_marker@) is Some,
{
    get_managed_directory(path, has_marker).is_some()
}

} // verus!
