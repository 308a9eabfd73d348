//! Literal path handling: the parent of a path string.
//!
//! Paths are kept exactly as the caller supplies them (no normalization),
//! so the parent operation is purely textual: everything before the last
//! `/` separator.  A path with no separator has the empty path as parent,
//! the root `/` (and the empty path) has none.

use vstd::prelude::*;

verus! {

/// Index of the last `/` in `p`, or `-1` if `p` contains none.
pub open spec fn last_slash(p: Seq<char>) -> int
    decreases p.len(),
{
    if p.len() == 0 {
        -1
    } else if p[p.len() - 1] == '/' {
        p.len() - 1
    } else {
        last_slash(p.drop_last())
    }
}

pub proof fn lemma_last_slash_bounds(p: Seq<char>)
    ensures
        -1 <= last_slash(p) < p.len(),
        last_slash(p) >= 0 ==> p[last_slash(p)] == '/',
        forall|k: int| last_slash(p) < k < p.len() ==> p[k] != '/',
    decreases p.len(),
{
    if p.len() == 0 {
    } else if p[p.len() - 1] == '/' {
    } else {
        lemma_last_slash_bounds(p.drop_last());
        assert(forall|k: int| 0 <= k < p.len() - 1 ==> p[k] == p.drop_last()[k]);
    }
}

/// The parent of a path, textually: the prefix before the last `/`.
/// A relative path without separators has parent `""`; the root `"/"`
/// and the empty path have no parent, so every ancestor walk terminates.
pub open spec fn spec_parent(p: Seq<char>) -> Option<Seq<char>> {
    if p.len() == 0 {
        None
    } else {
        let i = last_slash(p);
        if i == -1 {
            Some(Seq::empty())
        } else if i == 0 {
            if p.len() == 1 {
                None
            } else {
                Some(seq!['/'])
            }
        } else {
            Some(p.subrange(0, i))
        }
    }
}

pub proof fn lemma_parent_shorter(p: Seq<char>)
    ensures
        spec_parent(p) is Some ==> spec_parent(p)->0.len() < p.len(),
{
    lemma_last_slash_bounds(p);
}

/// The parent directory of `p`, as `spec_parent` describes it.
pub fn parent_of(p: &str) -> (r: Option<String>)
    ensures
        match r {
            Some(q) => spec_parent(p@) == Some(q@),
            None => spec_parent(p@) is None,
        },
{
    let n = p.unicode_len();
    if n == 0 {
        return None;
    }
    let mut i: usize = n;
    while i > 0
        invariant
            i <= n,
            n == p@.len(),
            forall|k: int| i <= k < n ==> p@[k] != '/',
        decreases i,
    {
        if p.get_char(i - 1) == '/' {
            let s = i - 1;
            proof {
                lemma_last_slash_bounds(p@);
                assert(last_slash(p@) == s as int);
            }
            if s == 0 {
                if n == 1 {
                    return None;
                }
                let root = "/";
                proof {
                    reveal_strlit("/");
                    assert(root@ =~= seq!['/']);
                }
                return Some(root.to_owned());
            }
            let q = p.substring_char(0, s);
            return Some(q.to_owned());
        }
        i = i - 1;
    }
    proof {
        lemma_last_slash_bounds(p@);
        assert(last_slash(p@) == -1);
    }
    Some(String::new())
}

} // verus!
