//! Paths as sequences of components, and making them relative to a root.
use vstd::prelude::*;

verus! {

/// `path` with the leading components `root` taken off, if `root` is a
/// prefix of `path`.
pub open spec fn strip_prefix_spec(root: Seq<Seq<char>>, path: Seq<Seq<char>>) -> Option<
    Seq<Seq<char>>,
> {
    if root.len() <= path.len() && path.subrange(0, root.len() as int) == root {
        Some(path.subrange(root.len() as int, path.len() as int))
    } else {
        None
    }
}

/// Whether two paths have the same components.
pub fn same_path(a: &Vec<String>, b: &Vec<String>) -> (r: bool)
    ensures
        r == (a.deep_view() == b.deep_view()),
{
    if a.len() != b.len() {
        assert(a.deep_view().len() != b.deep_view().len());
        return false;
    }
    let mut i: usize = 0;
    while i < a.len()
        invariant
            a.len() == b.len(),
            0 <= i <= a.len(),
            forall|k: int| 0 <= k < i ==> a@[k]@ == b@[k]@,
        decreases a.len() - i,
    {
        if a[i] != b[i] {
            assert(a.deep_view()[i as int] != b.deep_view()[i as int]);
            return false;
        }
        i += 1;
    }
    assert(a.deep_view() =~= b.deep_view());
    true
}

/// `path` relative to `root`: its components after those of `root`, or
/// `None` where `path` does not lie under `root`.
pub fn relative_to(root: &Vec<String>, path: &Vec<String>) -> (r: Option<Vec<String>>)
    ensures
        match r {
            Some(v) => strip_prefix_spec(root.deep_view(), path.deep_view()) == Some(v.deep_view()),
            None => strip_prefix_spec(root.deep_view(), path.deep_view()) is None,
        },
{
    if root.len() > path.len() {
        return None;
    }
    let mut i: usize = 0;
    while i < root.len()
        invariant
            root.len() <= path.len(),
            0 <= i <= root.len(),
            forall|k: int| 0 <= k < i ==> root@[k]@ == path@[k]@,
        decreases root.len() - i,
    {
        if root[i] != path[i] {
            assert(path.deep_view().subrange(0, root.len() as int)[i as int]
                != root.deep_view()[i as int]);
            return None;
        }
        i += 1;
    }
    assert(path.deep_view().subrange(0, root.len() as int) =~= root.deep_view());
    let mut rest: Vec<String> = Vec::new();
    let mut j: usize = root.len();
    while j < path.len()
        invariant
            root.len() <= j <= path.len(),
            rest.len() == j - root.len(),
            forall|k: int| 0 <= k < rest.len() ==> rest@[k]@ == path@[root.len() + k]@,
        decreases path.len() - j,
    {
        rest.push(path[j].clone());
        j += 1;
    }
    assert(rest.deep_view() =~= path.deep_view().subrange(root.len() as int, path.len() as int));
    Some(rest)
}

} // verus!
