//! Classifying the paths of two trees: modified, left only, right only.
use vstd::prelude::*;
use crate::fingerprint::{
    digest_map, find_path, has_path, lemma_digest_map, record_views, unique_paths, FileRecord,
    FingerprintResult, PathView,
};

verus! {

/// A path found in both trees with differing digests.
pub struct ModifiedEntry {
    pub path: Vec<String>,
    pub left_digest: String,
    pub right_digest: String,
}

impl View for ModifiedEntry {
    type V = (PathView, Seq<char>, Seq<char>);

    open spec fn view(&self) -> (PathView, Seq<char>, Seq<char>) {
        (self.path.deep_view(), self.left_digest@, self.right_digest@)
    }
}

pub open spec fn modified_views(s: Seq<ModifiedEntry>) -> Seq<(PathView, Seq<char>, Seq<char>)> {
    s.map_values(|e: ModifiedEntry| e@)
}

pub open spec fn unique_modified(s: Seq<(PathView, Seq<char>, Seq<char>)>) -> bool {
    forall|i: int, j: int| 0 <= i < j < s.len() ==> s[i].0 != s[j].0
}

/// The entries as a map from path to the pair of digests.
pub open spec fn modified_map(s: Seq<(PathView, Seq<char>, Seq<char>)>) -> Map<
    PathView,
    (Seq<char>, Seq<char>),
>
    decreases s.len(),
{
    if s.len() == 0 {
        Map::empty()
    } else {
        modified_map(s.drop_last()).insert(s.last().0, (s.last().1, s.last().2))
    }
}

/// Paths in both maps whose digests differ, with both digests.
pub open spec fn modified_spec(left: Map<PathView, Seq<char>>, right: Map<PathView, Seq<char>>) -> Map<
    PathView,
    (Seq<char>, Seq<char>),
> {
    Map::new(
        |p: PathView| left.contains_key(p) && right.contains_key(p) && left[p] != right[p],
        |p: PathView| (left[p], right[p]),
    )
}

/// Paths of `a` that `b` lacks, with their digests in `a`.
pub open spec fn only_in(a: Map<PathView, Seq<char>>, b: Map<PathView, Seq<char>>) -> Map<
    PathView,
    Seq<char>,
> {
    a.remove_keys(b.dom())
}

/// Paths in both maps with equal digests.
pub open spec fn unchanged_spec(left: Map<PathView, Seq<char>>, right: Map<PathView, Seq<char>>) -> Set<
    PathView,
> {
    Set::new(|p: PathView| left.contains_key(p) && right.contains_key(p) && left[p] == right[p])
}

/// The outcome of comparing two trees.
pub struct Reconciliation {
    pub modified: Vec<ModifiedEntry>,
    pub left_only: Vec<FileRecord>,
    pub right_only: Vec<FileRecord>,
}

impl Reconciliation {
    /// Whether the two trees hold the same paths with the same digests.
    pub fn is_empty(&self) -> (r: bool)
        ensures
            r == (self.modified@.len() == 0 && self.left_only@.len() == 0
                && self.right_only@.len() == 0),
    {
        self.modified.len() == 0 && self.left_only.len() == 0 && self.right_only.len() == 0
    }
}

/// Compares two trees: the paths of both with differing digests, the paths
/// of the left tree only and those of the right tree only, each once.
pub fn reconcile(left: &FingerprintResult, right: &FingerprintResult) -> (r: Reconciliation)
    requires
        left.wf(),
        right.wf(),
    ensures
        modified_map(modified_views(r.modified@)) == modified_spec(left.view(), right.view()),
        digest_map(record_views(r.left_only@)) == only_in(left.view(), right.view()),
        digest_map(record_views(r.right_only@)) == only_in(right.view(), left.view()),
        unique_modified(modified_views(r.modified@)),
        unique_paths(record_views(r.left_only@)),
        unique_paths(record_views(r.right_only@)),
        forall|k: int| 0 <= k < r.left_only@.len() ==> exists|m: int|
            0 <= m < left.records@.len() && #[trigger] r.left_only@[k]@ == left.records@[m]@,
        forall|k: int| 0 <= k < r.right_only@.len() ==> exists|m: int|
            0 <= m < right.records@.len() && #[trigger] r.right_only@[k]@ == right.records@[m]@,
{
    let ghost lv = record_views(left.records@);
    let ghost rv = record_views(right.records@);
    proof {
        lemma_digest_map(lv);
        lemma_digest_map(rv);
    }
    let mut modified: Vec<ModifiedEntry> = Vec::new();
    let mut left_only: Vec<FileRecord> = Vec::new();
    let mut i: usize = 0;
    while i < left.records.len()
        invariant
            0 <= i <= left.records@.len(),
            lv == record_views(left.records@),
            rv == record_views(right.records@),
            left.wf(),
            right.wf(),
            forall|p: PathView| #[trigger] digest_map(rv).contains_key(p) <==> has_path(rv, p),
            unique_paths(rv) ==> forall|k: int| 0 <= k < rv.len() ==> #[trigger] digest_map(rv)[rv[k].0] == rv[k].1,
            modified_map(modified_views(modified@)) == modified_spec(
                digest_map(lv.take(i as int)),
                digest_map(rv),
            ),
            digest_map(record_views(left_only@)) == only_in(
                digest_map(lv.take(i as int)),
                digest_map(rv),
            ),
            unique_modified(modified_views(modified@)),
            unique_paths(record_views(left_only@)),
            forall|k: int| 0 <= k < modified@.len() ==> digest_map(lv.take(i as int)).contains_key(
                #[trigger] modified@[k]@.0),
            forall|k: int| 0 <= k < left_only@.len() ==> digest_map(lv.take(i as int)).contains_key(
                #[trigger] left_only@[k]@.0),
            forall|k: int| 0 <= k < left_only@.len() ==> exists|m: int|
                0 <= m < left.records@.len() && #[trigger] left_only@[k]@ == left.records@[m]@,
        decreases left.records@.len() - i,
    {
        let rec = &left.records[i];
        let ghost before = digest_map(lv.take(i as int));
        proof {
            assert(lv.take(i + 1).drop_last() =~= lv.take(i as int));
            assert(lv.take(i + 1).last() == lv[i as int]);
            lemma_digest_map(lv.take(i as int));
            if before.contains_key(lv[i as int].0) {
                let k = choose|k: int| 0 <= k < lv.take(i as int).len() && lv.take(i as int)[k].0 == lv[i as int].0;
                assert(lv[k].0 == lv[i as int].0);
            }
        }
        let ghost p = lv[i as int].0;
        let ghost d = lv[i as int].1;
        let ghost rmap = digest_map(rv);
        let ghost after = before.insert(p, d);
        proof {
            assert(digest_map(lv.take(i + 1)) == after);
        }
        match find_path(&right.records, &rec.path) {
            Some(j) => {
                proof {
                    assert(rv[j as int].0 == p);
                    assert(rmap.contains_key(p));
                    assert(rmap[p] == rv[j as int].1);
                    assert(only_in(after, rmap) =~= only_in(before, rmap));
                }
                if rec.digest != right.records[j].digest {
                    let ghost old_m = modified@;
                    modified.push(
                        ModifiedEntry {
                            path: rec.path.clone(),
                            left_digest: rec.digest.clone(),
                            right_digest: right.records[j].digest.clone(),
                        },
                    );
                    proof {
                        let mv = modified_views(modified@);
                        assert(mv =~= modified_views(old_m).push((p, d, rmap[p])));
                        assert(mv.drop_last() =~= modified_views(old_m));
                        assert(modified_map(mv) =~= modified_spec(after, rmap));
                        assert forall|k: int| 0 <= k < modified@.len() implies after.contains_key(
                            #[trigger] modified@[k]@.0) by {
                            if k < old_m.len() {
                                assert(modified@[k] == old_m[k]);
                            }
                        }
                        assert forall|a: int, b: int| 0 <= a < b < mv.len() implies mv[a].0
                            != mv[b].0 by {
                            if b == mv.len() - 1 {
                                assert(before.contains_key(old_m[a]@.0));
                            } else {
                                assert(mv[a] == modified_views(old_m)[a]);
                                assert(mv[b] == modified_views(old_m)[b]);
                            }
                        }
                    }
                } else {
                    proof {
                        assert(modified_spec(after, rmap) =~= modified_spec(before, rmap));
                    }
                }
            },
            None => {
                let ghost old_l = left_only@;
                left_only.push(
                    FileRecord { path: rec.path.clone(), digest: rec.digest.clone(), size: rec.size },
                );
                proof {
                    assert(!rmap.contains_key(p));
                    assert(modified_spec(after, rmap) =~= modified_spec(before, rmap));
                    let ov = record_views(left_only@);
                    assert(ov =~= record_views(old_l).push((p, d, rec.size)));
                    assert(ov.drop_last() =~= record_views(old_l));
                    assert(digest_map(ov) =~= only_in(after, rmap));
                    assert forall|k: int| 0 <= k < left_only@.len() implies after.contains_key(
                        #[trigger] left_only@[k]@.0) by {
                        if k < old_l.len() {
                            assert(left_only@[k] == old_l[k]);
                        }
                    }
                    assert(left_only@[old_l.len() as int]@ == left.records@[i as int]@);
                    assert forall|k: int| 0 <= k < left_only@.len() implies exists|m: int|
                        0 <= m < left.records@.len() && #[trigger] left_only@[k]@
                            == left.records@[m]@ by {
                        if k < old_l.len() {
                            assert(left_only@[k] == old_l[k]);
                        }
                    }
                    assert forall|a: int, b: int| 0 <= a < b < ov.len() implies ov[a].0
                        != ov[b].0 by {
                        if b == ov.len() - 1 {
                            assert(before.contains_key(old_l[a]@.0));
                        } else {
                            assert(ov[a] == record_views(old_l)[a]);
                            assert(ov[b] == record_views(old_l)[b]);
                        }
                    }
                }
            },
        }
        i += 1;
    }
    proof {
        assert(lv.take(lv.len() as int) =~= lv);
    }
    let mut right_only: Vec<FileRecord> = Vec::new();
    let mut j: usize = 0;
    while j < right.records.len()
        invariant
            0 <= j <= right.records@.len(),
            lv == record_views(left.records@),
            rv == record_views(right.records@),
            left.wf(),
            right.wf(),
            forall|p: PathView| #[trigger] digest_map(lv).contains_key(p) <==> has_path(lv, p),
            digest_map(record_views(right_only@)) == only_in(
                digest_map(rv.take(j as int)),
                digest_map(lv),
            ),
            unique_paths(record_views(right_only@)),
            forall|k: int| 0 <= k < right_only@.len() ==> digest_map(rv.take(j as int)).contains_key(
                #[trigger] right_only@[k]@.0),
            forall|k: int| 0 <= k < right_only@.len() ==> exists|m: int|
                0 <= m < right.records@.len() && #[trigger] right_only@[k]@ == right.records@[m]@,
        decreases right.records@.len() - j,
    {
        let rec = &right.records[j];
        let ghost before = digest_map(rv.take(j as int));
        proof {
            assert(rv.take(j + 1).drop_last() =~= rv.take(j as int));
            assert(rv.take(j + 1).last() == rv[j as int]);
            lemma_digest_map(rv.take(j as int));
            if before.contains_key(rv[j as int].0) {
                let k = choose|k: int| 0 <= k < rv.take(j as int).len() && rv.take(j as int)[k].0 == rv[j as int].0;
                assert(rv[k].0 == rv[j as int].0);
            }
        }
        let ghost p = rv[j as int].0;
        let ghost d = rv[j as int].1;
        let ghost lmap = digest_map(lv);
        let ghost after = before.insert(p, d);
        proof {
            assert(digest_map(rv.take(j + 1)) == after);
        }
        match find_path(&left.records, &rec.path) {
            Some(k) => {
                proof {
                    assert(lv[k as int].0 == p);
                    assert(lmap.contains_key(p));
                    assert(only_in(after, lmap) =~= only_in(before, lmap));
                }
            },
            None => {
                let ghost old_r = right_only@;
                right_only.push(
                    FileRecord { path: rec.path.clone(), digest: rec.digest.clone(), size: rec.size },
                );
                proof {
                    assert(!lmap.contains_key(p));
                    let ov = record_views(right_only@);
                    assert(ov =~= record_views(old_r).push((p, d, rec.size)));
                    assert(ov.drop_last() =~= record_views(old_r));
                    assert(digest_map(ov) =~= only_in(after, lmap));
                    assert forall|k: int| 0 <= k < right_only@.len() implies after.contains_key(
                        #[trigger] right_only@[k]@.0) by {
                        if k < old_r.len() {
                            assert(right_only@[k] == old_r[k]);
                        }
                    }
                    assert(right_only@[old_r.len() as int]@ == right.records@[j as int]@);
                    assert forall|k: int| 0 <= k < right_only@.len() implies exists|m: int|
                        0 <= m < right.records@.len() && #[trigger] right_only@[k]@
                            == right.records@[m]@ by {
                        if k < old_r.len() {
                            assert(right_only@[k] == old_r[k]);
                        }
                    }
                    assert forall|a: int, b: int| 0 <= a < b < ov.len() implies ov[a].0
                        != ov[b].0 by {
                        if b == ov.len() - 1 {
                            assert(before.contains_key(old_r[a]@.0));
                        } else {
                            assert(ov[a] == record_views(old_r)[a]);
                            assert(ov[b] == record_views(old_r)[b]);
                        }
                    }
                }
            },
        }
        j += 1;
    }
    proof {
        assert(rv.take(rv.len() as int) =~= rv);
    }
    Reconciliation { modified, left_only, right_only }
}

/// Two empty trees give nothing modified, nothing left only and nothing
/// right only.
pub proof fn lemma_empty_trees(left: Map<PathView, Seq<char>>, right: Map<PathView, Seq<char>>)
    requires
        left.dom().is_empty(),
        right.dom().is_empty(),
    ensures
        modified_spec(left, right).dom().is_empty(),
        only_in(left, right).dom().is_empty(),
        only_in(right, left).dom().is_empty(),
{
    assert(modified_spec(left, right).dom() =~= Set::empty());
    assert(only_in(left, right).dom() =~= Set::empty());
    assert(only_in(right, left).dom() =~= Set::empty());
}

/// A path in both trees with the same digest is reported nowhere.
pub proof fn lemma_unchanged_unreported(
    left: Map<PathView, Seq<char>>,
    right: Map<PathView, Seq<char>>,
    p: PathView,
)
    requires
        left.contains_key(p),
        right.contains_key(p),
        left[p] == right[p],
    ensures
        !modified_spec(left, right).contains_key(p),
        !only_in(left, right).contains_key(p),
        !only_in(right, left).contains_key(p),
{
}

/// A path in both trees with differing digests is reported as modified,
/// with both digests, and as nothing else.
pub proof fn lemma_changed_is_modified(
    left: Map<PathView, Seq<char>>,
    right: Map<PathView, Seq<char>>,
    p: PathView,
)
    requires
        left.contains_key(p),
        right.contains_key(p),
        left[p] != right[p],
    ensures
        modified_spec(left, right).contains_key(p),
        modified_spec(left, right)[p] == (left[p], right[p]),
        !only_in(left, right).contains_key(p),
        !only_in(right, left).contains_key(p),
{
}

/// A path of the left tree alone is reported as left only, with its digest,
/// and as nothing else; symmetrically for the right tree.
pub proof fn lemma_one_side_only(
    left: Map<PathView, Seq<char>>,
    right: Map<PathView, Seq<char>>,
    p: PathView,
)
    ensures
        left.contains_key(p) && !right.contains_key(p) ==> {
            &&& only_in(left, right).contains_key(p)
            &&& only_in(left, right)[p] == left[p]
            &&& !modified_spec(left, right).contains_key(p)
            &&& !only_in(right, left).contains_key(p)
        },
        right.contains_key(p) && !left.contains_key(p) ==> {
            &&& only_in(right, left).contains_key(p)
            &&& only_in(right, left)[p] == right[p]
            &&& !modified_spec(left, right).contains_key(p)
            &&& !only_in(left, right).contains_key(p)
        },
{
}

/// The modified, left-only, right-only and unchanged paths together are the
/// paths of both trees, and no path is in two of them.
pub proof fn lemma_partition(left: Map<PathView, Seq<char>>, right: Map<PathView, Seq<char>>)
    ensures
        modified_spec(left, right).dom() + only_in(left, right).dom() + only_in(right, left).dom()
            + unchanged_spec(left, right) == left.dom() + right.dom(),
        modified_spec(left, right).dom().disjoint(only_in(left, right).dom()),
        modified_spec(left, right).dom().disjoint(only_in(right, left).dom()),
        modified_spec(left, right).dom().disjoint(unchanged_spec(left, right)),
        only_in(left, right).dom().disjoint(only_in(right, left).dom()),
        only_in(left, right).dom().disjoint(unchanged_spec(left, right)),
        only_in(right, left).dom().disjoint(unchanged_spec(left, right)),
{
    assert(modified_spec(left, right).dom() + only_in(left, right).dom() + only_in(
        right,
        left,
    ).dom() + unchanged_spec(left, right) =~= left.dom() + right.dom());
}

} // verus!
