//! The per-file results of one tree, keyed by path relative to its root.
use vstd::prelude::*;
use crate::paths::{relative_to, same_path, strip_prefix_spec};

verus! {

/// A path as its sequence of components.
pub type PathView = Seq<Seq<char>>;

/// What a record holds: path, digest and size in bytes.
pub type RecordView = (PathView, Seq<char>, u64);

/// One hashed file: its path, the hex digest of its content and its size.
pub struct FileRecord {
    pub path: Vec<String>,
    pub digest: String,
    pub size: u64,
}

impl View for FileRecord {
    type V = RecordView;

    open spec fn view(&self) -> RecordView {
        (self.path.deep_view(), self.digest@, self.size)
    }
}

pub open spec fn record_views(s: Seq<FileRecord>) -> Seq<RecordView> {
    s.map_values(|r: FileRecord| r@)
}

/// No path occurs twice.
pub open spec fn unique_paths(s: Seq<RecordView>) -> bool {
    forall|i: int, j: int| 0 <= i < j < s.len() ==> s[i].0 != s[j].0
}

/// Whether some record has path `p`.
pub open spec fn has_path(s: Seq<RecordView>, p: PathView) -> bool {
    exists|k: int| 0 <= k < s.len() && s[k].0 == p
}

/// The records as a map from path to digest.
pub open spec fn digest_map(s: Seq<RecordView>) -> Map<PathView, Seq<char>>
    decreases s.len(),
{
    if s.len() == 0 {
        Map::empty()
    } else {
        digest_map(s.drop_last()).insert(s.last().0, s.last().1)
    }
}

/// The sum of the sizes of the records.
pub open spec fn total_size(s: Seq<RecordView>) -> int
    decreases s.len(),
{
    if s.len() == 0 {
        0
    } else {
        total_size(s.drop_last()) + s.last().2
    }
}

/// The records kept from `items`, files given by absolute path, for a tree
/// rooted at `root`: each file under the root, in order, with its path made
/// relative; a file outside the root, or whose relative path was already
/// kept, is left out.
pub open spec fn kept_records(root: PathView, items: Seq<FileRecord>) -> Seq<RecordView>
    decreases items.len(),
{
    if items.len() == 0 {
        Seq::empty()
    } else {
        let prev = kept_records(root, items.drop_last());
        let last = items.last();
        match strip_prefix_spec(root, last.path.deep_view()) {
            Some(rel) => if has_path(prev, rel) {
                prev
            } else {
                prev.push((rel, last.digest@, last.size))
            },
            None => prev,
        }
    }
}

/// The paths of a map's domain are exactly those of the records, and with
/// unique paths each maps to its record's digest.
pub proof fn lemma_digest_map(s: Seq<RecordView>)
    ensures
        forall|p: PathView| #[trigger] digest_map(s).contains_key(p) <==> has_path(s, p),
        unique_paths(s) ==> forall|i: int|
            0 <= i < s.len() ==> #[trigger] digest_map(s)[s[i].0] == s[i].1,
    decreases s.len(),
{
    if s.len() > 0 {
        let t = s.drop_last();
        let n = s.len() - 1;
        lemma_digest_map(t);
        assert(digest_map(s) == digest_map(t).insert(s[n].0, s[n].1));
        assert forall|p: PathView| #[trigger] digest_map(s).contains_key(p) <==> has_path(s, p) by {
            if has_path(s, p) {
                let k = choose|k: int| 0 <= k < s.len() && s[k].0 == p;
                if k < t.len() {
                    assert(t[k].0 == p);
                }
            }
            if has_path(t, p) {
                let k = choose|k: int| 0 <= k < t.len() && t[k].0 == p;
                assert(s[k].0 == p);
            }
            if p == s[n].0 {
                assert(s[n].0 == p);
            }
        }
        if unique_paths(s) {
            assert(unique_paths(t));
            assert forall|i: int| 0 <= i < s.len() implies #[trigger] digest_map(s)[s[i].0]
                == s[i].1 by {
                if i < n {
                    assert(t[i] == s[i]);
                    assert(s[i].0 != s[n].0);
                }
            }
        }
    }
}

/// A sum of sizes is at most the number of records times the largest size.
pub proof fn lemma_total_size_bound(s: Seq<RecordView>)
    ensures
        0 <= total_size(s) <= s.len() * (u64::MAX as int),
    decreases s.len(),
{
    if s.len() > 0 {
        lemma_total_size_bound(s.drop_last());
    }
}

/// The sum of the sizes of the given files.
pub open spec fn sum_of_sizes(items: Seq<FileRecord>) -> int
    decreases items.len(),
{
    if items.len() == 0 {
        0
    } else {
        sum_of_sizes(items.drop_last()) + items.last().size
    }
}

/// Every file lies under `root`, and no two have the same path relative to it.
pub open spec fn distinct_under_root(root: PathView, items: Seq<FileRecord>) -> bool {
    &&& forall|i: int| 0 <= i < items.len() ==> strip_prefix_spec(root, #[trigger] items[i].path.deep_view()) is Some
    &&& forall|i: int, j: int|
        0 <= i < j < items.len() ==> strip_prefix_spec(root, #[trigger] items[i].path.deep_view())
            != strip_prefix_spec(root, #[trigger] items[j].path.deep_view())
}

/// Each kept path is the relative path of one of the files.
proof fn lemma_kept_paths_come_from_items(root: PathView, items: Seq<FileRecord>)
    ensures
        forall|k: int| 0 <= k < kept_records(root, items).len() ==> exists|m: int|
            0 <= m < items.len() && strip_prefix_spec(root, items[m].path.deep_view()) == Some(
                #[trigger] kept_records(root, items)[k].0,
            ),
    decreases items.len(),
{
    if items.len() > 0 {
        let t = items.drop_last();
        lemma_kept_paths_come_from_items(root, t);
        let prev = kept_records(root, t);
        let cur = kept_records(root, items);
        assert forall|k: int| 0 <= k < cur.len() implies exists|m: int|
            0 <= m < items.len() && strip_prefix_spec(root, items[m].path.deep_view()) == Some(
                #[trigger] cur[k].0,
            ) by {
            if k < prev.len() {
                assert(cur[k] == prev[k]);
                let m = choose|m: int|
                    0 <= m < t.len() && strip_prefix_spec(root, t[m].path.deep_view()) == Some(
                        #[trigger] prev[k].0,
                    );
                assert(items[m] == t[m]);
            } else {
                assert(strip_prefix_spec(root, items[items.len() - 1].path.deep_view()) == Some(
                    cur[k].0,
                ));
            }
        }
    }
}

/// Total-byte accounting: where every file lies under the root and no two
/// share a relative path, every file is kept, and the total is the exact sum
/// of the sizes of all of them.
pub proof fn lemma_total_counts_every_file(root: PathView, items: Seq<FileRecord>)
    requires
        distinct_under_root(root, items),
    ensures
        kept_records(root, items).len() == items.len(),
        total_size(kept_records(root, items)) == sum_of_sizes(items),
    decreases items.len(),
{
    if items.len() > 0 {
        let t = items.drop_last();
        let n = items.len() - 1;
        assert forall|i: int| 0 <= i < t.len() implies strip_prefix_spec(
            root,
            #[trigger] t[i].path.deep_view(),
        ) is Some by {
            assert(t[i] == items[i]);
        }
        assert forall|i: int, j: int| 0 <= i < j < t.len() implies strip_prefix_spec(
            root,
            #[trigger] t[i].path.deep_view(),
        ) != strip_prefix_spec(root, #[trigger] t[j].path.deep_view()) by {
            assert(t[i] == items[i]);
            assert(t[j] == items[j]);
        }
        lemma_total_counts_every_file(root, t);
        lemma_kept_paths_come_from_items(root, t);
        let prev = kept_records(root, t);
        let last = items[n];
        assert(strip_prefix_spec(root, last.path.deep_view()) is Some);
        let rel = strip_prefix_spec(root, last.path.deep_view())->Some_0;
        if has_path(prev, rel) {
            let k = choose|k: int| 0 <= k < prev.len() && prev[k].0 == rel;
            let m = choose|m: int|
                0 <= m < t.len() && strip_prefix_spec(root, t[m].path.deep_view()) == Some(
                    #[trigger] prev[k].0,
                );
            assert(t[m] == items[m]);
            assert(false);
        }
        let cur = kept_records(root, items);
        assert(cur == prev.push((rel, last.digest@, last.size)));
        assert(cur.drop_last() =~= prev);
    }
}

/// Taking one file out of a sequence takes its size off the sum.
proof fn lemma_sum_of_sizes_remove(s: Seq<FileRecord>, i: int)
    requires
        0 <= i < s.len(),
    ensures
        sum_of_sizes(s) == sum_of_sizes(s.remove(i)) + s[i].size,
    decreases s.len(),
{
    if i == s.len() - 1 {
        assert(s.remove(i) =~= s.drop_last());
    } else {
        lemma_sum_of_sizes_remove(s.drop_last(), i);
        assert(s.remove(i).drop_last() =~= s.drop_last().remove(i));
        assert(s.remove(i).last() == s.last());
    }
}

/// The sum of sizes does not depend on the order of the files.
proof fn lemma_sum_of_sizes_permutation(a: Seq<FileRecord>, b: Seq<FileRecord>)
    requires
        a.to_multiset() == b.to_multiset(),
    ensures
        sum_of_sizes(a) == sum_of_sizes(b),
    decreases b.len(),
{
    broadcast use vstd::seq_lib::group_to_multiset_ensures;

    if b.len() == 0 {
        assert(a.to_multiset().len() == 0);
    } else {
        let x = b.last();
        let bt = b.drop_last();
        assert(b =~= bt.push(x));
        assert(b.to_multiset().count(x) > 0);
        assert(a.contains(x));
        let i = choose|i: int| 0 <= i < a.len() && a[i] == x;
        assert(a.remove(i).to_multiset() =~= bt.to_multiset());
        lemma_sum_of_sizes_permutation(a.remove(i), bt);
        lemma_sum_of_sizes_remove(a, i);
    }
}

/// Total-byte accounting does not depend on the order in which the files
/// were hashed: the same files in any order give the same total.
pub proof fn lemma_total_independent_of_order(
    root: PathView,
    a: Seq<FileRecord>,
    b: Seq<FileRecord>,
)
    requires
        distinct_under_root(root, a),
        distinct_under_root(root, b),
        a.to_multiset() == b.to_multiset(),
    ensures
        total_size(kept_records(root, a)) == total_size(kept_records(root, b)),
{
    lemma_total_counts_every_file(root, a);
    lemma_total_counts_every_file(root, b);
    lemma_sum_of_sizes_permutation(a, b);
}

/// The index of a record with path `p`, if there is one.
pub fn find_path(records: &Vec<FileRecord>, p: &Vec<String>) -> (r: Option<usize>)
    ensures
        match r {
            Some(j) => j < records.len() && records@[j as int]@.0 == p.deep_view(),
            None => !has_path(record_views(records@), p.deep_view()),
        },
{
    let mut j: usize = 0;
    while j < records.len()
        invariant
            0 <= j <= records.len(),
            forall|k: int| 0 <= k < j ==> records@[k]@.0 != p.deep_view(),
        decreases records.len() - j,
    {
        if same_path(&records[j].path, p) {
            return Some(j);
        }
        j += 1;
    }
    proof {
        let v = record_views(records@);
        if has_path(v, p.deep_view()) {
            let k = choose|k: int| 0 <= k < v.len() && v[k].0 == p.deep_view();
            assert(records@[k]@.0 == p.deep_view());
        }
    }
    None
}

/// The digests of one tree: a record per file, paths relative to the root
/// and unique, and the total of their sizes.
pub struct FingerprintResult {
    pub records: Vec<FileRecord>,
    pub total_bytes: u128,
}

impl FingerprintResult {
    pub open spec fn wf(&self) -> bool {
        &&& unique_paths(record_views(self.records@))
        &&& self.total_bytes == total_size(record_views(self.records@))
    }

    /// The result as a map from relative path to digest.
    pub open spec fn view(&self) -> Map<PathView, Seq<char>> {
        digest_map(record_views(self.records@))
    }

    /// Number of files recorded.
    pub fn file_count(&self) -> (r: usize)
        ensures
            r == self.records@.len(),
    {
        self.records.len()
    }
}

/// Collects hashed files, given by absolute path, into the result for the
/// tree rooted at `root`.
pub fn collect_fingerprint(root: &Vec<String>, hashed: &Vec<FileRecord>) -> (r: FingerprintResult)
    ensures
        r.wf(),
        record_views(r.records@) == kept_records(root.deep_view(), hashed@),
        r.total_bytes == total_size(kept_records(root.deep_view(), hashed@)),
{
    let mut records: Vec<FileRecord> = Vec::new();
    let mut total: u128 = 0;
    let mut i: usize = 0;
    while i < hashed.len()
        invariant
            0 <= i <= hashed.len(),
            record_views(records@) == kept_records(root.deep_view(), hashed@.take(i as int)),
            unique_paths(record_views(records@)),
            total == total_size(record_views(records@)),
            records@.len() <= i,
        decreases hashed.len() - i,
    {
        let item = &hashed[i];
        proof {
            assert(hashed@.take(i + 1).drop_last() =~= hashed@.take(i as int));
            assert(hashed@.take(i + 1).last() == hashed@[i as int]);
        }
        match relative_to(root, &item.path) {
            Some(rel) => {
                match find_path(&records, &rel) {
                    Some(_) => {
                        proof {
                            let j = choose|j: int| 0 <= j < records@.len() && records@[j]@.0 == rel.deep_view();
                            assert(record_views(records@)[j].0 == rel.deep_view());
                        }
                    },
                    None => {
                        proof {
                            lemma_total_size_bound(record_views(records@));
                        }
                        let ghost old_records = records@;
                        let size = item.size;
                        records.push(FileRecord { path: rel, digest: item.digest.clone(), size });
                        total = total + size as u128;
                        proof {
                            let v = record_views(records@);
                            assert(v =~= record_views(old_records).push(records@.last()@));
                            assert(v.drop_last() =~= record_views(old_records));
                        }
                    },
                }
            },
            None => {},
        }
        i += 1;
    }
    proof {
        assert(hashed@.take(hashed.len() as int) =~= hashed@);
    }
    FingerprintResult { records, total_bytes: total }
}

} // verus!
