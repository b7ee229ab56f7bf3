use ddiff::digest::ContentDigester;
use ddiff::fingerprint::{collect_fingerprint, find_path, FileRecord, FingerprintResult};
use ddiff::paths::{relative_to, same_path};
use ddiff::reconcile::{reconcile, Reconciliation};
use humansize::{file_size_opts, FileSize};

fn comps(parts: &[&str]) -> Vec<String> {
    parts.iter().map(|p| p.to_string()).collect()
}

fn digest_chunks(chunks: &[&[u8]]) -> (String, u64) {
    let mut d = ContentDigester::new();
    for c in chunks {
        d.absorb(c);
    }
    d.finish()
}

fn reference_hex(data: &[u8]) -> String {
    blake3::hash(data).to_hex().to_string()
}

fn hashed(root: &[&str], name: &str, content: &[u8]) -> FileRecord {
    let mut path = comps(root);
    path.push(name.to_string());
    let (digest, size) = digest_chunks(&[content]);
    FileRecord { path, digest, size }
}

fn tree(root: &[&str], files: &[(&str, &[u8])]) -> FingerprintResult {
    let items: Vec<FileRecord> = files.iter().map(|(n, c)| hashed(root, n, c)).collect();
    collect_fingerprint(&comps(root), &items)
}

fn sorted_paths(records: &[FileRecord]) -> Vec<String> {
    let mut v: Vec<String> = records.iter().map(|r| r.path.join("/")).collect();
    v.sort();
    v
}

#[test]
fn simple_dirs_comparsion() {
    let root_a = ["tmp", "a"];
    let root_b = ["tmp", "b"];
    let a = tree(&root_a, &[("uniqueA", b"uniqueA\n"), ("diff", b"diffA\n")]);
    let b = tree(&root_b, &[("uniqueB", b"uniqueB\n"), ("diff", b"diffB\n")]);
    let r: Reconciliation = reconcile(&a, &b);

    assert_eq!(r.modified.len(), 1);
    assert_eq!(r.modified[0].path, comps(&["diff"]));
    assert_eq!(r.modified[0].left_digest, reference_hex(b"diffA\n"));
    assert_eq!(r.modified[0].right_digest, reference_hex(b"diffB\n"));

    assert_eq!(r.left_only.len(), 1);
    assert_eq!(r.left_only[0].path, comps(&["uniqueA"]));
    assert_eq!(r.left_only[0].digest, reference_hex(b"uniqueA\n"));

    assert_eq!(r.right_only.len(), 1);
    assert_eq!(r.right_only[0].path, comps(&["uniqueB"]));
    assert_eq!(r.right_only[0].digest, reference_hex(b"uniqueB\n"));

    let total = a.total_bytes + b.total_bytes;
    assert_eq!(total, 28);
    let shown = (total as u64).file_size(file_size_opts::BINARY).unwrap();
    assert_eq!(shown, "28 B");
}

#[test]
fn digest_matches_reference_and_is_lower_hex() {
    let (hex, size) = digest_chunks(&[b"hello world"]);
    assert_eq!(hex, reference_hex(b"hello world"));
    assert_eq!(size, 11);
    assert_eq!(hex.len(), 64);
    assert!(hex.chars().all(|c| c.is_ascii_digit() || ('a'..='f').contains(&c)));
    assert_ne!(hex, "hello world");
}

#[test]
fn digest_of_empty_content() {
    let (hex, size) = digest_chunks(&[]);
    assert_eq!(hex, reference_hex(b""));
    assert_eq!(size, 0);
}

#[test]
fn digest_is_independent_of_chunking() {
    let content: Vec<u8> = (0..40000u32).map(|i| (i % 251) as u8).collect();
    let whole = digest_chunks(&[&content]);
    let split = digest_chunks(&[&content[..16384], &content[16384..32768], &content[32768..]]);
    let again = digest_chunks(&[&content[..1], &content[1..]]);
    assert_eq!(whole, split);
    assert_eq!(whole, again);
    assert_eq!(whole.0, reference_hex(&content));
    assert_eq!(whole.1, 40000);
}

#[test]
fn digester_counts_bytes() {
    let mut d = ContentDigester::new();
    assert_eq!(d.byte_count(), 0);
    d.absorb(b"abc");
    d.absorb(b"");
    d.absorb(b"de");
    assert_eq!(d.byte_count(), 5);
    assert_eq!(d.finish(), (reference_hex(b"abcde"), 5));
}

#[test]
fn relative_path_under_root() {
    let r = relative_to(&comps(&["", "home", "x"]), &comps(&["", "home", "x", "sub", "f.txt"]));
    assert_eq!(r, Some(comps(&["sub", "f.txt"])));
}

#[test]
fn relative_path_outside_root() {
    assert_eq!(relative_to(&comps(&["a", "b"]), &comps(&["a", "bc", "f"])), None);
    assert_eq!(relative_to(&comps(&["a", "b"]), &comps(&["a"])), None);
    assert_eq!(relative_to(&comps(&["a"]), &comps(&["a"])), Some(vec![]));
}

#[test]
fn same_path_compares_components() {
    assert!(same_path(&comps(&["a", "b"]), &comps(&["a", "b"])));
    assert!(!same_path(&comps(&["a", "b"]), &comps(&["a", "c"])));
    assert!(!same_path(&comps(&["a"]), &comps(&["a", "b"])));
    assert!(!same_path(&comps(&["ab"]), &comps(&["a", "b"])));
}

#[test]
fn collect_strips_root_and_sums_sizes() {
    let fp = tree(&["r"], &[("x", b"12345"), ("y", b"678")]);
    assert_eq!(fp.file_count(), 2);
    assert_eq!(fp.total_bytes, 8);
    assert_eq!(sorted_paths(&fp.records), vec!["x".to_string(), "y".to_string()]);
    assert_eq!(find_path(&fp.records, &comps(&["y"])), Some(1));
    assert_eq!(find_path(&fp.records, &comps(&["z"])), None);
}

#[test]
fn collect_skips_outside_and_repeated_paths() {
    let items = vec![
        hashed(&["r"], "x", b"first"),
        hashed(&["elsewhere"], "x", b"outside"),
        hashed(&["r"], "x", b"second!"),
    ];
    let fp = collect_fingerprint(&comps(&["r"]), &items);
    assert_eq!(fp.records.len(), 1);
    assert_eq!(fp.records[0].digest, reference_hex(b"first"));
    assert_eq!(fp.total_bytes, 5);
}

#[test]
fn empty_trees_reconcile_to_nothing() {
    let a = tree(&["a"], &[]);
    let b = tree(&["b"], &[]);
    let r = reconcile(&a, &b);
    assert!(r.is_empty());
    assert_eq!(a.total_bytes + b.total_bytes, 0);
}

#[test]
fn identical_file_is_not_reported() {
    let a = tree(&["a"], &[("same", b"equal\n"), ("other", b"1")]);
    let b = tree(&["b"], &[("same", b"equal\n"), ("other", b"1")]);
    let r = reconcile(&a, &b);
    assert!(r.is_empty());
}

#[test]
fn changed_file_is_modified_once() {
    let a = tree(&["a"], &[("f", b"one"), ("g", b"same")]);
    let b = tree(&["b"], &[("g", b"same"), ("f", b"two")]);
    let r = reconcile(&a, &b);
    assert_eq!(r.modified.len(), 1);
    assert_eq!(r.modified[0].path, comps(&["f"]));
    assert_eq!(r.modified[0].left_digest, reference_hex(b"one"));
    assert_eq!(r.modified[0].right_digest, reference_hex(b"two"));
    assert!(r.left_only.is_empty());
    assert!(r.right_only.is_empty());
}

#[test]
fn one_sided_files_are_reported_on_their_side() {
    let a = tree(&["a"], &[("l1", b"x"), ("both", b"b"), ("l2", b"y")]);
    let b = tree(&["b"], &[("both", b"b"), ("r1", b"z")]);
    let r = reconcile(&a, &b);
    assert!(r.modified.is_empty());
    assert_eq!(sorted_paths(&r.left_only), vec!["l1".to_string(), "l2".to_string()]);
    assert_eq!(sorted_paths(&r.right_only), vec!["r1".to_string()]);
    assert_eq!(r.right_only[0].digest, reference_hex(b"z"));
}

#[test]
fn renamed_file_is_not_matched_by_content() {
    let a = tree(&["a"], &[("old_name", b"content")]);
    let b = tree(&["b"], &[("new_name", b"content")]);
    let r = reconcile(&a, &b);
    assert!(r.modified.is_empty());
    assert_eq!(r.left_only.len(), 1);
    assert_eq!(r.right_only.len(), 1);
}

#[test]
fn partition_covers_every_path_once() {
    let a = tree(&["a"], &[("u", b"1"), ("m", b"2"), ("l", b"3")]);
    let b = tree(&["b"], &[("u", b"1"), ("m", b"9"), ("r", b"4")]);
    let r = reconcile(&a, &b);
    let mut reported: Vec<String> = r.modified.iter().map(|e| e.path.join("/")).collect();
    reported.extend(sorted_paths(&r.left_only));
    reported.extend(sorted_paths(&r.right_only));
    reported.sort();
    assert_eq!(reported, vec!["l".to_string(), "m".to_string(), "r".to_string()]);
}

#[test]
fn total_is_independent_of_order() {
    let forward = tree(&["r"], &[("a", b"1"), ("b", b"22"), ("c", b"333")]);
    let backward = tree(&["r"], &[("c", b"333"), ("a", b"1"), ("b", b"22")]);
    assert_eq!(forward.total_bytes, 6);
    assert_eq!(backward.total_bytes, 6);
    assert_eq!(sorted_paths(&forward.records), sorted_paths(&backward.records));
    assert!(reconcile(&forward, &backward).is_empty());
}
