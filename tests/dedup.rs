use std::cmp::Ordering;

use backup_tool::db::IndexRow;
use backup_tool::dedup::{compare_paths, metadata_matches, plan_differential, plan_initial};
use backup_tool::entry::{FileEntry, FileNanoTime, PathBytes};
use backup_tool::hash;

fn entry(path: &str, size: u64, mtime: u64) -> FileEntry {
    FileEntry { path: PathBytes(path.as_bytes().to_vec()), size, mtime: FileNanoTime(mtime) }
}

fn row(path: &str, size: u64, mtime: u64, content: &[u8]) -> IndexRow {
    IndexRow { entry: entry(path, size, mtime), hash: hash::Hash::of_bytes(content).0 }
}

fn paths(v: &[(hash::Hash, FileEntry)]) -> Vec<String> {
    v.iter().map(|p| String::from_utf8(p.1.path.0.clone()).unwrap()).collect()
}

#[test]
fn paths_compare_bytewise() {
    let p = |s: &str| PathBytes(s.as_bytes().to_vec());
    assert_eq!(compare_paths(&p("a"), &p("b")), Ordering::Less);
    assert_eq!(compare_paths(&p("b"), &p("a")), Ordering::Greater);
    assert_eq!(compare_paths(&p("ab"), &p("ab")), Ordering::Equal);
    assert_eq!(compare_paths(&p("a"), &p("ab")), Ordering::Less);
    assert_eq!(compare_paths(&p("ab"), &p("a")), Ordering::Greater);
    assert_eq!(compare_paths(&p("a/z"), &p("a0")), Ordering::Less);
}

#[test]
fn initial_plan_writes_each_content_once_in_path_order() {
    let files = vec![entry("c", 3, 1), entry("a", 3, 2), entry("b", 4, 3), entry("d", 3, 4)];
    let hashes = vec![
        hash::Hash::of_bytes(b"xyz"),
        hash::Hash::of_bytes(b"xyz"),
        hash::Hash::of_bytes(b"uvwx"),
        hash::Hash::of_bytes(b"abc"),
    ];
    let plan = plan_initial(&files, &hashes);
    assert_eq!(plan.rows.len(), 4);
    for (i, r) in plan.rows.iter().enumerate() {
        assert_eq!(r.entry.path, files[i].path);
        assert_eq!(r.hash, hashes[i].0);
    }
    assert_eq!(paths(&plan.to_write), vec!["a", "b", "d"]);
    assert_eq!(plan.to_write[0].0, hashes[0]);
    assert_eq!(plan.copied, 1);
}

#[test]
fn unchanged_source_writes_nothing() {
    let reference = vec![row("a", 5, 10, b"hello"), row("b", 7, 11, b"world!!")];
    let files = vec![entry("a", 5, 10), entry("b", 7, 11)];
    let known = metadata_matches(&files, &reference);
    assert!(known.iter().all(|k| k.is_some()));
    let computed = vec![hash::Hash([0; 16]); 2];
    let plan = plan_differential(&files, &known, &computed, &reference);
    assert!(plan.to_write.is_empty());
    assert_eq!(plan.copied, 2);
    for (r, old) in plan.rows.iter().zip(&reference) {
        assert_eq!(r.entry.path, old.entry.path);
        assert_eq!(r.entry.size, old.entry.size);
        assert_eq!(r.entry.mtime, old.entry.mtime);
        assert_eq!(r.hash, old.hash);
    }
}

#[test]
fn renamed_file_is_copied_by_hash() {
    let reference = vec![row("a", 5, 10, b"hello")];
    let files = vec![entry("a2", 5, 10)];
    let known = metadata_matches(&files, &reference);
    assert_eq!(known, vec![None]);
    let computed = vec![hash::Hash::of_bytes(b"hello")];
    let plan = plan_differential(&files, &known, &computed, &reference);
    assert!(plan.to_write.is_empty());
    assert_eq!(plan.copied, 1);
    assert_eq!(plan.rows[0].hash, reference[0].hash);
    assert_eq!(plan.rows[0].entry.path.0, b"a2".to_vec());
}

#[test]
fn edited_file_is_written_with_its_new_hash() {
    let reference = vec![row("a", 5, 10, b"hello"), row("b", 1, 10, b"b")];
    let files = vec![entry("b", 1, 10), entry("a", 5, 12)];
    let known = metadata_matches(&files, &reference);
    assert!(known[0].is_some());
    assert_eq!(known[1], None);
    let fresh = hash::Hash::of_bytes(b"HELLO");
    let computed = vec![hash::Hash([0; 16]), fresh];
    let plan = plan_differential(&files, &known, &computed, &reference);
    assert_eq!(paths(&plan.to_write), vec!["a"]);
    assert_eq!(plan.to_write[0].0, fresh);
    assert_eq!(plan.rows[1].hash, fresh.0);
    assert_eq!(plan.copied, 1);
}

#[test]
fn touched_file_is_copied_by_hash() {
    let reference = vec![row("a", 5, 10, b"hello")];
    let files = vec![entry("a", 5, 99)];
    let known = metadata_matches(&files, &reference);
    assert_eq!(known, vec![None]);
    let plan = plan_differential(&files, &known, &vec![hash::Hash::of_bytes(b"hello")], &reference);
    assert!(plan.to_write.is_empty());
}

#[test]
fn files_to_write_come_in_path_order() {
    let reference: Vec<IndexRow> = Vec::new();
    let files = vec![entry("z", 1, 1), entry("m/x", 1, 1), entry("a", 1, 1), entry("m", 1, 1)];
    let known = metadata_matches(&files, &reference);
    let computed = vec![
        hash::Hash::of_bytes(b"1"),
        hash::Hash::of_bytes(b"2"),
        hash::Hash::of_bytes(b"3"),
        hash::Hash::of_bytes(b"4"),
    ];
    let plan = plan_differential(&files, &known, &computed, &reference);
    assert_eq!(paths(&plan.to_write), vec!["a", "m", "m/x", "z"]);
    assert_eq!(plan.copied + plan.to_write.len(), files.len());
}

#[test]
fn differential_plan_is_the_same_twice() {
    let reference = vec![row("a", 5, 10, b"hello")];
    let files = vec![entry("q", 1, 1), entry("a", 5, 10), entry("p", 2, 2)];
    let known = metadata_matches(&files, &reference);
    let computed = vec![hash::Hash::of_bytes(b"q"), hash::Hash([0; 16]), hash::Hash::of_bytes(b"pp")];
    let one = plan_differential(&files, &known, &computed, &reference);
    let two = plan_differential(&files, &known, &computed, &reference);
    assert_eq!(paths(&one.to_write), paths(&two.to_write));
    assert_eq!(one.to_write.iter().map(|p| p.0).collect::<Vec<_>>(), two.to_write.iter().map(|p| p.0).collect::<Vec<_>>());
}


#[test]
fn hashes_sharing_a_prefix_are_told_apart() {
    let mut h1 = [1u8; 16];
    let mut h2 = [1u8; 16];
    h1[15] = 2;
    h2[15] = 3;
    let reference = vec![IndexRow { entry: entry("old", 4, 1), hash: h1 }];
    let files = vec![entry("new", 4, 2)];
    let known = metadata_matches(&files, &reference);
    let plan = plan_differential(&files, &known, &vec![hash::Hash(h2)], &reference);
    assert_eq!(paths(&plan.to_write), vec!["new"]);
    let again = plan_differential(&files, &known, &vec![hash::Hash(h1)], &reference);
    assert!(again.to_write.is_empty());
}

#[test]
fn metadata_tier_needs_path_size_and_time_to_match() {
    let reference = vec![
        row("a", 5, 10, b"hello"),
        row("b", 5, 10, b"other"),
        row("c", 6, 10, b"third!"),
    ];
    let files = vec![entry("b", 5, 10), entry("c", 7, 10), entry("d", 5, 10)];
    let known = metadata_matches(&files, &reference);
    assert_eq!(known[0], Some(hash::Hash::of_bytes(b"other")));
    assert_eq!(known[1], None);
    assert_eq!(known[2], None);
}

#[test]
fn initial_plan_with_duplicates_keeps_all_rows() {
    let files = vec![entry("x", 2, 1), entry("y", 2, 1), entry("z", 2, 1)];
    let same = hash::Hash::of_bytes(b"ab");
    let plan = plan_initial(&files, &vec![same, same, same]);
    assert_eq!(plan.rows.len(), 3);
    assert_eq!(paths(&plan.to_write), vec!["x"]);
    assert_eq!(plan.copied, 2);
}

#[test]
fn empty_scan_plans_nothing() {
    let plan = plan_initial(&Vec::new(), &Vec::new());
    assert!(plan.rows.is_empty() && plan.to_write.is_empty());
    assert_eq!(plan.copied, 0);
}
