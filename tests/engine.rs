use rdedupe::digest::{fingerprint, to_hex};
use rdedupe::engine::{
    duplicate_flags, find_duplicates, fingerprint_file, group, FileRead, FingerprintResult,
    GroupingTable, IoCause,
};
use rdedupe::search::find;

fn ok(path: &str, content: &str) -> FingerprintResult {
    fingerprint_file(FileRead { path: path.to_string(), content: Ok(content.as_bytes().to_vec()) })
}

fn failed(path: &str, cause: IoCause) -> FingerprintResult {
    fingerprint_file(FileRead { path: path.to_string(), content: Err(cause) })
}

fn sorted_groups(table: GroupingTable) -> Vec<Vec<String>> {
    let mut groups = find_duplicates(table);
    for g in groups.iter_mut() {
        g.sort();
    }
    groups.sort();
    groups
}

fn strings(items: &[&str]) -> Vec<String> {
    items.iter().map(|s| s.to_string()).collect()
}

#[test]
fn find_keeps_matching_paths_in_order() {
    let files = strings(&["tests/inputs/one.txt", "src/lib.rs", "tests/inputs/three.txt"]);
    assert_eq!(find(files, ".txt"), strings(&["tests/inputs/one.txt", "tests/inputs/three.txt"]));
}

#[test]
fn find_with_empty_pattern_keeps_all() {
    let files = strings(&["a", "", "b.txt"]);
    assert_eq!(find(files.clone(), ""), files);
}

#[test]
fn find_pattern_longer_than_path() {
    assert_eq!(find(strings(&["a.t", "xa.txt"]), "a.txt"), strings(&["xa.txt"]));
    assert!(find(Vec::new(), "x").is_empty());
}

#[test]
fn find_non_ascii_paths() {
    let files = strings(&["données/été.txt", "data/summer.txt"]);
    assert_eq!(find(files, "été"), strings(&["données/été.txt"]));
}

#[test]
fn hex_is_two_lowercase_digits_per_byte() {
    assert_eq!(to_hex(&vec![0x00, 0xff, 0x1a, 0xb0]), "00ff1ab0");
    assert_eq!(to_hex(&Vec::new()), "");
}

#[test]
fn fingerprint_is_md5_hex() {
    assert_eq!(fingerprint(&Vec::new()), "d41d8cd98f00b204e9800998ecf8427e");
    assert_eq!(fingerprint(&b"hello".to_vec()), "5d41402abc4b2a76b9719d911017c592");
    assert_eq!(fingerprint(&b"world".to_vec()), "7d793037a0760186574b0282f2f435e7");
}

#[test]
fn fingerprint_file_keeps_path_and_cause() {
    match ok("a.txt", "hello") {
        FingerprintResult::Success { path, digest } => {
            assert_eq!(path, "a.txt");
            assert_eq!(digest, "5d41402abc4b2a76b9719d911017c592");
        }
        FingerprintResult::Failure { .. } => panic!("expected a digest"),
    }
    match failed("d.txt", IoCause::NotFound) {
        FingerprintResult::Failure { path, cause } => {
            assert_eq!(path, "d.txt");
            assert_eq!(cause, IoCause::NotFound);
        }
        FingerprintResult::Success { .. } => panic!("expected a failure"),
    }
}

#[test]
fn empty_input_gives_nothing() {
    let table = group(Vec::new());
    assert!(table.groups.is_empty());
    assert!(table.failures.is_empty());
    assert!(find_duplicates(table).is_empty());
}

#[test]
fn single_file_is_no_duplicate() {
    let table = group(vec![ok("a.txt", "hello")]);
    assert_eq!(table.groups.len(), 1);
    assert_eq!(table.groups[0].paths, strings(&["a.txt"]));
    assert!(table.failures.is_empty());
    assert!(find_duplicates(table).is_empty());
}

#[test]
fn unreadable_file_is_one_failure() {
    let table = group(vec![failed("d.txt", IoCause::PermissionDenied)]);
    assert!(table.groups.is_empty());
    assert_eq!(table.failures.len(), 1);
    assert_eq!(table.failures[0].path, "d.txt");
    assert_eq!(table.failures[0].cause, IoCause::PermissionDenied);
    assert!(find_duplicates(table).is_empty());
}

#[test]
fn two_equal_files_and_one_other() {
    let table = group(vec![ok("a.txt", "hello"), ok("b.txt", "hello"), ok("c.txt", "world")]);
    assert!(table.failures.is_empty());
    assert_eq!(table.groups.len(), 2);
    let dups = find_duplicates(table);
    assert_eq!(dups, vec![strings(&["a.txt", "b.txt"])]);
    assert!(!dups.iter().any(|g| g.contains(&"c.txt".to_string())));
}

#[test]
fn permission_denied_file_is_reported_and_rest_grouped() {
    let table = group(vec![
        ok("a.txt", "hello"),
        failed("d.txt", IoCause::PermissionDenied),
        ok("b.txt", "hello"),
        ok("c.txt", "world"),
    ]);
    assert_eq!(table.failures.len(), 1);
    assert_eq!(table.failures[0].path, "d.txt");
    assert_eq!(table.failures[0].cause, IoCause::PermissionDenied);
    assert_eq!(find_duplicates(table), vec![strings(&["a.txt", "b.txt"])]);
}

#[test]
fn groups_are_keyed_by_digest_in_first_seen_order() {
    let table = group(vec![ok("x", "1"), ok("y", "2"), ok("z", "1"), ok("w", "2"), ok("v", "3")]);
    assert_eq!(table.groups.len(), 3);
    assert_eq!(table.groups[0].digest, fingerprint(&b"1".to_vec()));
    assert_eq!(table.groups[0].paths, strings(&["x", "z"]));
    assert_eq!(table.groups[1].paths, strings(&["y", "w"]));
    assert_eq!(table.groups[2].paths, strings(&["v"]));
    assert_eq!(find_duplicates(table), vec![strings(&["x", "z"]), strings(&["y", "w"])]);
}

#[test]
fn every_path_accounted_once() {
    let results = vec![
        ok("a", "same"),
        ok("b", "same"),
        ok("c", "alone"),
        failed("d", IoCause::Interrupted),
        ok("a", "same"),
    ];
    let table = group(results);
    let mut seen: Vec<String> = table.failures.iter().map(|f| f.path.clone()).collect();
    for g in &table.groups {
        seen.extend(g.paths.iter().cloned());
    }
    seen.sort();
    assert_eq!(seen, strings(&["a", "a", "b", "c", "d"]));
    let dups = find_duplicates(table);
    assert_eq!(dups, vec![strings(&["a", "b", "a"])]);
}

#[test]
fn arrival_order_does_not_change_groups() {
    let forward = group(vec![
        ok("a", "hello"),
        ok("b", "world"),
        ok("c", "hello"),
        failed("d", IoCause::Other),
        ok("e", "world"),
        ok("f", "unique"),
    ]);
    let backward = group(vec![
        ok("f", "unique"),
        ok("e", "world"),
        failed("d", IoCause::Other),
        ok("c", "hello"),
        ok("b", "world"),
        ok("a", "hello"),
    ]);
    assert_eq!(forward.failures.len(), backward.failures.len());
    assert_eq!(sorted_groups(forward), sorted_groups(backward));
}

#[test]
fn empty_files_are_duplicates_of_each_other() {
    let table = group(vec![ok("e1", ""), ok("e2", ""), ok("x", "x")]);
    assert_eq!(find_duplicates(table), vec![strings(&["e1", "e2"])]);
}

#[test]
fn duplicate_flags_mark_shared_digests() {
    let digests = strings(&["aa", "bb", "aa", "cc"]);
    assert_eq!(duplicate_flags(&digests), vec![true, false, true, false]);
    assert!(duplicate_flags(&Vec::new()).is_empty());
    assert_eq!(duplicate_flags(&strings(&["aa"])), vec![false]);
}

#[test]
fn colliding_digests_count_as_duplicates() {
    let same = "0123456789abcdef0123456789abcdef".to_string();
    let table = group(vec![
        FingerprintResult::Success { path: "p".to_string(), digest: same.clone() },
        FingerprintResult::Success { path: "q".to_string(), digest: same },
    ]);
    assert_eq!(find_duplicates(table), vec![strings(&["p", "q"])]);
}
