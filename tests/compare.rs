use folder_compare::{
    compare_folders, fingerprint, fingerprints_only_in, hex_encode, index_records, parse_actions,
    parse_invocation, path_list_text, reconcile, Actions, FileRecord, FingerprintIndex,
    UsageError,
};

fn read(path: &str, content: &[u8]) -> FileRecord {
    FileRecord { path: path.to_string(), fingerprint: Some(fingerprint(content)) }
}

fn unreadable(path: &str) -> FileRecord {
    FileRecord { path: path.to_string(), fingerprint: None }
}

fn index(records: Vec<FileRecord>) -> FingerprintIndex {
    let (idx, failures) = index_records(&records);
    assert!(failures.is_empty());
    idx
}

/// Each fingerprint of the index with its paths, sorted, for comparing
/// indices without regard to order.
fn as_sorted_sets(idx: &FingerprintIndex) -> Vec<(String, Vec<String>)> {
    let mut out = Vec::new();
    for i in 0..idx.len() {
        let e = idx.entry(i);
        let mut paths = e.paths.clone();
        paths.sort();
        out.push((e.fingerprint.clone(), paths));
    }
    out.sort();
    out
}

fn strings(v: &[&str]) -> Vec<String> {
    v.iter().map(|s| s.to_string()).collect()
}

#[test]
fn fingerprint_is_lowercase_hex_md5() {
    assert_eq!(fingerprint(b"hello"), "5d41402abc4b2a76b9719d911017c592");
    assert_eq!(fingerprint(b""), "d41d8cd98f00b204e9800998ecf8427e");
    assert_eq!(fingerprint(b"world").len(), 32);
}

#[test]
fn equal_content_gives_equal_fingerprints() {
    let a = fingerprint(b"same bytes");
    let b = fingerprint(&b"same bytes".to_vec());
    assert_eq!(a, b);
    assert_ne!(fingerprint(b"hello"), fingerprint(b"world"));
    assert_ne!(fingerprint(b"dup"), fingerprint(b"dup\n"));
}

#[test]
fn index_groups_paths_by_fingerprint() {
    let idx = index(vec![read("t/a", b"x"), read("t/b", b"y"), read("t/c", b"x")]);
    assert_eq!(idx.len(), 2);
    let x = idx.find(&fingerprint(b"x")).unwrap();
    assert_eq!(idx.entry(x).paths, strings(&["t/a", "t/c"]));
    let y = idx.find(&fingerprint(b"y")).unwrap();
    assert_eq!(idx.entry(y).paths, strings(&["t/b"]));
    assert_eq!(idx.find(&fingerprint(b"z")), None);
}

#[test]
fn unreadable_file_is_isolated() {
    let records = vec![
        read("d/one", b"1"),
        unreadable("d/locked"),
        read("d/two", b"2"),
        read("d/three", b"1"),
    ];
    let (idx, failures) = index_records(&records);
    assert_eq!(failures, strings(&["d/locked"]));
    let total: usize = (0..idx.len()).map(|i| idx.entry(i).paths.len()).sum();
    assert_eq!(total, 3);
    assert_eq!(idx.len(), 2);
}

#[test]
fn all_unreadable_gives_empty_index() {
    let (idx, failures) = index_records(&vec![unreadable("p"), unreadable("q")]);
    assert_eq!(idx.len(), 0);
    assert_eq!(failures, strings(&["p", "q"]));
}

#[test]
fn reindexing_in_another_order_gives_same_sets() {
    let first = index(vec![read("r/a", b"1"), read("r/b", b"2"), read("r/c", b"1")]);
    let second = index(vec![read("r/c", b"1"), read("r/b", b"2"), read("r/a", b"1")]);
    assert_eq!(as_sorted_sets(&first), as_sorted_sets(&second));
}

#[test]
fn scenario_one_duplicate_and_unique() {
    let a = index(vec![read("A/a.txt", b"hello")]);
    let b = index(vec![read("B/b.txt", b"hello"), read("B/c.txt", b"world")]);
    let r = reconcile(&a, &b);
    assert_eq!(r.b_duplicates, strings(&["B/b.txt"]));
    assert_eq!(r.b_unique, strings(&["B/c.txt"]));
}

#[test]
fn scenario_two_empty_trees() {
    let r = reconcile(&index(vec![]), &index(vec![]));
    assert!(r.b_duplicates.is_empty());
    assert!(r.b_unique.is_empty());
}

#[test]
fn scenario_three_shared_fingerprint() {
    let a = index(vec![read("A/x.txt", b"dup")]);
    let b = index(vec![read("B/y1.txt", b"dup"), read("B/y2.txt", b"dup")]);
    let r = reconcile(&a, &b);
    assert_eq!(r.b_duplicates, strings(&["B/y1.txt", "B/y2.txt"]));
    assert!(r.b_unique.is_empty());
}

#[test]
fn scenario_four_selector_you() {
    let actions = parse_actions("you");
    assert_eq!(
        actions,
        Actions { delete_duplicates: true, write_duplicates: true, write_unique: true }
    );
    let a = index(vec![read("A/orig", b"kept")]);
    let b = index(vec![read("B/copy", b"kept"), read("B/new", b"fresh")]);
    let r = reconcile(&a, &b);
    assert_eq!(r.b_duplicates, strings(&["B/copy"]));
    assert_eq!(path_list_text(&r.b_duplicates), "B/copy\n");
    assert_eq!(path_list_text(&r.b_unique), "B/new\n");
}

#[test]
fn reconcile_partitions_b() {
    let a = index(vec![read("A/1", b"p"), read("A/2", b"q"), read("A/3", b"p")]);
    let b = index(vec![
        read("B/1", b"q"),
        read("B/2", b"r"),
        read("B/3", b"p"),
        read("B/4", b"r"),
        read("B/5", b"s"),
    ]);
    let r = reconcile(&a, &b);
    let mut dups = r.b_duplicates.clone();
    dups.sort();
    let mut uniq = r.b_unique.clone();
    uniq.sort();
    assert_eq!(dups, strings(&["B/1", "B/3"]));
    assert_eq!(uniq, strings(&["B/2", "B/4", "B/5"]));
    let mut all: Vec<String> = dups.iter().chain(uniq.iter()).cloned().collect();
    all.sort();
    assert_eq!(all, strings(&["B/1", "B/2", "B/3", "B/4", "B/5"]));
}

#[test]
fn duplicates_in_a_count_once() {
    let a = index(vec![read("A/1", b"z"), read("A/2", b"z"), read("A/3", b"z")]);
    let b = index(vec![read("B/1", b"z")]);
    let r = reconcile(&a, &b);
    assert_eq!(r.b_duplicates, strings(&["B/1"]));
    assert!(r.b_unique.is_empty());
}

#[test]
fn fingerprints_only_in_one_tree() {
    let a = index(vec![read("A/1", b"m"), read("A/2", b"n"), read("A/3", b"o")]);
    let b = index(vec![read("B/1", b"n"), read("B/2", b"k")]);
    let only_a = fingerprints_only_in(&a, &b);
    assert_eq!(only_a, vec![0, 2]);
    assert_eq!(a.entry(only_a[0]).fingerprint, fingerprint(b"m"));
    assert_eq!(a.entry(only_a[1]).fingerprint, fingerprint(b"o"));
    let only_b = fingerprints_only_in(&b, &a);
    assert_eq!(only_b, vec![1]);
    assert_eq!(b.entry(1).paths, strings(&["B/2"]));
}

#[test]
fn compare_folders_indexes_and_reconciles() {
    let ra = vec![read("A/a", b"same"), unreadable("A/bad")];
    let rb = vec![read("B/a", b"same"), read("B/b", b"other"), unreadable("B/bad")];
    let c = compare_folders(&ra, &rb);
    assert_eq!(c.failures_a, strings(&["A/bad"]));
    assert_eq!(c.failures_b, strings(&["B/bad"]));
    assert_eq!(c.index_a.len(), 1);
    assert_eq!(c.index_b.len(), 2);
    assert_eq!(c.result.b_duplicates, strings(&["B/a"]));
    assert_eq!(c.result.b_unique, strings(&["B/b"]));
}

#[test]
fn parse_actions_reads_each_letter() {
    assert_eq!(
        parse_actions(""),
        Actions { delete_duplicates: false, write_duplicates: false, write_unique: false }
    );
    assert_eq!(
        parse_actions("u"),
        Actions { delete_duplicates: false, write_duplicates: false, write_unique: true }
    );
    assert_eq!(
        parse_actions("oxo"),
        Actions { delete_duplicates: false, write_duplicates: true, write_unique: false }
    );
    assert_eq!(
        parse_actions("Y"),
        Actions { delete_duplicates: false, write_duplicates: false, write_unique: false }
    );
    assert_eq!(
        parse_actions("é-y"),
        Actions { delete_duplicates: true, write_duplicates: false, write_unique: false }
    );
}

#[test]
fn parse_invocation_needs_two_directories() {
    assert_eq!(parse_invocation(&strings(&[])).err(), Some(UsageError::MissingDirectories));
    assert_eq!(
        parse_invocation(&strings(&["prog", "only_a"])).err(),
        Some(UsageError::MissingDirectories)
    );
    let inv = parse_invocation(&strings(&["prog", "A", "B"])).ok().unwrap();
    assert_eq!(inv.dir_a, "A");
    assert_eq!(inv.dir_b, "B");
    assert_eq!(inv.action, None);
    let inv = parse_invocation(&strings(&["prog", "A", "B", "yo", "extra"])).ok().unwrap();
    assert_eq!(inv.action, Some("yo".to_string()));
}

#[test]
fn path_list_text_one_per_line() {
    assert_eq!(path_list_text(&vec![]), "");
    assert_eq!(path_list_text(&strings(&["a/b", "c"])), "a/b\nc\n");
}

#[test]
fn insert_appends_under_existing_fingerprint() {
    let mut idx = FingerprintIndex::new();
    idx.insert("f1".to_string(), "p1".to_string());
    idx.insert("f2".to_string(), "p2".to_string());
    idx.insert("f1".to_string(), "p3".to_string());
    assert_eq!(idx.len(), 2);
    assert_eq!(idx.entry(0).fingerprint, "f1");
    assert_eq!(idx.entry(0).paths, strings(&["p1", "p3"]));
    assert_eq!(idx.entry(1).paths, strings(&["p2"]));
}

#[test]
fn hex_encode_two_digits_per_byte() {
    assert_eq!(hex_encode(&[]), "");
    assert_eq!(hex_encode(&[0x00, 0x0f, 0xab, 0xff]), "000fabff");
}
