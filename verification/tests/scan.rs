use rdu::entry::{Entry, EntryKind, Stats};
use rdu::scan::{
    at_depth_limit, child_depth, collapsed_dir, counted_size, dir_entry, entry_name, leaf_entry, sort_by_size_desc, sum_sizes,
    total_size,
};

fn file(name: &str, size: u64) -> Entry {
    Entry { name: name.into(), size, kind: EntryKind::File }
}

fn sizes(v: &[Entry]) -> Vec<u64> {
    v.iter().map(|e| e.size).collect()
}

#[test]
fn sort_orders_largest_first() {
    let v = vec![file("small", 1), file("large", 10), file("medium", 5)];
    let sorted = sort_by_size_desc(v);
    assert_eq!(sizes(&sorted), vec![10, 5, 1]);
}

#[test]
fn sort_keeps_every_entry() {
    let mut v = Vec::new();
    let mut x: u64 = 12345;
    for i in 0..500 {
        x = x.wrapping_mul(6364136223846793005).wrapping_add(1442695040888963407);
        v.push(file(&format!("f{}", i), x % 97));
    }
    let mut expected = sizes(&v);
    expected.sort_unstable_by(|a, b| b.cmp(a));
    let sorted = sort_by_size_desc(v);
    assert_eq!(sizes(&sorted), expected);
    let mut names: Vec<String> = sorted.iter().map(|e| e.name.clone()).collect();
    names.sort();
    let mut want: Vec<String> = (0..500).map(|i| format!("f{}", i)).collect();
    want.sort();
    assert_eq!(names, want);
}

#[test]
fn sort_of_nothing_and_of_one() {
    assert!(sort_by_size_desc(Vec::new()).is_empty());
    assert_eq!(sizes(&sort_by_size_desc(vec![file("a", 3)])), vec![3]);
}

#[test]
fn dir_entry_sums_and_sorts() {
    let e = dir_entry("d".to_string(), vec![file("a", 4), file("b", 2), file("c", 6)]);
    assert_eq!(e.name, "d");
    assert_eq!(e.size, 12);
    match &e.kind {
        EntryKind::Dir { children } => assert_eq!(sizes(children), vec![6, 4, 2]),
        _ => panic!("expected Dir"),
    }
}

#[test]
fn dir_entry_of_nothing_is_empty() {
    let e = dir_entry("empty".to_string(), Vec::new());
    assert_eq!(e.size, 0);
    assert!(matches!(&e.kind, EntryKind::Dir { children } if children.is_empty()));
}

#[test]
fn total_size_sums_or_refuses() {
    assert_eq!(total_size(&vec![file("a", 4), file("b", 2)]), Some(6));
    assert_eq!(total_size(&Vec::new()), Some(0));
    assert_eq!(total_size(&vec![file("a", u64::MAX), file("b", 1)]), None);
    assert_eq!(total_size(&vec![file("a", u64::MAX - 1), file("b", 1)]), Some(u64::MAX));
}

#[test]
fn sum_sizes_sums_or_refuses() {
    assert_eq!(sum_sizes(&vec![1, 2, 3]), Some(6));
    assert_eq!(sum_sizes(&vec![]), Some(0));
    assert_eq!(sum_sizes(&vec![u64::MAX, 1]), None);
}

#[test]
fn depth_limit() {
    assert!(at_depth_limit(0, Some(0)));
    assert!(!at_depth_limit(0, Some(1)));
    assert!(at_depth_limit(1, Some(1)));
    assert!(at_depth_limit(3, Some(1)));
    assert!(!at_depth_limit(1_000, None));
}

#[test]
fn leaf_entries() {
    let l = leaf_entry("l".to_string(), true, false, 77).unwrap();
    assert!(matches!(l.kind, EntryKind::Symlink));
    assert_eq!(l.size, 0);
    let f = leaf_entry("f".to_string(), false, true, 11).unwrap();
    assert!(matches!(f.kind, EntryKind::File));
    assert_eq!(f.size, 11);
    assert_eq!(f.name, "f");
    assert!(leaf_entry("d".to_string(), false, false, 4096).is_none());
}

#[test]
fn collapsed_directory() {
    let d = collapsed_dir("deep".to_string(), 12);
    assert_eq!(d.size, 12);
    assert!(matches!(&d.kind, EntryKind::Dir { children } if children.is_empty()));
}

#[test]
fn entry_names() {
    assert_eq!(entry_name(Some("a.txt".to_string()), "/x/a.txt".to_string()), "a.txt");
    assert_eq!(entry_name(None, "/".to_string()), "/");
}

#[test]
fn scanned_tree_counts_no_more_bytes_than_its_size() {
    let deep = collapsed_dir("deep".to_string(), 4_000);
    let sub = dir_entry(
        "sub".to_string(),
        vec![
            leaf_entry("a".to_string(), false, true, 300).unwrap(),
            leaf_entry("l".to_string(), true, false, 99).unwrap(),
            deep,
        ],
    );
    let root = dir_entry("root".to_string(), vec![sub, leaf_entry("b".to_string(), false, true, 50).unwrap()]);
    assert_eq!(root.size, 4_350);
    let stats = Stats::from_entry(&root);
    assert_eq!(stats.total_size, 350);
    assert!(stats.total_size <= root.size);
    assert_eq!(stats.file_count, 2);
    assert_eq!(stats.dir_count, 3);
}

#[test]
fn counted_sizes() {
    assert_eq!(counted_size(true, false, 42, 99), 42);
    assert_eq!(counted_size(false, true, 42, 99), 99);
    assert_eq!(counted_size(false, false, 42, 99), 0);
}

fn assert_sorted_everywhere(e: &Entry) {
    if let EntryKind::Dir { children } = &e.kind {
        for w in children.windows(2) {
            assert!(w[0].size >= w[1].size);
        }
        for c in children {
            assert_sorted_everywhere(c);
        }
    }
}

#[test]
fn unlimited_scan_counts_exactly_the_root_size() {
    let inner = dir_entry(
        "inner".to_string(),
        vec![
            leaf_entry("x".to_string(), false, true, 5).unwrap(),
            leaf_entry("y".to_string(), false, true, 70).unwrap(),
            leaf_entry("z".to_string(), true, false, 8).unwrap(),
        ],
    );
    let root = dir_entry(
        "root".to_string(),
        vec![leaf_entry("a".to_string(), false, true, 9).unwrap(), inner],
    );
    let stats = Stats::from_entry(&root);
    assert_eq!(stats.total_size, root.size);
    assert_eq!(root.size, 84);
    assert_sorted_everywhere(&root);
}

#[test]
fn depth_limited_tree_has_no_deeper_entries() {
    // A scan with limit 1: the root lists its children, a directory at depth 1 is cut off.
    let cut = collapsed_dir("cut".to_string(), 500);
    let root = dir_entry("root".to_string(), vec![cut, leaf_entry("f".to_string(), false, true, 3).unwrap()]);
    match &root.kind {
        EntryKind::Dir { children } => {
            for c in children {
                if let EntryKind::Dir { children: g } = &c.kind {
                    assert!(g.is_empty());
                }
            }
        }
        _ => panic!("expected Dir"),
    }
}

#[test]
fn children_lie_one_level_deeper() {
    assert_eq!(child_depth(0), 1);
    assert_eq!(child_depth(41), 42);
}
