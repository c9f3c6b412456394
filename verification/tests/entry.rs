use rdu::entry::{Entry, EntryKind, Stats};

#[test]
fn stats_from_file_entry() {
    let entry = Entry { name: "file.txt".into(), size: 100, kind: EntryKind::File };
    let stats = Stats::from_entry(&entry);
    assert_eq!(stats.file_count, 1);
    assert_eq!(stats.dir_count, 0);
    assert_eq!(stats.total_size, 100);
}

#[test]
fn stats_from_symlink_entry() {
    let entry = Entry { name: "link".into(), size: 0, kind: EntryKind::Symlink };
    let stats = Stats::from_entry(&entry);
    assert_eq!(stats.file_count, 0);
    assert_eq!(stats.dir_count, 0);
    assert_eq!(stats.total_size, 0);
}

#[test]
fn stats_from_empty_dir() {
    let entry = Entry {
        name: "root".into(),
        size: 0,
        kind: EntryKind::Dir { children: vec![] },
    };
    let stats = Stats::from_entry(&entry);
    assert_eq!(stats.file_count, 0);
    assert_eq!(stats.dir_count, 1);
    assert_eq!(stats.total_size, 0);
}

#[test]
fn stats_from_dir_with_files() {
    let entry = Entry {
        name: "root".into(),
        size: 300,
        kind: EntryKind::Dir {
            children: vec![
                Entry { name: "a.txt".into(), size: 100, kind: EntryKind::File },
                Entry { name: "b.txt".into(), size: 200, kind: EntryKind::File },
            ],
        },
    };
    let stats = Stats::from_entry(&entry);
    assert_eq!(stats.file_count, 2);
    assert_eq!(stats.dir_count, 1);
    assert_eq!(stats.total_size, 300);
}

#[test]
fn stats_nested_dirs_counted() {
    let entry = Entry {
        name: "root".into(),
        size: 150,
        kind: EntryKind::Dir {
            children: vec![Entry {
                name: "sub".into(),
                size: 150,
                kind: EntryKind::Dir {
                    children: vec![
                        Entry { name: "x.txt".into(), size: 50, kind: EntryKind::File },
                        Entry { name: "y.txt".into(), size: 100, kind: EntryKind::File },
                    ],
                },
            }],
        },
    };
    let stats = Stats::from_entry(&entry);
    assert_eq!(stats.file_count, 2);
    assert_eq!(stats.dir_count, 2); // root + sub
    assert_eq!(stats.total_size, 150);
}

#[test]
fn stats_symlinks_not_counted_in_files() {
    let entry = Entry {
        name: "root".into(),
        size: 10,
        kind: EntryKind::Dir {
            children: vec![
                Entry { name: "file.txt".into(), size: 10, kind: EntryKind::File },
                Entry { name: "link".into(), size: 0, kind: EntryKind::Symlink },
            ],
        },
    };
    let stats = Stats::from_entry(&entry);
    assert_eq!(stats.file_count, 1);
    assert_eq!(stats.dir_count, 1);
}

#[test]
fn stats_count_collapsed_dir_without_its_bytes() {
    // A directory at the depth limit records a size but lists no files.
    let entry = Entry {
        name: "root".into(),
        size: 500,
        kind: EntryKind::Dir {
            children: vec![
                Entry { name: "deep".into(), size: 400, kind: EntryKind::Dir { children: vec![] } },
                Entry { name: "f".into(), size: 100, kind: EntryKind::File },
            ],
        },
    };
    let stats = Stats::from_entry(&entry);
    assert_eq!(stats.file_count, 1);
    assert_eq!(stats.dir_count, 2);
    assert_eq!(stats.total_size, 100);
}

#[test]
fn try_from_entry_counts_like_from_entry() {
    let entry = Entry {
        name: "root".into(),
        size: 7,
        kind: EntryKind::Dir {
            children: vec![
                Entry { name: "a".into(), size: 3, kind: EntryKind::File },
                Entry { name: "b".into(), size: 4, kind: EntryKind::File },
            ],
        },
    };
    let stats = Stats::try_from_entry(&entry).unwrap();
    assert_eq!(stats.file_count, 2);
    assert_eq!(stats.dir_count, 1);
    assert_eq!(stats.total_size, 7);
}

#[test]
fn try_from_entry_refuses_overflowing_bytes() {
    let entry = Entry {
        name: "root".into(),
        size: u64::MAX,
        kind: EntryKind::Dir {
            children: vec![
                Entry { name: "a".into(), size: u64::MAX, kind: EntryKind::File },
                Entry { name: "b".into(), size: 1, kind: EntryKind::File },
            ],
        },
    };
    assert!(Stats::try_from_entry(&entry).is_none());
}

#[test]
fn try_from_entry_takes_exactly_the_largest_total() {
    let entry = Entry {
        name: "root".into(),
        size: u64::MAX,
        kind: EntryKind::Dir {
            children: vec![
                Entry { name: "a".into(), size: u64::MAX - 1, kind: EntryKind::File },
                Entry { name: "b".into(), size: 1, kind: EntryKind::File },
            ],
        },
    };
    let stats = Stats::try_from_entry(&entry).unwrap();
    assert_eq!(stats.total_size, u64::MAX);
}

#[test]
fn accumulate_keeps_the_counts_already_there() {
    let entry = Entry {
        name: "root".into(),
        size: 30,
        kind: EntryKind::Dir {
            children: vec![
                Entry { name: "a".into(), size: 10, kind: EntryKind::File },
                Entry { name: "b".into(), size: 20, kind: EntryKind::File },
            ],
        },
    };
    let mut stats = Stats { total_size: 1_000, file_count: 7, dir_count: 3 };
    assert!(rdu::entry::accumulate(&mut stats, &entry));
    assert_eq!(stats.total_size, 1_030);
    assert_eq!(stats.file_count, 9);
    assert_eq!(stats.dir_count, 4);
    let mut full = Stats { total_size: u64::MAX, file_count: 0, dir_count: 0 };
    assert!(!rdu::entry::accumulate(&mut full, &entry));
}
