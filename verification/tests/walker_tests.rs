use fcnt::walker::{alloc_size, is_ancestor, scan, Counter, Entry, EntryKind};

fn file(name: &str, ino: u64, len: u64) -> Entry {
    Entry {
        name: String::from(name),
        kind: EntryKind::File,
        ino,
        len,
        blksize: 4096,
    }
}

fn dir(name: &str) -> Entry {
    Entry {
        name: String::from(name),
        kind: EntryKind::Dir,
        ino: 0,
        len: 0,
        blksize: 4096,
    }
}

fn symlink(name: &str) -> Entry {
    Entry {
        name: String::from(name),
        kind: EntryKind::Symlink,
        ino: 0,
        len: 0,
        blksize: 4096,
    }
}

#[test]
fn test_readable_size() {
    let mut c = Counter::new(&String::from("."), true);

    c.sz_map.as_mut().unwrap().insert(1, 1023);
    assert_eq!(c.readable_size(), "1023B");

    c.sz_map.as_mut().unwrap().insert(1, 1434);
    assert_eq!(c.readable_size(), "1.4K");

    c.sz_map.as_mut().unwrap().insert(1, 15926);
    assert_eq!(c.readable_size(), "15.6K");

    c.sz_map.as_mut().unwrap().insert(1, 53589793);
    assert_eq!(c.readable_size(), "51.1M");

    c.sz_map.as_mut().unwrap().insert(1, 238462643383);
    assert_eq!(c.readable_size(), "222.1G");

    c.sz_map.as_mut().unwrap().insert(1, 279502884197169);
    assert_eq!(c.readable_size(), "254.2T");

    c.sz_map.as_mut().unwrap().insert(1, 0xffffffffffffffff);
    assert_eq!(c.readable_size(), "16E");
}

#[test]
fn add_unit_to_size_edges() {
    assert_eq!(Counter::add_unit_to_size(0), "0B");
    assert_eq!(Counter::add_unit_to_size(1024), "1K");
    assert_eq!(Counter::add_unit_to_size(1536), "1.5K");
    assert_eq!(Counter::add_unit_to_size(1048575), "1024.0K");
    assert_eq!(Counter::add_unit_to_size(1048576), "1M");
}

#[test]
fn alloc_size_rounds_up_to_blocks() {
    assert_eq!(alloc_size(0, 4096), 0);
    assert_eq!(alloc_size(1, 4096), 4096);
    assert_eq!(alloc_size(4096, 4096), 4096);
    assert_eq!(alloc_size(4097, 4096), 8192);
}

#[test]
fn is_ancestor_matches_path_prefixes() {
    assert!(is_ancestor("/a", "/a"));
    assert!(is_ancestor("/a", "/a/b"));
    assert!(is_ancestor("/", "/a"));
    assert!(!is_ancestor("/a", "/ab"));
    assert!(!is_ancestor("/a/b", "/a"));
}

#[test]
fn scan_classifies_one_level() {
    let root = String::from("/r");
    let entries = vec![
        file("f1", 1, 100),
        dir("sub"),
        symlink("link"),
        file(".conf", 2, 50),
        dir(".git"),
    ];
    // Hidden entries are skipped under the default policy.
    let (dirs, cnt) = scan(&root, &entries, false, true);
    assert_eq!(dirs, vec![String::from("/r/sub")]);
    assert_eq!(cnt.dirpath, "/r");
    assert_eq!(cnt.n_files, 2); // f1 and the symlink
    assert_eq!(cnt.n_dirs, 1);
    assert_eq!(cnt.size(), 4096); // only f1 contributes a size

    // With hidden entries included everything counts.
    let (dirs_all, cnt_all) = scan(&root, &entries, true, true);
    assert_eq!(
        dirs_all,
        vec![String::from("/r/sub"), String::from("/r/.git")]
    );
    assert_eq!(cnt_all.n_files, 3);
    assert_eq!(cnt_all.n_dirs, 2);
    assert_eq!(cnt_all.size(), 8192);
}

#[test]
fn scan_without_size_accounting_keeps_no_ledger() {
    let root = String::from("/r");
    let entries = vec![file("f1", 1, 100)];
    let (_, cnt) = scan(&root, &entries, false, false);
    assert!(cnt.sz_map.is_none());
    assert_eq!(cnt.size(), 0);
}

#[test]
fn scan_charges_hard_links_once_per_level() {
    let root = String::from("/r");
    // Two names for the same inode within one directory listing.
    let entries = vec![file("a", 7, 10), file("b", 7, 10)];
    let (_, cnt) = scan(&root, &entries, false, true);
    assert_eq!(cnt.n_files, 2);
    assert_eq!(cnt.size(), 4096);
}

#[test]
fn merge_adds_counts_of_descendants_only() {
    let mut root = Counter::new(&String::from("/r"), false);
    let mut other_root = Counter::new(&String::from("/s"), false);
    let mut part = Counter::new(&String::from("/r/sub"), false);
    part.n_files = 3;
    part.n_dirs = 1;

    root.merge(&part);
    other_root.merge(&part);
    assert_eq!(root.n_files, 3);
    assert_eq!(root.n_dirs, 1);
    assert_eq!(other_root.n_files, 0);
    assert_eq!(other_root.n_dirs, 0);
}

#[test]
fn merge_keeps_earlier_ledger_entries() {
    let mut root = Counter::new(&String::from("/r"), true);
    root.sz_map.as_mut().unwrap().insert(1, 100);
    let mut part = Counter::new(&String::from("/r/sub"), true);
    part.sz_map.as_mut().unwrap().insert(1, 999);
    part.sz_map.as_mut().unwrap().insert(2, 5);

    root.merge(&part);
    // Identifier 1 keeps the size recorded first; identifier 2 is new.
    assert_eq!(root.size(), 105);
}

#[test]
fn render_lists_one_root_without_total() {
    let mut c = Counter::new(&String::from("a"), false);
    c.n_files = 2;
    c.n_dirs = 1;
    let report = Counter::render(&vec![c], false);
    let lines: Vec<&str> = report.split('\n').collect();
    assert_eq!(lines.len(), 2);
    assert_eq!(lines[0], "\x1b[4;92mPath  Files  Dirs\x1b[0m");
    assert_eq!(lines[1], "a         2     1");
}

#[test]
fn render_adds_total_line_for_many_roots() {
    let mut a = Counter::new(&String::from("a"), false);
    a.n_files = 2;
    let mut b = Counter::new(&String::from("b"), false);
    b.n_files = 3;
    let report = Counter::render(&vec![a, b], false);
    let lines: Vec<&str> = report.split('\n').collect();
    // Header, two rows, rule, totals.
    assert_eq!(lines.len(), 5);
    assert!(lines[3].chars().all(|ch| ch == '\u{2500}'));
    assert!(lines[4].contains("Total"));
    assert!(lines[4].contains('5'));
}
