use fcnt::cmdargs::{pick_thread_count, CmdArgParser, OrderBy};
use fcnt::engine::{all_idle, drain_results, seed_counters, sort_counters, traversal_complete};
use fcnt::walker::{scan, Counter, Entry, EntryKind};

fn file(name: &str, ino: u64, len: u64) -> Entry {
    Entry {
        name: String::from(name),
        kind: EntryKind::File,
        ino,
        len,
        blksize: 4096,
    }
}

fn dir(name: &str) -> Entry {
    Entry {
        name: String::from(name),
        kind: EntryKind::Dir,
        ino: 0,
        len: 0,
        blksize: 4096,
    }
}

/// The fixed tree of the concrete scenario: a root with three regular files
/// (100, 4096 and 4097 bytes, allocation block 4096) and one sub-directory
/// holding two hard-linked files of 10 bytes each.
fn scenario_tree(root: &str) -> Vec<(String, Vec<Entry>)> {
    vec![
        (
            String::from(root),
            vec![
                file("f1", 1, 100),
                file("f2", 2, 4096),
                file("f3", 3, 4097),
                dir("sub"),
            ],
        ),
        (
            format!("{}/sub", root),
            vec![file("a", 7, 10), file("b", 7, 10)],
        ),
    ]
}

fn lookup<'a>(tree: &'a [(String, Vec<Entry>)], path: &str) -> Option<&'a Vec<Entry>> {
    tree.iter().find(|(p, _)| p == path).map(|(_, es)| es)
}

/// Walks a model tree the way one worker with a work queue does, checking the
/// termination detector at every step, and returns the partial counters in
/// delivery order.
fn traverse(tree: &[(String, Vec<Entry>)], root: &str, depth_first: bool) -> Vec<Counter> {
    let mut queue: Vec<String> = vec![String::from(root)];
    let mut idle = vec![true];
    let mut partials: Vec<Counter> = Vec::new();
    let mut steps = 0;
    loop {
        if traversal_complete(&idle, queue.is_empty()) {
            break;
        }
        // The detector must never report completion while work is pending.
        assert!(!queue.is_empty());
        idle[0] = false;
        let path = if depth_first {
            queue.pop().unwrap()
        } else {
            queue.remove(0)
        };
        let entries = lookup(tree, &path).expect("model tree lookup");
        let (subdirs, cnt) = scan(&path, entries, false, true);
        for d in subdirs {
            queue.push(d);
        }
        partials.push(cnt);
        idle[0] = true;
        steps += 1;
        // A finite tree must drain in finitely many scans.
        assert!(steps <= tree.len());
    }
    assert!(traversal_complete(&idle, queue.is_empty()));
    partials
}

#[test]
fn scenario_counts_and_deduplicated_size() {
    let tree = scenario_tree("/r");
    let partials = traverse(&tree, "/r", false);
    let mut counters = seed_counters(&vec![String::from("/r")], true);
    drain_results(&mut counters, &partials);
    assert_eq!(counters[0].n_files, 5);
    assert_eq!(counters[0].n_dirs, 1);
    // 4096 + 4096 + 8192 + 4096: the two hard links are charged once.
    assert_eq!(counters[0].size(), 20480);
}

#[test]
fn aggregation_is_order_independent() {
    let tree = scenario_tree("/r");
    let partials = traverse(&tree, "/r", false);
    let mut reversed: Vec<Counter> = Vec::new();
    let again = traverse(&tree, "/r", false);
    for c in again.into_iter().rev() {
        reversed.push(c);
    }

    let mut a = seed_counters(&vec![String::from("/r")], true);
    let mut b = seed_counters(&vec![String::from("/r")], true);
    drain_results(&mut a, &partials);
    drain_results(&mut b, &reversed);
    assert_eq!(a[0].n_files, b[0].n_files);
    assert_eq!(a[0].n_dirs, b[0].n_dirs);
    assert_eq!(a[0].size(), b[0].size());
}

#[test]
fn sequential_and_queue_order_traversals_agree() {
    let tree = scenario_tree("/r");
    // Depth-first is the order of the sequential fallback; breadth-first is
    // the order a worker pool sharing one queue produces.
    let dfs = traverse(&tree, "/r", true);
    let bfs = traverse(&tree, "/r", false);

    let mut a = seed_counters(&vec![String::from("/r")], true);
    let mut b = seed_counters(&vec![String::from("/r")], true);
    drain_results(&mut a, &dfs);
    drain_results(&mut b, &bfs);
    assert_eq!(a[0].n_files, b[0].n_files);
    assert_eq!(a[0].n_dirs, b[0].n_dirs);
    assert_eq!(a[0].size(), b[0].size());
    assert_eq!(a[0].dirpath, b[0].dirpath);
}

#[test]
fn hard_links_under_different_roots_charge_each_root() {
    // The same inode appears under two separate roots: each root charges it.
    let mut counters = seed_counters(
        &vec![String::from("/r1"), String::from("/r2")],
        true,
    );
    let e1 = vec![file("a", 9, 10)];
    let e2 = vec![file("b", 9, 10)];
    let (_, p1) = scan(&String::from("/r1"), &e1, false, true);
    let (_, p2) = scan(&String::from("/r2"), &e2, false, true);
    drain_results(&mut counters, &vec![p1, p2]);
    assert_eq!(counters[0].size(), 4096);
    assert_eq!(counters[1].size(), 4096);

    // Under one root the same inode is charged once.
    let mut single = seed_counters(&vec![String::from("/r")], true);
    let e3 = vec![file("a", 9, 10)];
    let e4 = vec![file("b", 9, 10)];
    let (_, q1) = scan(&String::from("/r"), &e3, false, true);
    let (_, q2) = scan(&String::from("/r/sub"), &e4, false, true);
    drain_results(&mut single, &vec![q1, q2]);
    assert_eq!(single[0].size(), 4096);
}

#[test]
fn detector_reports_only_on_idle_and_empty() {
    assert!(traversal_complete(&vec![true, true], true));
    assert!(!traversal_complete(&vec![true, true], false));
    assert!(!traversal_complete(&vec![true, false], true));
    assert!(!traversal_complete(&vec![false, false], false));
    assert!(all_idle(&vec![]));
    assert!(traversal_complete(&vec![], true));
}

#[test]
fn seeded_counters_start_at_zero() {
    let counters = seed_counters(&vec![String::from("/a"), String::from("/b")], false);
    assert_eq!(counters.len(), 2);
    assert_eq!(counters[0].dirpath, "/a");
    assert_eq!(counters[1].dirpath, "/b");
    assert_eq!(counters[0].n_files, 0);
    assert_eq!(counters[0].n_dirs, 0);
    assert!(counters[0].sz_map.is_none());
}

#[test]
fn directories_default_and_normalize() {
    let args = CmdArgParser {
        directories: vec![],
        all_files: false,
        re: None,
        order_by: None,
        with_size: false,
        n_thread: None,
        verbose: false,
        non_recursive: false,
    };
    assert_eq!(args.get_directories(), vec![String::from(".")]);

    let args = CmdArgParser {
        directories: vec![
            String::from("/a///"),
            String::from("/"),
            String::from("b/"),
        ],
        all_files: false,
        re: None,
        order_by: Some(OrderBy::Name),
        with_size: false,
        n_thread: None,
        verbose: false,
        non_recursive: false,
    };
    assert_eq!(
        args.get_directories(),
        vec![String::from("/a"), String::from("/"), String::from("b")]
    );
}

#[test]
fn thread_count_floors_at_four() {
    assert_eq!(pick_thread_count(Some(2), 64), 2);
    assert_eq!(pick_thread_count(None, 1), 4);
    assert_eq!(pick_thread_count(None, 8), 8);
    let args = CmdArgParser {
        directories: vec![],
        all_files: false,
        re: None,
        order_by: None,
        with_size: false,
        n_thread: Some(3),
        verbose: false,
        non_recursive: false,
    };
    assert_eq!(args.get_threads_num(), 3);
    let defaulted = CmdArgParser {
        directories: vec![],
        all_files: false,
        re: None,
        order_by: None,
        with_size: false,
        n_thread: None,
        verbose: false,
        non_recursive: false,
    };
    assert!(defaulted.get_threads_num() >= 4);
}

#[test]
fn sort_counters_orders_the_report() {
    let mut a = Counter::new(&String::from("/b"), false);
    a.n_files = 1;
    a.n_dirs = 9;
    let mut b = Counter::new(&String::from("/a"), false);
    b.n_files = 5;
    b.n_dirs = 2;
    let mut c = Counter::new(&String::from("/c"), false);
    c.n_files = 3;
    c.n_dirs = 4;

    let mut v = vec![a, b, c];
    sort_counters(&mut v, OrderBy::Name);
    let names: Vec<&str> = v.iter().map(|c| c.dirpath.as_str()).collect();
    assert_eq!(names, vec!["/a", "/b", "/c"]);

    sort_counters(&mut v, OrderBy::File);
    let files: Vec<u64> = v.iter().map(|c| c.n_files).collect();
    assert_eq!(files, vec![5, 3, 1]);

    sort_counters(&mut v, OrderBy::D);
    let dirs: Vec<u64> = v.iter().map(|c| c.n_dirs).collect();
    assert_eq!(dirs, vec![9, 4, 2]);
}

#[test]
fn sort_counters_by_size_descending() {
    let mut a = Counter::new(&String::from("/a"), true);
    a.sz_map.as_mut().unwrap().insert(1, 100);
    let mut b = Counter::new(&String::from("/b"), true);
    b.sz_map.as_mut().unwrap().insert(1, 4000);
    let mut v = vec![a, b];
    sort_counters(&mut v, OrderBy::Size);
    assert_eq!(v[0].dirpath, "/b");
    assert_eq!(v[1].dirpath, "/a");
}

#[test]
fn zero_thread_request_is_rejected() {
    let args = CmdArgParser {
        directories: vec![],
        all_files: false,
        re: None,
        order_by: None,
        with_size: false,
        n_thread: Some(0),
        verbose: false,
        non_recursive: false,
    };
    let r = args.validate();
    assert!(r.is_err());
    assert_eq!(
        r.unwrap_err().message(),
        "the number of threads must be positive"
    );

    let ok = CmdArgParser {
        directories: vec![],
        all_files: false,
        re: None,
        order_by: None,
        with_size: false,
        n_thread: Some(1),
        verbose: false,
        non_recursive: false,
    };
    assert!(ok.validate().is_ok());
}
