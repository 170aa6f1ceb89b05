use tudiff::order::sort_tree_recursive;
use tudiff::status::update_folder_status;
use tudiff::{DirectoryComparison, EntryMeta, FileNode, FileStatus, PendingComparison, ScanEntry, ScannedTree};

fn dir() -> EntryMeta {
    EntryMeta { is_dir: true, size: 4096, modified: Some(1) }
}

fn file(size: u64) -> EntryMeta {
    EntryMeta { is_dir: false, size, modified: Some(2) }
}

fn entry(path: &str, meta: EntryMeta) -> ScanEntry {
    let path = if path.is_empty() { Vec::new() } else { path.split('/').map(|s| s.to_string()).collect() };
    ScanEntry { path, meta }
}

fn scanned(root: &str, entries: Vec<ScanEntry>) -> ScannedTree {
    ScannedTree { root: format!("/tmp/{}", root), root_name: root.to_string(), entries }
}

fn compare(left: Vec<ScanEntry>, right: Vec<ScanEntry>, verdicts: &[bool]) -> DirectoryComparison {
    let pending = PendingComparison::align(&scanned("l", left), &scanned("r", right));
    assert_eq!(pending.checks().len(), verdicts.len());
    DirectoryComparison::new(pending, &verdicts.to_vec())
}

fn names(n: &FileNode) -> Vec<String> {
    n.children.iter().map(|c| c.path.last().cloned().unwrap_or_default()).collect()
}

fn same_shape(a: &FileNode, b: &FileNode) -> bool {
    a.path == b.path
        && a.is_dir == b.is_dir
        && a.children.len() == b.children.len()
        && a.children.iter().zip(b.children.iter()).all(|(x, y)| same_shape(x, y))
}

fn find<'a>(n: &'a FileNode, path: &str) -> &'a FileNode {
    let mut cur = n;
    for comp in path.split('/') {
        cur = cur.children.iter().find(|c| c.path.last().map(|s| s.as_str()) == Some(comp)).expect("path present");
    }
    cur
}

#[test]
fn empty_directories_give_single_node_trees() {
    let c = compare(vec![entry("", dir())], vec![entry("", dir())], &[]);
    assert!(c.left_tree.children.is_empty());
    assert!(c.right_tree.children.is_empty());
    assert_eq!(c.left_tree.status, FileStatus::Same);
    assert_eq!(c.right_tree.status, FileStatus::Same);
    assert!(c.left_tree.expanded && c.right_tree.expanded);
    assert_eq!(c.left_tree.name, "l");
    assert_eq!(c.left_dir, "/tmp/l");
}

#[test]
fn different_file_content_marks_file_and_parents() {
    let left = vec![entry("", dir()), entry("x.txt", file(3))];
    let right = vec![entry("", dir()), entry("x.txt", file(3))];
    let pending = PendingComparison::align(&scanned("l", left), &scanned("r", right));
    assert_eq!(pending.checks().len(), 1);
    assert_eq!(pending.checks()[0].path, vec!["x.txt".to_string()]);
    let c = DirectoryComparison::new(pending, &vec![false]);
    assert_eq!(find(&c.left_tree, "x.txt").status, FileStatus::Different);
    assert_eq!(find(&c.right_tree, "x.txt").status, FileStatus::Different);
    assert_eq!(c.left_tree.status, FileStatus::Different);
}

#[test]
fn left_only_subtree_is_left_only_at_every_level() {
    let left = vec![entry("", dir()), entry("only_left", dir()), entry("only_left/f.txt", file(5))];
    let right = vec![entry("", dir())];
    let c = compare(left, right, &[]);
    let l = find(&c.left_tree, "only_left");
    let r = find(&c.right_tree, "only_left");
    assert_eq!(l.status, FileStatus::LeftOnly);
    assert_eq!(r.status, FileStatus::LeftOnly);
    assert_eq!(l.name, "only_left");
    assert_eq!(r.name, "");
    assert_eq!(r.size, None);
    let lf = find(&c.left_tree, "only_left/f.txt");
    let rf = find(&c.right_tree, "only_left/f.txt");
    assert_eq!(lf.status, FileStatus::LeftOnly);
    assert_eq!(rf.status, FileStatus::LeftOnly);
    assert_eq!(lf.size, Some(5));
    assert_eq!(rf.name, "");
    assert_eq!(c.left_tree.status, FileStatus::LeftOnly);
}

#[test]
fn trees_have_the_same_shape_and_order() {
    let left = vec![
        entry("", dir()),
        entry("b.txt", file(1)),
        entry("Zdir", dir()),
        entry("Zdir/inner", file(2)),
        entry("a.txt", file(1)),
        entry("C.txt", file(4)),
    ];
    let right = vec![
        entry("", dir()),
        entry("a.txt", file(1)),
        entry("adir", dir()),
        entry("B.TXT", file(9)),
        entry("Zdir", dir()),
    ];
    let c = compare(left, right, &[true]);
    assert!(same_shape(&c.left_tree, &c.right_tree));
    assert_eq!(names(&c.left_tree), vec!["adir", "Zdir", "a.txt", "B.TXT", "b.txt", "C.txt"]);
    assert_eq!(names(&c.right_tree), names(&c.left_tree));
    assert_eq!(find(&c.left_tree, "Zdir").status, FileStatus::LeftOnly);
    assert_eq!(find(&c.right_tree, "Zdir/inner").name, "");
    assert_eq!(find(&c.left_tree, "a.txt").status, FileStatus::Same);
    assert_eq!(c.left_tree.status, FileStatus::Different);
}

#[test]
fn comparing_twice_gives_the_same_statuses() {
    let make = || {
        let left = vec![entry("", dir()), entry("d", dir()), entry("d/x", file(3)), entry("y", file(1))];
        let right = vec![entry("", dir()), entry("d", dir()), entry("d/x", file(3)), entry("z", file(1))];
        compare(left, right, &[false])
    };
    let a = make();
    let b = make();
    fn statuses(n: &FileNode, out: &mut Vec<(Vec<String>, FileStatus)>) {
        out.push((n.path.clone(), n.status));
        for c in &n.children {
            statuses(c, out);
        }
    }
    let (mut sa, mut sb) = (Vec::new(), Vec::new());
    statuses(&a.left_tree, &mut sa);
    statuses(&b.left_tree, &mut sb);
    assert_eq!(sa, sb);
    let (mut ra, mut rb) = (Vec::new(), Vec::new());
    statuses(&a.right_tree, &mut ra);
    statuses(&b.right_tree, &mut rb);
    assert_eq!(ra, rb);
}

fn node(name: &str, is_dir: bool, status: FileStatus, children: Vec<FileNode>) -> FileNode {
    let mut n = FileNode::new(name.to_string(), vec![name.to_string()], is_dir, status);
    n.children = children;
    n
}

#[test]
fn status_propagation_cases() {
    let mut mixed = node(
        "d",
        true,
        FileStatus::Same,
        vec![node("a", false, FileStatus::LeftOnly, vec![]), node("b", false, FileStatus::RightOnly, vec![])],
    );
    assert_eq!(update_folder_status(&mut mixed), FileStatus::Different);
    let mut same = node(
        "d",
        true,
        FileStatus::Different,
        vec![node("a", false, FileStatus::Same, vec![]), node("b", false, FileStatus::Same, vec![])],
    );
    assert_eq!(update_folder_status(&mut same), FileStatus::Same);
    let mut left = node(
        "d",
        true,
        FileStatus::Same,
        vec![node("a", false, FileStatus::LeftOnly, vec![]), node("b", true, FileStatus::LeftOnly, vec![])],
    );
    assert_eq!(update_folder_status(&mut left), FileStatus::LeftOnly);
    let mut right_and_same = node(
        "d",
        true,
        FileStatus::Same,
        vec![node("a", false, FileStatus::RightOnly, vec![]), node("b", false, FileStatus::Same, vec![])],
    );
    assert_eq!(update_folder_status(&mut right_and_same), FileStatus::Different);
    let mut empty = node("d", true, FileStatus::RightOnly, vec![]);
    assert_eq!(update_folder_status(&mut empty), FileStatus::RightOnly);
    let mut nested = node(
        "d",
        true,
        FileStatus::Same,
        vec![node("e", true, FileStatus::Same, vec![node("f", false, FileStatus::Different, vec![])])],
    );
    assert_eq!(update_folder_status(&mut nested), FileStatus::Different);
    assert_eq!(nested.children[0].status, FileStatus::Different);
}

#[test]
fn sorting_puts_directories_first_and_ignores_case() {
    let mut root = node(
        "",
        true,
        FileStatus::Same,
        vec![
            node("b", false, FileStatus::Same, vec![]),
            node("A", false, FileStatus::Same, vec![]),
            node("z", true, FileStatus::Same, vec![]),
            node("a", false, FileStatus::Same, vec![]),
            node("C", true, FileStatus::Same, vec![]),
        ],
    );
    root.children[3].name = String::new();
    sort_tree_recursive(&mut root);
    let order: Vec<String> = root.children.iter().map(|c| c.path[0].clone()).collect();
    assert_eq!(order, vec!["C", "z", "A", "a", "b"]);
}

#[test]
fn listing_order_does_not_change_the_result() {
    let forward = compare(
        vec![entry("", dir()), entry("d", dir()), entry("d/a", file(1)), entry("b", file(2))],
        vec![entry("", dir()), entry("b", file(2)), entry("d", dir())],
        &[true],
    );
    let backward = compare(
        vec![entry("b", file(2)), entry("d", dir()), entry("d/a", file(1)), entry("", dir())],
        vec![entry("d", dir()), entry("b", file(2)), entry("", dir())],
        &[true],
    );
    assert!(same_shape(&forward.left_tree, &backward.left_tree));
    assert_eq!(names(&forward.left_tree), names(&backward.left_tree));
    assert_eq!(find(&forward.right_tree, "d/a").status, FileStatus::LeftOnly);
    assert_eq!(find(&backward.right_tree, "d/a").status, FileStatus::LeftOnly);
    assert_eq!(find(&forward.left_tree, "d").status, FileStatus::LeftOnly);
    assert_eq!(find(&backward.left_tree, "d").status, FileStatus::LeftOnly);
}

#[test]
fn node_with_metadata_keeps_file_size_only() {
    let meta = EntryMeta { is_dir: false, size: 12, modified: Some(99) };
    let f = FileNode::new_with_metadata("f".to_string(), vec!["f".to_string()], false, FileStatus::Same, Some(meta));
    assert_eq!(f.size, Some(12));
    assert_eq!(f.modified, Some(99));
    let d = FileNode::new_with_metadata("d".to_string(), vec!["d".to_string()], true, FileStatus::Same, Some(meta));
    assert_eq!(d.size, None);
    assert!(!d.expanded);
}

#[test]
fn mixed_kinds_owe_a_check_and_differ() {
    let left = vec![entry("", dir()), entry("m", file(3)), entry("n", dir())];
    let right = vec![entry("", dir()), entry("m", dir()), entry("n", file(3))];
    let pending = PendingComparison::align(&scanned("l", left), &scanned("r", right));
    assert_eq!(pending.checks().len(), 2);
    assert!(!pending.checks()[1].left.is_dir || !pending.checks()[1].right.is_dir);
    let c = DirectoryComparison::new(pending, &vec![false, false]);
    assert_eq!(find(&c.left_tree, "m").status, FileStatus::Different);
    assert_eq!(find(&c.left_tree, "n").status, FileStatus::Different);
    assert_eq!(find(&c.right_tree, "n").name, "n");
}

#[test]
fn missing_parent_directory_is_same_and_named() {
    let left = vec![entry("", dir()), entry("p/q", file(1))];
    let right = vec![entry("", dir())];
    let pending = PendingComparison::align(&scanned("l", left), &scanned("r", right));
    let c = DirectoryComparison::new(pending, &vec![]);
    let lp = find(&c.left_tree, "p");
    let rp = find(&c.right_tree, "p");
    assert_eq!(lp.name, "p");
    assert_eq!(rp.name, "p");
    assert!(lp.is_dir && rp.is_dir);
    assert_eq!(find(&c.right_tree, "p/q").name, "");
    assert_eq!(find(&c.right_tree, "p/q").size, None);
}

#[test]
fn settle_delay_depends_on_directory_size() {
    assert_eq!(tudiff::app::settle_delay_ms(1000), 100);
    assert_eq!(tudiff::app::settle_delay_ms(1001), 500);
}
