use folder_tree::{build_node, read_directory, FileNode, ReadError, Scan};

fn file(name: &str, dir: &str) -> Scan {
    Scan::Leaf { name: name.to_string(), path: format!("{}/{}", dir, name) }
}

fn dir(name: &str, parent: &str, entries: Vec<Scan>) -> Scan {
    Scan::Dir { name: name.to_string(), path: format!("{}/{}", parent, name), entries }
}

fn names(node: &FileNode) -> Vec<String> {
    node.children.as_ref().unwrap().iter().map(|c| c.name.clone()).collect()
}

fn sample() -> Scan {
    dir(
        "root",
        "/tmp",
        vec![
            file("b.txt", "/tmp/root"),
            dir("Zdir", "/tmp/root", vec![file("inner.rs", "/tmp/root/Zdir")]),
            file("A.txt", "/tmp/root"),
            dir("adir", "/tmp/root", vec![]),
        ],
    )
}

#[test]
fn leaf_has_no_children_and_no_more() {
    let node = build_node(&file("a.txt", "/x"), 0, None).unwrap();
    assert_eq!(node.name, "a.txt");
    assert_eq!(node.path, "/x/a.txt");
    assert!(!node.is_dir);
    assert!(node.children.is_none());
    assert_eq!(node.has_more, Some(false));
}

#[test]
fn unreadable_entry_builds_nothing() {
    assert!(build_node(&Scan::Unreadable, 0, None).is_none());
}

#[test]
fn children_sorted_directories_first_then_case_insensitive() {
    let node = build_node(&sample(), 0, None).unwrap();
    assert!(node.is_dir);
    assert_eq!(node.has_more, Some(false));
    assert_eq!(names(&node), vec!["adir", "Zdir", "A.txt", "b.txt"]);
}

#[test]
fn lowercase_decides_between_cases() {
    // Byte order alone would put "B" before "a".
    let root = dir("r", "", vec![file("B", "/r"), file("a", "/r"), file("C", "/r")]);
    let node = build_node(&root, 0, None).unwrap();
    assert_eq!(names(&node), vec!["a", "B", "C"]);
}

#[test]
fn equal_lowercase_names_keep_listing_order() {
    let root = dir("r", "", vec![file("Ab", "/r"), file("aB", "/r"), file("ab", "/r")]);
    let node = build_node(&root, 0, None).unwrap();
    assert_eq!(names(&node), vec!["Ab", "aB", "ab"]);
}

#[test]
fn depth_limit_zero_truncates_root() {
    let node = build_node(&sample(), 0, Some(0)).unwrap();
    assert!(node.is_dir);
    assert!(node.children.is_none());
    assert_eq!(node.has_more, Some(true));
}

#[test]
fn depth_limit_one_truncates_subdirectories() {
    let node = build_node(&sample(), 0, Some(1)).unwrap();
    let children = node.children.as_ref().unwrap();
    assert_eq!(children.len(), 4);
    // "adir" is empty, "Zdir" holds one file: both unexpanded.
    assert_eq!(children[0].name, "adir");
    assert!(children[0].children.is_none());
    assert_eq!(children[0].has_more, Some(false));
    assert_eq!(children[1].name, "Zdir");
    assert!(children[1].children.is_none());
    assert_eq!(children[1].has_more, Some(true));
    assert!(children[2].children.is_none());
    assert_eq!(children[2].has_more, Some(false));
}

#[test]
fn truncated_empty_directory_has_no_more() {
    let node = build_node(&dir("empty", "/x", vec![]), 3, Some(3)).unwrap();
    assert!(node.children.is_none());
    assert_eq!(node.has_more, Some(false));
}

#[test]
fn unlimited_depth_expands_everything() {
    let node = build_node(&sample(), 0, None).unwrap();
    let zdir = &node.children.as_ref().unwrap()[1];
    assert_eq!(zdir.name, "Zdir");
    assert_eq!(names(zdir), vec!["inner.rs"]);
    let adir = &node.children.as_ref().unwrap()[0];
    assert_eq!(adir.children.as_ref().unwrap().len(), 0);
    assert_eq!(adir.has_more, Some(false));
}

#[test]
fn unreadable_subdirectory_does_not_abort() {
    // A subdirectory that could not be opened is listed with no entries; an
    // entry whose metadata failed is left out.
    let root = dir(
        "r",
        "",
        vec![
            file("one.txt", "/r"),
            dir("locked", "/r", vec![]),
            Scan::Unreadable,
            file("two.txt", "/r"),
        ],
    );
    let node = read_directory("/r", true, &root, None).unwrap();
    assert_eq!(names(&node), vec!["locked", "one.txt", "two.txt"]);
    let locked = &node.children.as_ref().unwrap()[0];
    assert_eq!(locked.children.as_ref().unwrap().len(), 0);
}

#[test]
fn symlink_is_a_leaf() {
    // A link to a directory is read as a non-directory leaf.
    let root = dir("r", "", vec![file("link_to_dir", "/r"), dir("d", "/r", vec![])]);
    let node = build_node(&root, 0, None).unwrap();
    let link = &node.children.as_ref().unwrap()[1];
    assert_eq!(link.name, "link_to_dir");
    assert!(!link.is_dir);
    assert!(link.children.is_none());
}

#[test]
fn missing_root_is_not_found() {
    match read_directory("/no/such", false, &sample(), None) {
        Err(ReadError::NotFound { path }) => assert_eq!(path, "/no/such"),
        other => panic!("unexpected: {:?}", other),
    }
}

#[test]
fn unreadable_root_is_an_error() {
    match read_directory("/r", true, &Scan::Unreadable, None) {
        Err(ReadError::Unreadable { path }) => assert_eq!(path, "/r"),
        other => panic!("unexpected: {:?}", other),
    }
}

#[test]
fn two_builds_agree() {
    let a = read_directory("/tmp/root", true, &sample(), Some(1)).unwrap();
    let b = read_directory("/tmp/root", true, &sample(), Some(1)).unwrap();
    assert_eq!(format!("{:?}", a), format!("{:?}", b));
}
