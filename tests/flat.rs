use folder_tree::{read_directory_fast, Collector, FileKind, ReadError};

fn entry(path: &str, kind: Option<FileKind>) -> (String, Option<FileKind>) {
    (path.to_string(), kind)
}

#[test]
fn walk_starts_at_root() {
    let mut walk = Collector::new("/r".to_string(), None);
    assert_eq!(walk.next_dir(), Some(("/r".to_string(), 0)));
    assert_eq!(walk.next_dir(), None);
    assert!(walk.into_paths().is_empty());
}

#[test]
fn absorb_gathers_known_kinds_and_queues_directories() {
    let mut walk = Collector::new("/r".to_string(), None);
    walk.next_dir();
    walk.absorb(
        0,
        vec![
            entry("/r/a", Some(FileKind::Directory)),
            entry("/r/b.txt", Some(FileKind::RegularFile)),
            entry("/r/gone", None),
            entry("/r/link", Some(FileKind::SymbolicLink)),
            entry("/r/c", Some(FileKind::Directory)),
        ],
    );
    // Last pushed is listed first.
    assert_eq!(walk.next_dir(), Some(("/r/c".to_string(), 1)));
    walk.absorb(1, vec![entry("/r/c/x", Some(FileKind::RegularFile))]);
    assert_eq!(walk.next_dir(), Some(("/r/a".to_string(), 1)));
    walk.absorb(1, vec![]);
    assert_eq!(walk.next_dir(), None);
    assert_eq!(
        walk.into_paths(),
        vec![
            ("/r/a".to_string(), FileKind::Directory),
            ("/r/b.txt".to_string(), FileKind::RegularFile),
            ("/r/link".to_string(), FileKind::SymbolicLink),
            ("/r/c".to_string(), FileKind::Directory),
            ("/r/c/x".to_string(), FileKind::RegularFile),
        ]
    );
}

#[test]
fn depth_limit_stops_queueing() {
    let mut walk = Collector::new("/r".to_string(), Some(1));
    walk.next_dir();
    walk.absorb(0, vec![entry("/r/a", Some(FileKind::Directory))]);
    assert_eq!(walk.next_dir(), Some(("/r/a".to_string(), 1)));
    walk.absorb(1, vec![entry("/r/a/deep", Some(FileKind::Directory))]);
    // Depth 2 exceeds the limit of 1: gathered, not queued.
    assert_eq!(walk.next_dir(), None);
    assert_eq!(walk.into_paths().len(), 2);
}

#[test]
fn depth_limit_zero_lists_root_only() {
    let mut walk = Collector::new("/r".to_string(), Some(0));
    walk.next_dir();
    walk.absorb(0, vec![entry("/r/a", Some(FileKind::Directory))]);
    assert_eq!(walk.next_dir(), None);
}

#[test]
fn symlink_never_queued() {
    let mut walk = Collector::new("/r".to_string(), None);
    walk.next_dir();
    walk.absorb(0, vec![entry("/r/link_to_dir", Some(FileKind::SymbolicLink))]);
    assert_eq!(walk.next_dir(), None);
    assert_eq!(
        walk.into_paths(),
        vec![("/r/link_to_dir".to_string(), FileKind::SymbolicLink)]
    );
}

#[test]
fn fast_missing_root_is_not_found() {
    match read_directory_fast("/no/such", false, None) {
        Err(ReadError::NotFound { path }) => assert_eq!(path, "/no/such"),
        other => panic!("unexpected: {:?}", other),
    }
}

#[test]
fn fast_existing_root_starts_walk() {
    let mut walk = read_directory_fast("/r", true, Some(2)).unwrap();
    assert_eq!(walk.next_dir(), Some(("/r".to_string(), 0)));
}


use folder_tree::{build_node, FileNode, Scan};
use std::collections::BTreeSet;

fn leaf(path: &str) -> Scan {
    Scan::Leaf { name: path.rsplit('/').next().unwrap().to_string(), path: path.to_string() }
}

fn folder(path: &str, entries: Vec<Scan>) -> Scan {
    Scan::Dir { name: path.rsplit('/').next().unwrap().to_string(), path: path.to_string(), entries }
}

fn find<'a>(scan: &'a Scan, path: &str) -> Option<&'a Scan> {
    match scan {
        Scan::Dir { path: p, entries, .. } => {
            if p == path {
                return Some(scan);
            }
            entries.iter().find_map(|e| find(e, path))
        }
        _ => None,
    }
}

fn tree_paths(node: &FileNode, out: &mut BTreeSet<String>) {
    if let Some(children) = &node.children {
        for c in children {
            out.insert(c.path.clone());
            tree_paths(c, out);
        }
    }
}

#[test]
fn flat_walk_covers_tree_paths() {
    let fs = folder(
        "/r",
        vec![
            leaf("/r/b.txt"),
            folder("/r/d", vec![leaf("/r/d/x"), folder("/r/d/e", vec![leaf("/r/d/e/y")])]),
            Scan::Unreadable,
            leaf("/r/link"),
            folder("/r/empty", vec![]),
        ],
    );
    let node = build_node(&fs, 0, None).unwrap();
    let mut expected = BTreeSet::new();
    tree_paths(&node, &mut expected);

    let mut walk = Collector::new("/r".to_string(), None);
    while let Some((dir, depth)) = walk.next_dir() {
        let entries = match find(&fs, &dir) {
            Some(Scan::Dir { entries, .. }) => entries
                .iter()
                .map(|e| match e {
                    Scan::Unreadable => ("?".to_string(), None),
                    Scan::Leaf { path, .. } => (path.clone(), Some(FileKind::RegularFile)),
                    Scan::Dir { path, .. } => (path.clone(), Some(FileKind::Directory)),
                })
                .collect(),
            _ => Vec::new(),
        };
        walk.absorb(depth, entries);
    }
    let got: BTreeSet<String> = walk.into_paths().into_iter().map(|(p, _)| p).collect();
    assert_eq!(got, expected);
    assert_eq!(got.len(), 7);
}
