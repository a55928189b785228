use folder_tree::order::{bytes_less, precedes};
use folder_tree::{classify, deeper, may_descend, FileKind};

#[test]
fn descend_without_limit() {
    assert!(may_descend(0, None));
    assert!(may_descend(u32::MAX, None));
}

#[test]
fn descend_within_limit() {
    assert!(may_descend(0, Some(1)));
    assert!(may_descend(2, Some(3)));
    assert!(!may_descend(3, Some(3)));
    assert!(!may_descend(0, Some(0)));
    assert!(may_descend(u32::MAX - 1, Some(u32::MAX)));
}

#[test]
fn deeper_adds_one_and_saturates() {
    assert_eq!(deeper(0), 1);
    assert_eq!(deeper(41), 42);
    assert_eq!(deeper(u32::MAX), u32::MAX);
}

#[test]
fn classify_kinds() {
    assert_eq!(classify(true, false), FileKind::Directory);
    assert_eq!(classify(false, true), FileKind::SymbolicLink);
    assert_eq!(classify(false, false), FileKind::RegularFile);
}

#[test]
fn byte_order() {
    assert!(bytes_less(b"abc", b"abd"));
    assert!(bytes_less(b"ab", b"abc"));
    assert!(bytes_less(b"", b"a"));
    assert!(!bytes_less(b"abc", b"abc"));
    assert!(!bytes_less(b"b", b"abc"));
    assert!(bytes_less(b"B", b"a"));
}

#[test]
fn precedes_directories_first() {
    let (a, z) = ("a".to_string(), "z".to_string());
    assert!(precedes(true, &z, false, &a));
    assert!(!precedes(false, &a, true, &z));
    assert!(precedes(false, &a, false, &z));
    assert!(!precedes(false, &a, false, &a));
}
