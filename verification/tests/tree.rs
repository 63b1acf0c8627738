use roomstate::bytes::{bytes_eq, index_of, position, starts_with, str_eq, string_from_bytes, Position};
use roomstate::tree::Tree;

#[test]
fn tree_insert_get_remove() {
    let mut t = Tree::new();
    assert!(t.is_empty());
    assert_eq!(t.insert(b"b", b"2"), None);
    assert_eq!(t.insert(b"a", b"1"), None);
    assert_eq!(t.insert(b"b", b"3"), Some(b"2".to_vec()));
    assert_eq!(t.len(), 2);
    assert_eq!(t.get(b"a"), Some(b"1".to_vec()));
    assert_eq!(t.get(b"b"), Some(b"3".to_vec()));
    assert_eq!(t.get(b"c"), None);
    assert!(t.contains_key(b"a"));
    assert!(!t.contains_key(b""));
    assert_eq!(t.remove(b"a"), Some(b"1".to_vec()));
    assert_eq!(t.remove(b"a"), None);
    assert_eq!(t.len(), 1);
    assert!(!t.is_empty());
}

#[test]
fn tree_lists_in_key_order() {
    let mut t = Tree::new();
    for k in [&b"b"[..], b"ab", b"", b"a", b"\xff", b"a\x00"] {
        t.insert(k, k);
    }
    let keys = t.keys();
    assert_eq!(keys, vec![b"".to_vec(), b"a".to_vec(), b"a\x00".to_vec(), b"ab".to_vec(), b"b".to_vec(), b"\xff".to_vec()]);
    let entries = t.entries();
    assert_eq!(entries.len(), 6);
    assert_eq!(entries[3], (b"ab".to_vec(), b"ab".to_vec()));
}

#[test]
fn tree_scans_prefix() {
    let mut t = Tree::new();
    t.insert(b"room1\xffalice", b"j");
    t.insert(b"room1\xffbob", b"l");
    t.insert(b"room2\xffalice", b"j");
    t.insert(b"room", b"x");
    let found = t.scan_prefix(b"room1\xff");
    assert_eq!(found, vec![(b"room1\xffalice".to_vec(), b"j".to_vec()), (b"room1\xffbob".to_vec(), b"l".to_vec())]);
    assert_eq!(t.scan_prefix(b"").len(), 4);
    assert!(t.scan_prefix(b"zzz").is_empty());
}

#[test]
fn tree_clone_is_independent() {
    let mut t = Tree::new();
    t.insert(b"k", b"v");
    let c = t.clone();
    t.insert(b"k", b"w");
    assert_eq!(c.get(b"k"), Some(b"v".to_vec()));
    assert_eq!(t.get(b"k"), Some(b"w".to_vec()));
}

#[test]
fn byte_order_is_lexicographic() {
    assert_eq!(position(b"", b""), Position::Same);
    assert_eq!(position(b"", b"a"), Position::Before);
    assert_eq!(position(b"a", b""), Position::After);
    assert_eq!(position(b"ab", b"b"), Position::Before);
    assert_eq!(position(b"b", b"ab"), Position::After);
    assert_eq!(position(b"a", b"ab"), Position::Before);
    assert_eq!(position(b"\x7f", b"\x80"), Position::Before);
    assert!(bytes_eq(b"abc", b"abc"));
    assert!(!bytes_eq(b"abc", b"abd"));
    assert!(!bytes_eq(b"abc", b"ab"));
}

#[test]
fn prefix_and_search() {
    assert!(starts_with(b"abc", b""));
    assert!(starts_with(b"abc", b"ab"));
    assert!(starts_with(b"abc", b"abc"));
    assert!(!starts_with(b"abc", b"abcd"));
    assert!(!starts_with(b"abc", b"b"));
    assert_eq!(index_of(b"ab\xffcd\xff", 0xff), 2);
    assert_eq!(index_of(b"abc", 0xff), 3);
    assert_eq!(index_of(b"", 0xff), 0);
    assert!(str_eq("join", "join"));
    assert!(!str_eq("join", "joins"));
}

#[test]
fn text_from_bytes() {
    assert_eq!(string_from_bytes(b"hello"), Some("hello".to_string()));
    assert_eq!(string_from_bytes("héllo €".as_bytes()), Some("héllo €".to_string()));
    assert_eq!(string_from_bytes(b""), Some(String::new()));
    assert_eq!(string_from_bytes(b"\xff"), None);
    assert_eq!(string_from_bytes(b"ab\xc3"), None);
}
