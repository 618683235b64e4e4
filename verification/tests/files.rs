use nix_index::decimal;
use nix_index::escape::{push_escaped, unescape};
use nix_index::files::{all_file_types, path_before, FileNode, FileTree, FileTreeEntry, FileType};

fn entry(path: &[u8], node: FileNode) -> FileTreeEntry {
    FileTreeEntry { path: path.to_vec(), node }
}

#[test]
fn regular_file_record() {
    let e = entry(b"/bin/foo", FileNode::Regular { size: 100, executable: true });
    assert_eq!(e.encode(), b"f\x00100x\x00/bin/foo".to_vec());
    assert_eq!(FileTreeEntry::decode(b"f\x00100x\x00/bin/foo"), Some(e));
    let e = entry(b"/share/foo.txt", FileNode::Regular { size: 10, executable: false });
    assert_eq!(e.encode(), b"f\x0010r\x00/share/foo.txt".to_vec());
}

#[test]
fn directory_and_symlink_records() {
    let d = entry(b"/share", FileNode::Directory { size: 0 });
    assert_eq!(d.encode(), b"f\x000d\x00/share".to_vec());
    assert_eq!(FileTreeEntry::decode(&d.encode()), Some(d));
    let s = entry(b"/lib/libfoo.so", FileNode::Symlink { target: b"libfoo.so.1".to_vec() });
    assert_eq!(s.encode(), b"f\x00libfoo.so.1s\x00/lib/libfoo.so".to_vec());
    assert_eq!(FileTreeEntry::decode(&s.encode()), Some(s));
    let empty = entry(b"/l", FileNode::Symlink { target: Vec::new() });
    assert_eq!(FileTreeEntry::decode(&empty.encode()), Some(empty));
}

#[test]
fn records_that_are_no_files_are_refused() {
    assert_eq!(FileTreeEntry::decode(b""), None);
    assert_eq!(FileTreeEntry::decode(b"f"), None);
    assert_eq!(FileTreeEntry::decode(b"p\x00{}"), None);
    assert_eq!(FileTreeEntry::decode(b"f\x0012r/no/separator"), None);
    assert_eq!(FileTreeEntry::decode(b"f\x00\x00/empty/meta"), None);
    assert_eq!(FileTreeEntry::decode(b"f\x0012q\x00/unknown/kind"), None);
    assert_eq!(FileTreeEntry::decode(b"f\x00r\x00/no/size"), None);
    assert_eq!(FileTreeEntry::decode(b"f\x001a2r\x00/bad/size"), None);
    assert_eq!(FileTreeEntry::decode(b"f\x0018446744073709551616d\x00/too/large"), None);
    assert_eq!(
        FileTreeEntry::decode(b"f\x0018446744073709551615d\x00/max"),
        Some(entry(b"/max", FileNode::Directory { size: u64::MAX }))
    );
}

#[test]
fn validity_of_entries() {
    assert!(entry(b"/a b", FileNode::Directory { size: 1 }).is_valid());
    assert!(entry(b"/a\nb", FileNode::Directory { size: 1 }).is_valid());
    assert!(!entry(b"/a\0b", FileNode::Directory { size: 1 }).is_valid());
    assert!(entry(b"/a", FileNode::Symlink { target: b"x\ny".to_vec() }).is_valid());
    assert!(!entry(b"/a", FileNode::Symlink { target: b"x\0y".to_vec() }).is_valid());
    assert!(entry(b"/a", FileNode::Symlink { target: b"x y".to_vec() }).is_valid());
}

#[test]
fn kinds_of_nodes() {
    assert_eq!(
        FileNode::Regular { size: 1, executable: true }.get_type(),
        FileType::Regular { executable: true }
    );
    assert_eq!(FileNode::Symlink { target: vec![] }.get_type(), FileType::Symlink);
    assert_eq!(FileNode::Directory { size: 1 }.get_type(), FileType::Directory);
    assert_eq!(all_file_types().len(), 4);
}

#[test]
fn decimal_digits() {
    let mut out = b"n=".to_vec();
    decimal::push_decimal(&mut out, 0);
    decimal::push_decimal(&mut out, 1234567890);
    assert_eq!(out, b"n=01234567890".to_vec());
    assert_eq!(decimal::parse(b"0"), Some(0));
    assert_eq!(decimal::parse(b"007"), Some(7));
    assert_eq!(decimal::parse(b"18446744073709551615"), Some(u64::MAX));
    assert_eq!(decimal::parse(b"18446744073709551616"), None);
    assert_eq!(decimal::parse(b"99999999999999999999999"), None);
    assert_eq!(decimal::parse(b""), None);
    assert_eq!(decimal::parse(b"+1"), None);
    assert_eq!(decimal::parse(b"1 "), None);
}

#[test]
fn order_of_paths() {
    assert!(path_before(b"", b""));
    assert!(path_before(b"/a", b"/a"));
    assert!(path_before(b"/a", b"/a/b"));
    assert!(!path_before(b"/a/b", b"/a"));
    assert!(path_before(b"/a/b", b"/b"));
    assert!(!path_before(b"/b", b"/a/b"));
    assert!(path_before(b"/a\x7f", b"/a\x80"));
}

#[test]
fn tree_is_ordered_by_path() {
    let mut tree = FileTree::new();
    for (path, size) in [("/b", 1), ("/a/z", 2), ("/a", 3), ("/c", 4), ("/a", 5), ("/b/", 6)] {
        assert!(tree.insert(entry(path.as_bytes(), FileNode::Directory { size })));
    }
    assert!(!tree.insert(entry(b"/a\0b", FileNode::Directory { size: 9 })));
    let list: Vec<(Vec<u8>, FileNode)> =
        tree.to_list().into_iter().map(|e| (e.path, e.node)).collect();
    let expected: Vec<(Vec<u8>, FileNode)> =
        [("/a", 3), ("/a", 5), ("/a/z", 2), ("/b", 1), ("/b/", 6), ("/c", 4)]
            .into_iter()
            .map(|(path, size)| (path.as_bytes().to_vec(), FileNode::Directory { size }))
            .collect();
    assert_eq!(list, expected);
}

#[test]
fn line_feeds_are_escaped() {
    let mut out = b">".to_vec();
    push_escaped(&mut out, b"a\nb\x1bc\n\n");
    assert_eq!(out, b">a\x1bnb\x1b\x1bc\x1bn\x1bn".to_vec());
    assert_eq!(unescape(b"a\x1bnb\x1b\x1bc"), Some(b"a\nb\x1bc".to_vec()));
    assert_eq!(unescape(b""), Some(Vec::new()));
    assert_eq!(unescape(b"plain/path"), Some(b"plain/path".to_vec()));
    assert_eq!(unescape(b"a\x1b"), None);
    assert_eq!(unescape(b"a\x1bx"), None);
}

#[test]
fn path_with_a_line_feed_has_a_record_without_one() {
    let e = entry(b"/odd\nname\x1b", FileNode::Symlink { target: b"to\nhere".to_vec() });
    let record = e.encode();
    assert_eq!(record, b"f\x00to\x1bnheres\x00/odd\x1bnname\x1b\x1b".to_vec());
    assert!(!record.contains(&b'\n'));
    assert_eq!(FileTreeEntry::decode(&record), Some(e));
    assert_eq!(FileTreeEntry::decode(b"f\x001r\x00/bad\x1b"), None);
    assert_eq!(FileTreeEntry::decode(b"f\x00bad\x1bxs\x00/p"), None);
}
