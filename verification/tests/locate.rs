use nix_index::database::Writer;
use nix_index::files::{FileNode, FileTree, FileTreeEntry, FileType};
use nix_index::database::DatabaseError;
use nix_index::locate::{
    attr_label, compile, first_time, item, keep_match, locate, make_pattern, node_summary,
    parse_color, parse_file_type, patterns, process_args, wanted, Args, Error, RawArgs,
};
use nix_index::package::{PathOrigin, StorePath};
use nix_index::matcher::PathPattern;
use std::path::PathBuf;

fn raw(pattern: &str) -> RawArgs {
    RawArgs {
        database: "/cache".to_string(),
        pattern: pattern.to_string(),
        regex: false,
        package: None,
        hash: None,
        toplevel: false,
        types: None,
        no_group: false,
        color: None,
        whole: false,
        at_root: false,
        minimal: false,
        terminal: false,
    }
}

fn args(group: bool, only_toplevel: bool, file_type: Vec<FileType>) -> Args {
    Args {
        database: String::new(),
        pattern: String::new(),
        group,
        hash: None,
        package_pattern: None,
        file_type,
        only_toplevel,
        color: false,
        minimal: false,
    }
}

#[test]
fn literal_pattern_is_escaped() {
    assert_eq!(make_pattern("bin/c++", false, false, false), "bin/c\\+\\+");
    assert_eq!(make_pattern("a.b-c", false, true, true), "^a\\.b\\-c$");
    assert_eq!(
        make_pattern("\\.+*?()|[]{}^$#&-~", false, false, false),
        "\\\\\\.\\+\\*\\?\\(\\)\\|\\[\\]\\{\\}\\^\\$\\#\\&\\-\\~"
    );
    assert_eq!(make_pattern("plain text_", false, false, false), "plain text_");
}

#[test]
fn regex_pattern_is_kept() {
    assert_eq!(make_pattern("bin/c+", true, false, false), "bin/c+");
    assert_eq!(make_pattern("bin/c+", true, true, false), "^bin/c+");
    assert_eq!(make_pattern("bin/c+", true, false, true), "bin/c+$");
    assert_eq!(make_pattern("", true, true, true), "^$");
}

#[test]
fn file_type_flags() {
    assert_eq!(parse_file_type(&"x".to_string()), Some(FileType::Regular { executable: true }));
    assert_eq!(parse_file_type(&"r".to_string()), Some(FileType::Regular { executable: false }));
    assert_eq!(parse_file_type(&"s".to_string()), Some(FileType::Symlink));
    assert_eq!(parse_file_type(&"d".to_string()), Some(FileType::Directory));
    assert_eq!(parse_file_type(&"".to_string()), None);
    assert_eq!(parse_file_type(&"xx".to_string()), None);
    assert_eq!(parse_file_type(&"f".to_string()), None);
}

#[test]
fn color_choices() {
    assert_eq!(parse_color(&"auto".to_string()), Some(None));
    assert_eq!(parse_color(&"always".to_string()), Some(Some(true)));
    assert_eq!(parse_color(&"never".to_string()), Some(Some(false)));
    assert_eq!(parse_color(&"sometimes".to_string()), None);
}

#[test]
fn options_by_default() {
    let args = process_args(raw("bin/firefox")).unwrap();
    assert_eq!(args.database, "/cache");
    assert_eq!(args.pattern, "bin/firefox");
    assert!(args.group);
    assert_eq!(args.hash, None);
    assert_eq!(args.package_pattern, None);
    assert_eq!(
        args.file_type,
        vec![
            FileType::Regular { executable: false },
            FileType::Regular { executable: true },
            FileType::Symlink,
            FileType::Directory,
        ]
    );
    assert!(!args.only_toplevel);
    assert!(!args.color);
    assert!(!args.minimal);
}

#[test]
fn options_as_given() {
    let mut given = raw("lib.so");
    given.package = Some("gcc.1".to_string());
    given.hash = Some("abc".to_string());
    given.toplevel = true;
    given.types = Some(vec!["s".to_string(), "x".to_string()]);
    given.no_group = true;
    given.color = Some("always".to_string());
    given.whole = true;
    given.at_root = true;
    given.minimal = true;
    let args = process_args(given).unwrap();
    assert_eq!(args.pattern, "^lib\\.so$");
    assert_eq!(args.package_pattern, Some("gcc\\.1".to_string()));
    assert_eq!(args.hash, Some("abc".to_string()));
    assert_eq!(args.file_type, vec![FileType::Symlink, FileType::Regular { executable: true }]);
    assert!(!args.group);
    assert!(args.only_toplevel);
    assert!(args.color);
    assert!(args.minimal);
}

#[test]
fn color_follows_the_terminal_unless_chosen() {
    let mut given = raw("x");
    given.terminal = true;
    assert!(process_args(given).unwrap().color);
    let mut given = raw("x");
    given.terminal = true;
    given.color = Some("auto".to_string());
    assert!(process_args(given).unwrap().color);
    let mut given = raw("x");
    given.terminal = true;
    given.color = Some("never".to_string());
    assert!(!process_args(given).unwrap().color);
}

#[test]
fn unknown_options_are_refused() {
    let mut given = raw("x");
    given.types = Some(vec!["x".to_string(), "q".to_string()]);
    assert!(process_args(given).is_none());
    let mut given = raw("x");
    given.color = Some("blue".to_string());
    assert!(process_args(given).is_none());
}

fn package(toplevel: bool) -> StorePath {
    let origin = PathOrigin { attr: "a".to_string(), output: "out".to_string(), toplevel };
    StorePath::new("h".to_string(), "n".to_string(), origin)
}

fn file(path: &[u8]) -> FileTreeEntry {
    FileTreeEntry { path: path.to_vec(), node: FileNode::Regular { size: 1, executable: false } }
}

#[test]
fn grouped_matches_reach_into_the_last_component() {
    let all = vec![FileType::Directory, FileType::Regular { executable: false }];
    let node = FileNode::Regular { size: 1, executable: false };
    assert!(keep_match(&args(true, false, all.clone()), false, &node, b"/x/a/foo", 8));
    assert!(!keep_match(&args(true, false, all.clone()), false, &node, b"/x/a/foo/some_file", 8));
    assert!(keep_match(&args(false, false, all.clone()), false, &node, b"/x/a/foo/some_file", 8));
    assert!(keep_match(&args(true, false, all.clone()), false, &node, b"/x/a/foo/some_file", 9));
    assert!(keep_match(&args(true, false, all), false, &node, b"/x/a/foo/", 9));
}

#[test]
fn last_match_of_the_pattern_decides_on_grouping() {
    let all = vec![FileType::Regular { executable: false }];
    let grouped = args(true, false, all);
    let re = PathPattern::new("a/foo").unwrap();
    assert_eq!(wanted(&grouped, &re, &package(true), &file(b"/x/a/foo")), Some(true));
    assert_eq!(wanted(&grouped, &re, &package(true), &file(b"/x/a/foo/some_file")), Some(false));
    assert_eq!(wanted(&grouped, &re, &package(true), &file(b"/a/foo/a/foo")), Some(true));
    assert_eq!(wanted(&grouped, &re, &package(true), &file(b"/x/a/fo")), None);
    let mut toplevel = args(false, true, vec![FileType::Regular { executable: false }]);
    assert_eq!(wanted(&toplevel, &re, &package(false), &file(b"/x/a/foo")), Some(false));
    assert_eq!(wanted(&toplevel, &re, &package(true), &file(b"/x/a/foo")), Some(true));
    toplevel.file_type = vec![FileType::Symlink];
    assert_eq!(wanted(&toplevel, &re, &package(true), &file(b"/x/a/foo")), Some(false));
}

#[test]
fn matches_are_limited_by_package_and_kind() {
    let node = FileNode::Symlink { target: b"t".to_vec() };
    let kinds = vec![FileType::Directory, FileType::Symlink];
    assert!(keep_match(&args(false, true, kinds.clone()), true, &node, b"/a", 2));
    assert!(!keep_match(&args(false, true, kinds.clone()), false, &node, b"/a", 2));
    assert!(keep_match(&args(false, false, kinds), false, &node, b"/a", 2));
    assert!(!keep_match(&args(false, false, vec![FileType::Directory]), true, &node, b"/a", 2));
    assert!(!keep_match(&args(false, false, vec![]), true, &node, b"/a", 2));
    let exec = FileNode::Regular { size: 1, executable: true };
    let plain = vec![FileType::Regular { executable: false }];
    assert!(!keep_match(&args(false, false, plain), true, &exec, b"/a", 0));
}

#[test]
fn what_is_shown_of_a_node() {
    assert_eq!(node_summary(&FileNode::Regular { size: 100, executable: true }), ('x', 100));
    assert_eq!(node_summary(&FileNode::Regular { size: 10, executable: false }), ('r', 10));
    assert_eq!(node_summary(&FileNode::Directory { size: 7 }), ('d', 7));
    assert_eq!(node_summary(&FileNode::Symlink { target: b"abc".to_vec() }), ('s', 0));
}

#[test]
fn what_is_shown_of_a_package() {
    let mut origin =
        PathOrigin { attr: "xmonad".to_string(), output: "out".to_string(), toplevel: true };
    assert_eq!(attr_label(&origin), "xmonad.out");
    origin.toplevel = false;
    assert_eq!(attr_label(&origin), "(xmonad.out)");
}

#[test]
fn search_names_the_file_that_is_no_database() {
    let re = PathPattern::new("x").unwrap();
    match locate(b"not a database", PathBuf::from("/db/files"), &re, None, None) {
        Err(Error::ReadDatabase(path)) => assert_eq!(path, PathBuf::from("/db/files")),
        _ => panic!("expected ReadDatabase"),
    }
}

#[test]
fn search_names_the_pattern_that_cannot_be_used() {
    let file = Writer::create(0).finish().unwrap();
    let re = PathPattern::new("a\nb").unwrap();
    match locate(&file, PathBuf::from("/db/files"), &re, None, None) {
        Err(Error::Grep(pattern)) => assert_eq!(pattern, "a\nb"),
        _ => panic!("expected Grep"),
    }
}

#[test]
fn search_gives_the_matches() {
    let mut writer = Writer::create(1);
    let mut tree = FileTree::new();
    let entry = FileTreeEntry {
        path: b"/bin/hello".to_vec(),
        node: FileNode::Regular { size: 5, executable: true },
    };
    assert!(tree.insert(entry.clone()));
    let origin = PathOrigin { attr: "hello".to_string(), output: "out".to_string(), toplevel: true };
    writer.add(StorePath::new("h".to_string(), "hello-2.10".to_string(), origin), tree);
    let file = writer.finish().unwrap();
    let re = PathPattern::new("hello$").unwrap();
    let mut iter = locate(&file, PathBuf::from("/db/files"), &re, None, None).unwrap();
    let (package, found) = iter.next().unwrap().unwrap();
    assert_eq!(package.name(), "hello-2.10");
    assert_eq!(found, entry);
    assert!(iter.next().is_none());
}

#[test]
fn pattern_that_is_no_regular_expression_is_named() {
    match compile("(unclosed") {
        Err(Error::Grep(pattern)) => assert_eq!(pattern, "(unclosed"),
        _ => panic!("expected Grep"),
    }
    let compiled = compile("^/bin/[a-z]+$").unwrap();
    assert_eq!(compiled.source(), "^/bin/[a-z]+$");
    assert!(compiled.is_match(b"/bin/ls"));
    assert!(!compiled.is_match(b"/bin/ls2"));
    assert!(compiled.regex().is_match(b"/bin/ls"));
}

#[test]
fn messages_of_the_errors_of_the_search() {
    assert_eq!(
        Error::ReadDatabase(PathBuf::from("/db/files")).message(),
        "reading from the database at '/db/files' failed.\nThis may be caused by a corrupt or missing database, try (re)running `nix-index` to generate the database. \nIf the error persists please file a bug report at https://github.com/bennofs/nix-index."
    );
    assert_eq!(
        Error::Grep("(x".to_string()).message(),
        "constructing the regular expression from the pattern '(x' failed."
    );
}

#[test]
fn patterns_are_judged_in_their_order() {
    let mut given = args(true, false, vec![]);
    given.pattern = "^/bin/".to_string();
    let (pattern, package_pattern) = patterns(&given).unwrap();
    assert_eq!(pattern.source(), "^/bin/");
    assert!(package_pattern.is_none());
    given.package_pattern = Some("gcc".to_string());
    let (_, package_pattern) = patterns(&given).unwrap();
    assert_eq!(package_pattern.unwrap().source(), "gcc");
    given.package_pattern = Some("(gcc".to_string());
    assert!(matches!(patterns(&given), Err(Error::Grep(text)) if text == "(gcc"));
    given.pattern = "[bin".to_string();
    assert!(matches!(patterns(&given), Err(Error::Grep(text)) if text == "[bin"));
}

#[test]
fn error_of_the_database_names_its_file() {
    let index_file = PathBuf::from("/db/files");
    let found = (package(true), file(b"/bin/x"));
    let (kept_package, kept_file) = item(Ok(found), &index_file).unwrap();
    assert_eq!(kept_package.hash(), "h");
    assert_eq!(kept_file, file(b"/bin/x"));
    match item(Err(DatabaseError::MissingPackageEntry), &index_file) {
        Err(Error::ReadDatabase(path)) => assert_eq!(path, index_file),
        _ => panic!("expected ReadDatabase"),
    }
}

#[test]
fn each_attribute_is_seen_once() {
    let mut seen = Vec::new();
    assert!(first_time(&mut seen, "a.out"));
    assert!(first_time(&mut seen, "(b.out)"));
    assert!(!first_time(&mut seen, "a.out"));
    assert!(!first_time(&mut seen, "(b.out)"));
    assert!(first_time(&mut seen, "b.out"));
    assert_eq!(seen, vec!["a.out".to_string(), "(b.out)".to_string(), "b.out".to_string()]);
}
