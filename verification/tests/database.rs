use nix_index::database::{split_lines, DatabaseError, Reader, Writer};
use nix_index::files::{FileNode, FileTree, FileTreeEntry};
use nix_index::package::{PathOrigin, StorePath};
use nix_index::matcher::{LineSearcher, PathPattern};
use nix_index::query::Step;

fn store_path(hash: &str, name: &str) -> StorePath {
    StorePath::new(
        hash.to_string(),
        name.to_string(),
        PathOrigin { attr: name.to_string(), output: "out".to_string(), toplevel: true },
    )
}

fn regular(path: &str, size: u64, executable: bool) -> FileTreeEntry {
    FileTreeEntry { path: path.as_bytes().to_vec(), node: FileNode::Regular { size, executable } }
}

fn tree(entries: Vec<FileTreeEntry>) -> FileTree {
    let mut tree = FileTree::new();
    for entry in entries {
        assert!(tree.insert(entry));
    }
    tree
}

fn database(packages: Vec<(StorePath, Vec<FileTreeEntry>)>) -> Vec<u8> {
    let mut writer = Writer::create(3);
    for (path, entries) in packages {
        writer.add(path, tree(entries));
    }
    writer.finish().unwrap()
}

fn search(
    file: &[u8],
    pattern: &str,
    hash: Option<&str>,
    name: Option<&str>,
) -> Result<Vec<(StorePath, FileTreeEntry)>, DatabaseError> {
    let exact = PathPattern::new(pattern).unwrap();
    let name = name.map(|n| PathPattern::new(n).unwrap());
    let mut iter = Reader::open(file)?
        .query(&exact)
        .hash(hash.map(|h| h.to_string()))
        .package_pattern(name.as_ref())
        .run()?;
    let mut hits = Vec::new();
    while let Some(hit) = iter.next() {
        hits.push(hit?);
    }
    hits.sort_by(|a, b| (a.0.hash(), &a.1.path).cmp(&(b.0.hash(), &b.1.path)));
    Ok(hits)
}

fn two_packages() -> Vec<u8> {
    database(vec![
        (store_path("aaaa", "a-1"), vec![regular("/bin/x", 1, true), regular("/lib/a.so", 2, false)]),
        (store_path("bbbb", "b-1"), vec![regular("/bin/x", 3, true), regular("/lib/b.so", 4, false)]),
    ])
}

#[test]
fn anchored_query_finds_the_one_file() {
    let file = database(vec![(
        store_path("h1", "foo-1.0"),
        vec![regular("/bin/foo", 100, true), regular("/share/foo.txt", 10, false)],
    )]);
    let hits = search(&file, "^/bin/foo", None, None).unwrap();
    assert_eq!(hits.len(), 1);
    assert_eq!(hits[0].0.name(), "foo-1.0");
    assert_eq!(hits[0].0.hash(), "h1");
    assert_eq!(hits[0].1, regular("/bin/foo", 100, true));
}

#[test]
fn same_path_in_two_packages_gives_two_matches() {
    let hits = search(&two_packages(), "^/bin/x", None, None).unwrap();
    assert_eq!(hits.len(), 2);
    assert_eq!(hits[0].0.name(), "a-1");
    assert_eq!(hits[0].1, regular("/bin/x", 1, true));
    assert_eq!(hits[1].0.name(), "b-1");
    assert_eq!(hits[1].1, regular("/bin/x", 3, true));
}

#[test]
fn symlink_keeps_its_target() {
    let link = FileTreeEntry {
        path: b"/lib/libfoo.so".to_vec(),
        node: FileNode::Symlink { target: b"libfoo.so.1".to_vec() },
    };
    let file = database(vec![(store_path("h", "foo"), vec![link.clone()])]);
    let hits = search(&file, "libfoo", None, None).unwrap();
    assert_eq!(hits.len(), 1);
    assert_eq!(hits[0].1, link);
}

#[test]
fn hash_bound_keeps_one_package() {
    let hits = search(&two_packages(), "^/bin/x", Some("aaaa"), None).unwrap();
    assert_eq!(hits.len(), 1);
    assert_eq!(hits[0].0.name(), "a-1");
    assert_eq!(hits[0].1, regular("/bin/x", 1, true));
}

#[test]
fn name_bound_keeps_one_package() {
    let hits = search(&two_packages(), "^/bin/x", None, Some("^b-")).unwrap();
    assert_eq!(hits.len(), 1);
    assert_eq!(hits[0].0.name(), "b-1");
}

#[test]
fn bounds_are_intersected() {
    let file = two_packages();
    assert_eq!(search(&file, "/", Some("aaaa"), Some("^b-")).unwrap().len(), 0);
    let both = search(&file, "/", Some("bbbb"), Some("^b-")).unwrap();
    assert_eq!(both.len(), 2);
    assert!(both.iter().all(|hit| hit.0.hash() == "bbbb"));
    let all = search(&file, "/", None, None).unwrap();
    assert_eq!(all.len(), 4);
}

#[test]
fn wrong_magic_is_refused_with_the_bytes_found() {
    match Reader::open(b"NOPE\x01\0\0\0\0\0\0\0rest") {
        Err(DatabaseError::UnsupportedFileType(found)) => assert_eq!(found, b"NOPE".to_vec()),
        _ => panic!("expected UnsupportedFileType"),
    }
}

#[test]
fn other_version_is_refused_with_its_number() {
    match Reader::open(b"NIXI\x02\0\0\0\0\0\0\0rest") {
        Err(DatabaseError::UnsupportedVersion(version)) => assert_eq!(version, 2),
        _ => panic!("expected UnsupportedVersion"),
    }
}

#[test]
fn short_file_is_an_io_error() {
    assert!(matches!(Reader::open(b"NI"), Err(DatabaseError::IO(_))));
    assert!(matches!(Reader::open(b"NIXI\x01\0\0"), Err(DatabaseError::IO(_))));
}

#[test]
fn header_without_a_frame_is_an_io_error() {
    assert!(matches!(
        Reader::open(b"NIXI\x01\0\0\0\0\0\0\0not a frame"),
        Err(DatabaseError::IO(_))
    ));
}

#[test]
fn written_file_begins_with_magic_and_version() {
    let file = database(vec![]);
    assert_eq!(&file[..12], b"NIXI\x01\0\0\0\0\0\0\0");
    assert_eq!(search(&file, "/", None, None).unwrap().len(), 0);
}

#[test]
fn written_stream_is_a_compressed_frame() {
    let file = two_packages();
    assert_eq!(&file[12..16], &[0x28, 0xb5, 0x2f, 0xfd]);
    let stream = zstd::decode_all(&file[12..]).unwrap();
    assert_eq!(stream[0], 0xff);
    assert_ne!(&file[12..], &stream[..]);
}

#[test]
fn version_is_read_least_significant_byte_first() {
    match Reader::open(b"NIXI\x01\x02\x03\x04\x05\x06\x07\x08") {
        Err(DatabaseError::UnsupportedVersion(version)) => {
            assert_eq!(version, 0x0807_0605_0403_0201)
        }
        _ => panic!("expected UnsupportedVersion"),
    }
}

#[test]
fn round_trip_gives_every_entry_with_its_package() {
    let a = vec![
        regular("/bin/a", 1, true),
        FileTreeEntry { path: b"/share".to_vec(), node: FileNode::Directory { size: 77 } },
        FileTreeEntry {
            path: b"/share/link".to_vec(),
            node: FileNode::Symlink { target: b"../bin/a".to_vec() },
        },
    ];
    let b = vec![regular("/bin/b", u64::MAX, false)];
    let file = database(vec![
        (store_path("aaaa", "a-1"), a.clone()),
        (store_path("bbbb", "b-1"), b.clone()),
    ]);
    let hits = search(&file, ".", None, None).unwrap();
    assert_eq!(hits.len(), 4);
    for (i, entry) in a.iter().enumerate() {
        assert_eq!(hits[i].0.hash(), "aaaa");
        assert_eq!(&hits[i].1, entry);
    }
    assert_eq!(hits[3].0.hash(), "bbbb");
    assert_eq!(hits[3].0.origin().attr, "b-1");
    assert_eq!(hits[3].0.origin().output, "out");
    assert!(hits[3].0.origin().toplevel);
    assert_eq!(hits[3].1, b[0]);
}

#[test]
fn anchor_matches_only_at_the_start_of_a_path() {
    let file = database(vec![(
        store_path("h", "coreutils"),
        vec![regular("/bin/ls", 1, true), regular("/usr/bin/ls", 2, true)],
    )]);
    let hits = search(&file, "^/bin/", None, None).unwrap();
    assert_eq!(hits.len(), 1);
    assert_eq!(hits[0].1.path, b"/bin/ls".to_vec());
}

#[test]
fn package_record_is_never_a_match() {
    let file = database(vec![(
        store_path("h", "/bin/true"),
        vec![regular("/bin/true", 1, true), regular("/share/true", 2, false)],
    )]);
    let hits = search(&file, "^/bin/true", None, None).unwrap();
    assert_eq!(hits.len(), 1);
    assert_eq!(hits[0].1.path, b"/bin/true".to_vec());
    let hits = search(&file, "/bin/true", None, None).unwrap();
    assert_eq!(hits.len(), 1);
}

#[test]
fn match_in_the_metadata_alone_is_dropped() {
    let link = FileTreeEntry {
        path: b"/lib/link".to_vec(),
        node: FileNode::Symlink { target: b"/bin/target".to_vec() },
    };
    let file = database(vec![(store_path("h", "p"), vec![link, regular("/bin/target", 1, true)])]);
    let hits = search(&file, "/bin/target", None, None).unwrap();
    assert_eq!(hits.len(), 1);
    assert_eq!(hits[0].1.path, b"/bin/target".to_vec());
}

#[test]
fn file_is_given_to_the_package_of_a_later_block() {
    // The package record begins a block of its own, so every file waits
    // for the block that follows its own.
    let file = database(vec![(store_path("h", "late"), vec![regular("/bin/late", 5, true)])]);
    let hits = search(&file, "late$", None, None).unwrap();
    assert_eq!(hits.len(), 1);
    assert_eq!(hits[0].0.name(), "late");
    assert_eq!(hits[0].1, regular("/bin/late", 5, true));
}

#[test]
fn pattern_that_cannot_be_compiled_for_lines_is_refused_at_run() {
    let file = two_packages();
    assert!(matches!(search(&file, "a\nb", None, None), Err(DatabaseError::Grep(_))));
}

#[test]
fn nothing_is_given_after_an_error() {
    let exact = PathPattern::new("x").unwrap();
    let file = two_packages();
    let mut iter = Reader::open(&file).unwrap().query(&exact).run().unwrap();
    let mut count = 0;
    while let Some(hit) = iter.next() {
        assert!(hit.is_ok());
        count += 1;
    }
    assert_eq!(count, 2);
    assert!(iter.next().is_none());
}

fn file_of(stream: Vec<u8>) -> Vec<u8> {
    let mut file = b"NIXI\x01\0\0\0\0\0\0\0".to_vec();
    file.extend(zstd::encode_all(&stream[..], 0).unwrap());
    file
}

fn stream_of(blocks: &[&[&[u8]]]) -> Vec<u8> {
    let mut encoder = nix_index::frcode::Encoder::new();
    for block in blocks {
        encoder.start_block();
        for record in *block {
            encoder.write_record(record);
        }
    }
    encoder.finish()
}

const PACKAGE: &[u8] =
    b"p\x00{\"hash\":\"h\",\"name\":\"n\",\"origin\":{\"attr\":\"a\",\"output\":\"o\",\"toplevel\":true}}";

#[test]
fn file_without_a_package_makes_the_database_malformed() {
    let file = file_of(stream_of(&[&[b"f\x001r\x00/bin/x"]]));
    assert!(matches!(search(&file, "x", None, None), Err(DatabaseError::MissingPackageEntry)));
    assert_eq!(search(&file, "y", None, None).unwrap().len(), 0);
}

#[test]
fn record_that_is_no_file_fails_the_search_when_it_matches() {
    let file = file_of(stream_of(&[&[b"f\x001q\x00/bin/x", PACKAGE]]));
    match search(&file, "x", None, None) {
        Err(DatabaseError::EntryParse(record)) => assert_eq!(record, b"f\x001q\x00/bin/x".to_vec()),
        _ => panic!("expected EntryParse"),
    }
    assert_eq!(search(&file, "y", None, None).unwrap().len(), 0);
    assert_eq!(search(&file, "x", Some("other"), None).unwrap().len(), 0);
}

#[test]
fn package_record_without_a_store_path_fails_the_search() {
    let file = file_of(stream_of(&[&[b"f\x001r\x00/bin/x", b"p\x00{\"hash\":1}"]]));
    match search(&file, "x", None, None) {
        Err(DatabaseError::StorePathParse(json)) => assert_eq!(json, b"{\"hash\":1}".to_vec()),
        _ => panic!("expected StorePathParse"),
    }
    assert_eq!(search(&file, "y", None, None).unwrap().len(), 0);
}

#[test]
fn stream_that_is_not_front_coded_fails_the_search() {
    let file = file_of(b"\xff\x05abc\n".to_vec());
    assert!(matches!(
        search(&file, "x", None, None),
        Err(DatabaseError::Frcode(nix_index::frcode::Error::PrefixTooLong))
    ));
    let file = file_of(b"abc\n".to_vec());
    assert!(matches!(
        search(&file, "x", None, None),
        Err(DatabaseError::Frcode(nix_index::frcode::Error::BadBoundary))
    ));
}

#[test]
fn owner_is_the_first_package_after_the_file() {
    let other: &[u8] =
        b"p\x00{\"hash\":\"g\",\"name\":\"m\",\"origin\":{\"attr\":\"a\",\"output\":\"o\",\"toplevel\":true}}";
    let file = file_of(stream_of(&[
        &[b"f\x001r\x00/one/x", b"f\x002r\x00/one/y", PACKAGE, b"f\x003r\x00/two/x"],
        &[b"f\x004r\x00/two/z"],
        &[other, b"f\x005r\x00/three/x"],
        &[PACKAGE],
    ]));
    let hits = search(&file, "/", None, None).unwrap();
    let owners: Vec<(String, Vec<u8>)> =
        hits.iter().map(|hit| (hit.0.hash().to_string(), hit.1.path.clone())).collect();
    assert_eq!(
        owners,
        vec![
            ("g".to_string(), b"/two/x".to_vec()),
            ("g".to_string(), b"/two/z".to_vec()),
            ("h".to_string(), b"/one/x".to_vec()),
            ("h".to_string(), b"/one/y".to_vec()),
            ("h".to_string(), b"/three/x".to_vec()),
        ]
    );
    let hits = search(&file, "/", Some("g"), None).unwrap();
    assert_eq!(hits.len(), 2);
    let hits = search(&file, "x$", None, Some("^n$")).unwrap();
    assert_eq!(hits.len(), 2);
}

#[test]
fn dump_gives_the_records_of_every_block() {
    let file = file_of(stream_of(&[&[b"f\x001r\x00/a", b"f\x002r\x00/ab"], &[PACKAGE]]));
    let mut reader = Reader::open(&file).unwrap();
    assert_eq!(
        reader.dump().unwrap(),
        vec![
            vec![b"f\x001r\x00/a".to_vec(), b"f\x002r\x00/ab".to_vec(), Vec::new()],
            vec![PACKAGE.to_vec(), Vec::new()],
        ]
    );
    assert_eq!(reader.dump().unwrap(), Vec::<Vec<Vec<u8>>>::new());
}

#[test]
fn lines_of_a_block() {
    assert_eq!(split_lines(b""), vec![Vec::<u8>::new()]);
    assert_eq!(split_lines(b"a"), vec![b"a".to_vec()]);
    assert_eq!(split_lines(b"a\n\nbc"), vec![b"a".to_vec(), Vec::new(), b"bc".to_vec()]);
    assert_eq!(split_lines(b"\n"), vec![Vec::<u8>::new(), Vec::new()]);
}

#[test]
fn level_of_compression_does_not_change_what_is_read() {
    for level in [0, 1, 19] {
        let mut writer = Writer::create(level);
        writer.add(store_path("h", "p"), tree(vec![regular("/bin/p", 1, true)]));
        let file = writer.finish().unwrap();
        let hits = search(&file, "^/bin/p$", None, None).unwrap();
        assert_eq!(hits.len(), 1);
    }
}

#[test]
fn pattern_that_matches_only_the_empty_text_gives_nothing() {
    let file = two_packages();
    assert_eq!(search(&file, "$", None, None).unwrap().len(), 0);
    assert_eq!(search(&file, "q*", None, None).unwrap().len(), 0);
    assert_eq!(search(&file, "", None, None).unwrap().len(), 0);
}

#[test]
fn pattern_that_may_match_the_empty_text_gives_its_other_matches() {
    let file = two_packages();
    let hits = search(&file, "(a\\.so)*", None, None).unwrap();
    assert_eq!(hits.len(), 1);
    assert_eq!(hits[0].1.path, b"/lib/a.so".to_vec());
    assert_eq!(search(&file, "^", None, None).unwrap().len(), 0);
    assert_eq!(search(&file, "^/", None, None).unwrap().len(), 4);
}

#[test]
fn match_is_judged_on_the_path_alone() {
    let file = database(vec![(
        store_path("h", "p"),
        vec![regular("/bin/ls", 1, true), regular("/bin/xargs", 2, true), regular("/r", 3, false)],
    )]);
    let hits = search(&file, "x*", None, None).unwrap();
    assert_eq!(hits.len(), 1);
    assert_eq!(hits[0].1.path, b"/bin/xargs".to_vec());
    let hits = search(&file, "r+", None, None).unwrap();
    assert_eq!(hits.len(), 2);
    assert_eq!(search(&file, "f", None, None).unwrap().len(), 0);
    assert_eq!(search(&file, "[0-9]", None, None).unwrap().len(), 0);
}

#[test]
fn paths_are_matched_byte_by_byte() {
    let odd = FileTreeEntry {
        path: b"/bin/caf\xc3\xa9".to_vec(),
        node: FileNode::Regular { size: 1, executable: true },
    };
    let raw = FileTreeEntry {
        path: b"/bin/\xff\xfe\x80".to_vec(),
        node: FileNode::Symlink { target: b"\xff".to_vec() },
    };
    let file = database(vec![(store_path("h", "odd"), vec![odd.clone(), raw.clone()])]);
    let hits = search(&file, "caf\u{e9}$", None, None).unwrap();
    assert_eq!(hits.len(), 1);
    assert_eq!(hits[0].1, odd);
    let hits = search(&file, "^/bin/", None, None).unwrap();
    assert_eq!(hits.len(), 2);
    assert_eq!(hits[0].1, odd);
    assert_eq!(hits[1].1, raw);
    assert_eq!(search(&file, "^/bin/[^c]", None, None).unwrap().len(), 0);
    assert_eq!(search(&file, "caf.$", None, None).unwrap().len(), 1);
    assert_eq!(search(&file, "caf..$", None, None).unwrap().len(), 0);
}

#[test]
fn pattern_for_bytes_cannot_be_rewritten() {
    let file = two_packages();
    assert!(matches!(search(&file, "(?-u:\\xff)", None, None), Err(DatabaseError::Grep(_))));
}

#[test]
fn many_files_fill_more_than_one_block() {
    let mut entries = Vec::new();
    for i in 0..5000u64 {
        entries.push(regular(&format!("/share/doc/package/file-{:05}.html", i), i, i % 2 == 0));
    }
    let file = database(vec![
        (store_path("big", "big-1"), entries.clone()),
        (store_path("small", "small-1"), vec![regular("/share/doc/package/file-00007.html", 7, false)]),
    ]);
    let stream = zstd::decode_all(&file[12..]).unwrap();
    assert!(stream.iter().filter(|b| **b == 0xff).count() >= 3);
    let hits = search(&file, "file-0[0-9]*7\\.html$", None, None).unwrap();
    assert_eq!(hits.len(), 501);
    assert_eq!(hits.iter().filter(|hit| hit.0.hash() == "big").count(), 500);
    assert_eq!(hits.iter().filter(|hit| hit.0.hash() == "small").count(), 1);
    let hits = search(&file, "file-0[0-9]*7\\.html$", Some("small"), None).unwrap();
    assert_eq!(hits.len(), 1);
    let all = search(&file, "^/share/", None, None).unwrap();
    assert_eq!(all.len(), 5001);
    for (hit, entry) in all.iter().zip(entries.iter()) {
        assert_eq!(&hit.1, entry);
    }
}

#[test]
fn errors_of_the_parts_become_errors_of_the_database() {
    let e: DatabaseError = nix_index::frcode::Error::Truncated.into();
    assert!(matches!(e, DatabaseError::Frcode(nix_index::frcode::Error::Truncated)));
    let e: DatabaseError = std::io::Error::from(std::io::ErrorKind::NotFound).into();
    match e {
        DatabaseError::IO(inner) => assert_eq!(inner.kind(), std::io::ErrorKind::NotFound),
        _ => panic!("expected IO"),
    }
}

#[test]
fn path_with_a_line_feed_is_stored_and_found() {
    let odd = FileTreeEntry {
        path: b"/share/odd\nname".to_vec(),
        node: FileNode::Symlink { target: b"else\nwhere".to_vec() },
    };
    let file = database(vec![(store_path("h", "odd"), vec![odd.clone(), regular("/share/x", 1, false)])]);
    let hits = search(&file, "^/share/odd", None, None).unwrap();
    assert_eq!(hits.len(), 1);
    assert_eq!(hits[0].1, odd);
    assert_eq!(search(&file, "^/share/", None, None).unwrap().len(), 2);
}

#[test]
fn query_begins_with_the_searcher_that_was_built() {
    let exact = PathPattern::new("x").unwrap();
    let file = two_packages();
    let searcher = LineSearcher::new("x".to_string());
    assert_eq!(searcher.as_ref().ok().map(|s| s.pattern().to_string()), Some("x".to_string()));
    let mut iter = Reader::open(&file).unwrap().query(&exact).start(searcher).unwrap();
    let mut count = 0;
    while let Some(hit) = iter.next() {
        assert!(hit.is_ok());
        count += 1;
    }
    assert_eq!(count, 2);
    let refused = LineSearcher::new("a\nb".to_string());
    assert!(refused.is_err());
    assert!(matches!(
        Reader::open(&file).unwrap().query(&exact).start(refused),
        Err(DatabaseError::Grep(_))
    ));
}

#[test]
fn nothing_is_given_after_an_error_by_either_way_of_asking() {
    let file = file_of(stream_of(&[
        &[b"f\x001r\x00/bin/x", PACKAGE],
        &[b"f\x001q\x00/bin/x", PACKAGE],
    ]));
    let exact = PathPattern::new("x").unwrap();
    let mut iter = Reader::open(&file).unwrap().query(&exact).run().unwrap();
    assert!(matches!(iter.next_match(), Ok(Some(_))));
    assert!(matches!(iter.next_match(), Err(DatabaseError::EntryParse(_))));
    assert!(matches!(iter.next_match(), Ok(None)));
    assert!(iter.next().is_none());
    let mut iter = Reader::open(&file).unwrap().query(&exact).run().unwrap();
    assert!(matches!(iter.next(), Some(Ok(_))));
    assert!(matches!(iter.next(), Some(Err(DatabaseError::EntryParse(_)))));
    assert!(iter.next().is_none());
    assert!(matches!(iter.next_match(), Ok(None)));
}

fn stepwise(file: &[u8], pattern: &str, chunk: usize) -> Result<Vec<(String, Vec<u8>)>, DatabaseError> {
    nix_index::database::check_header(&file[..12.min(file.len())])?;
    let stream = zstd::decode_all(&file[12..]).unwrap();
    let exact = PathPattern::new(pattern).unwrap();
    let mut iter = Reader::from_stream(Vec::new()).query(&exact).run()?;
    let mut buffer = Vec::new();
    let mut at = 0;
    let mut hits = Vec::new();
    loop {
        match iter.step(&mut buffer, at == stream.len()) {
            Step::Found((package, entry)) => hits.push((package.hash().to_string(), entry.path)),
            Step::Done => break,
            Step::Failed(e) => return Err(e),
            Step::NeedInput => {
                let end = (at + chunk).min(stream.len());
                buffer.extend_from_slice(&stream[at..end]);
                at = end;
            }
        }
    }
    assert!(matches!(iter.step(&mut buffer, true), Step::Done));
    hits.sort();
    Ok(hits)
}

#[test]
fn stream_can_be_searched_as_it_arrives() {
    let file = two_packages();
    let whole: Vec<(String, Vec<u8>)> = search(&file, "/", None, None)
        .unwrap()
        .into_iter()
        .map(|hit| (hit.0.hash().to_string(), hit.1.path))
        .collect();
    assert_eq!(whole.len(), 4);
    for chunk in [1, 2, 3, 7, 64, 100_000] {
        assert_eq!(stepwise(&file, "/", chunk).unwrap(), whole);
    }
    assert_eq!(stepwise(&file, "^/bin/x", 5).unwrap().len(), 2);
    assert_eq!(stepwise(&database(vec![]), "/", 5).unwrap().len(), 0);
}

#[test]
fn faults_are_found_as_the_stream_arrives() {
    let missing = file_of(stream_of(&[&[b"f\x001r\x00/bin/x"]]));
    for chunk in [1, 4, 1000] {
        assert!(matches!(stepwise(&missing, "x", chunk), Err(DatabaseError::MissingPackageEntry)));
    }
    let bad = file_of(stream_of(&[&[b"f\x001q\x00/bin/x", PACKAGE]]));
    assert!(matches!(stepwise(&bad, "x", 3), Err(DatabaseError::EntryParse(_))));
    let cut = file_of(b"\xff\x00abc".to_vec());
    assert!(matches!(
        stepwise(&cut, "x", 2),
        Err(DatabaseError::Frcode(nix_index::frcode::Error::Truncated))
    ));
    let long = file_of(b"\xff\x05abc\n".to_vec());
    assert!(matches!(
        stepwise(&long, "x", 1),
        Err(DatabaseError::Frcode(nix_index::frcode::Error::PrefixTooLong))
    ));
    let lone = file_of(b"\xff".to_vec());
    assert!(matches!(
        stepwise(&lone, "x", 1),
        Err(DatabaseError::Frcode(nix_index::frcode::Error::BadBoundary))
    ));
    let no_boundary = file_of(b"abc\n".to_vec());
    assert!(matches!(
        stepwise(&no_boundary, "x", 1),
        Err(DatabaseError::Frcode(nix_index::frcode::Error::BadBoundary))
    ));
    assert!(matches!(
        stepwise(b"NOPE\x01\0\0\0\0\0\0\0", "x", 1),
        Err(DatabaseError::UnsupportedFileType(_))
    ));
}

#[test]
fn messages_of_the_errors() {
    assert_eq!(
        DatabaseError::UnsupportedFileType(b"NOPE".to_vec()).message(),
        "expected file to start with nix-index file magic 'NIXI', but found 'NOPE' (is this a valid nix-index database file?)"
    );
    assert_eq!(
        DatabaseError::UnsupportedVersion(2).message(),
        "this executable only supports the nix-index database version 1, but found a database with version 2"
    );
    assert_eq!(
        DatabaseError::MissingPackageEntry.message(),
        "database corrupt, found a file entry without a matching package entry"
    );
    assert_eq!(DatabaseError::Frcode(nix_index::frcode::Error::Truncated).message(), "frcode errror");
    assert_eq!(
        DatabaseError::EntryParse(b"f\x00\xffq".to_vec()).message(),
        "database corrupt, could not parse entry: \"f\\0\u{fffd}q\""
    );
    assert_eq!(
        DatabaseError::StorePathParse(b"{\"a\":1}".to_vec()).message(),
        "database corrupt, could not parse store path: \"{\\\"a\\\":1}\""
    );
    let io = std::io::Error::new(std::io::ErrorKind::Other, "disk on fire");
    assert_eq!(DatabaseError::IO(io).message(), "IO Error disk on fire");
    assert_eq!(DatabaseError::Grep("anything".to_string()).message(), "Grep Error");
}
