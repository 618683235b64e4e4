use nix_index::database::{Reader, Writer};
use nix_index::files::{FileNode, FileTree, FileTreeEntry};
use nix_index::matcher::PathPattern;
use nix_index::package::{PathOrigin, StorePath};
use regex::bytes::Regex;

/// A small generator of numbers that gives the same numbers every time.
struct Numbers(u64);

impl Numbers {
    fn next(&mut self, below: u64) -> u64 {
        self.0 = self.0.wrapping_mul(6364136223846793005).wrapping_add(1442695040888963407);
        (self.0 >> 33) % below
    }
}

const PARTS: &[&str] = &["bin", "lib", "share", "a", "ab", "b", "x.so", "doc.txt", "p", "f", "lib64"];

fn some_path(numbers: &mut Numbers) -> Vec<u8> {
    let mut path = String::new();
    for _ in 0..1 + numbers.next(4) {
        path.push('/');
        path.push_str(PARTS[numbers.next(PARTS.len() as u64) as usize]);
    }
    path.into_bytes()
}

fn some_node(numbers: &mut Numbers) -> FileNode {
    match numbers.next(4) {
        0 => FileNode::Regular { size: numbers.next(1 << 40), executable: true },
        1 => FileNode::Regular { size: numbers.next(100), executable: false },
        2 => FileNode::Directory { size: numbers.next(1 << 20) },
        _ => FileNode::Symlink { target: some_path(numbers) },
    }
}

type Package = (String, String, Vec<FileTreeEntry>);

fn some_packages(numbers: &mut Numbers, large: bool) -> Vec<Package> {
    let mut packages = Vec::new();
    for p in 0..1 + numbers.next(12) {
        let count = if large && numbers.next(4) == 0 { 3000 } else { numbers.next(12) };
        let mut entries: Vec<FileTreeEntry> = Vec::new();
        for _ in 0..count {
            entries.push(FileTreeEntry { path: some_path(numbers), node: some_node(numbers) });
        }
        let name = format!("{}-{}", PARTS[numbers.next(PARTS.len() as u64) as usize], p);
        packages.push((format!("hash{}", p), name, entries));
    }
    packages
}

fn write(packages: &[Package]) -> Vec<u8> {
    let mut writer = Writer::create(1);
    for (hash, name, entries) in packages {
        let mut tree = FileTree::new();
        for entry in entries {
            assert!(tree.insert(entry.clone()));
        }
        let origin =
            PathOrigin { attr: name.clone(), output: "out".to_string(), toplevel: false };
        writer.add(StorePath::new(hash.clone(), name.clone(), origin), tree);
    }
    writer.finish().unwrap()
}

fn found(
    file: &[u8],
    pattern: &str,
    hash: Option<&str>,
    name: Option<&str>,
) -> Vec<(String, Vec<u8>, FileNode)> {
    let exact = PathPattern::new(pattern).unwrap();
    let name = name.map(|n| PathPattern::new(n).unwrap());
    let mut iter = Reader::open(file)
        .unwrap()
        .query(&exact)
        .package_pattern(name.as_ref())
        .hash(hash.map(str::to_string))
        .run()
        .unwrap();
    let mut hits = Vec::new();
    while let Some(hit) = iter.next() {
        let (package, entry) = hit.unwrap();
        hits.push((package.hash().to_string(), entry.path, entry.node));
    }
    hits.sort_by(|a, b| (&a.0, &a.1, format!("{:?}", a.2)).cmp(&(&b.0, &b.1, format!("{:?}", b.2))));
    hits
}

fn expected(
    packages: &[Package],
    pattern: &str,
    hash: Option<&str>,
    name: Option<&str>,
) -> Vec<(String, Vec<u8>, FileNode)> {
    let exact = Regex::new(pattern).unwrap();
    let name = name.map(|n| Regex::new(n).unwrap());
    let mut hits = Vec::new();
    for (package_hash, package_name, entries) in packages {
        if hash.map_or(false, |h| h != package_hash) {
            continue;
        }
        if name.as_ref().map_or(false, |n| !n.is_match(package_name.as_bytes())) {
            continue;
        }
        for entry in entries {
            if exact.is_match(&entry.path) {
                hits.push((package_hash.clone(), entry.path.clone(), entry.node.clone()));
            }
        }
    }
    hits.sort_by(|a, b| (&a.0, &a.1, format!("{:?}", a.2)).cmp(&(&b.0, &b.1, format!("{:?}", b.2))));
    hits
}

const PATTERNS: &[&str] = &[
    "^/bin/",
    "lib",
    "a+b",
    "\\.so$",
    "^/share/.*txt$",
    "x",
    "/[a-c]+/",
    "^/(bin|lib)/[^/]+$",
    ".",
    "/p$",
    "^/f",
    "(^/a|^/b)(/|$)",
    "lib(64)?/lib",
];

const NAMES: &[&str] = &["^bin-", "a", "-[0-4]$", "^(lib|share)"];

fn compare(seed: u64, large: bool, rounds: usize) {
    let mut numbers = Numbers(seed);
    for _ in 0..rounds {
        let packages = some_packages(&mut numbers, large);
        let file = write(&packages);
        for pattern in PATTERNS {
            assert_eq!(
                found(&file, pattern, None, None),
                expected(&packages, pattern, None, None),
                "pattern {:?}",
                pattern
            );
            let hash = format!("hash{}", numbers.next(packages.len() as u64 + 1));
            let name = NAMES[numbers.next(NAMES.len() as u64) as usize];
            assert_eq!(
                found(&file, pattern, Some(&hash), None),
                expected(&packages, pattern, Some(&hash), None),
                "pattern {:?} hash {:?}",
                pattern,
                hash
            );
            assert_eq!(
                found(&file, pattern, None, Some(name)),
                expected(&packages, pattern, None, Some(name)),
                "pattern {:?} name {:?}",
                pattern,
                name
            );
            assert_eq!(
                found(&file, pattern, Some(&hash), Some(name)),
                expected(&packages, pattern, Some(&hash), Some(name)),
                "pattern {:?} hash {:?} name {:?}",
                pattern,
                hash,
                name
            );
        }
    }
}

#[test]
fn search_agrees_with_a_pass_over_the_entries() {
    compare(1, false, 40);
}

#[test]
fn search_agrees_with_a_pass_over_the_entries_of_large_packages() {
    compare(7, true, 4);
}

#[test]
fn search_agrees_with_a_pass_over_the_entries_from_other_seeds() {
    compare(12345, false, 40);
    compare(99, true, 2);
}
