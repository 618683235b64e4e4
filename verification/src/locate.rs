//! What the search tool decides: how its options become a query, which
//! matches it shows, and what it shows of each.

use crate::database::{Reader, ReaderIter};
use crate::files::{
    all_file_types, node_type, FileNode, FileNodeView, FileTreeEntry, FileType,
};
use crate::matcher::{all_match_spans, compiles, grep_builds, match_spans, PathPattern};
use crate::package::{PathOrigin, StorePath};
use crate::query::{pattern_text, text_of};
use std::path::PathBuf;
use vstd::prelude::*;
use vstd::string::StringExecFns;

verus! {

/// An owned path of `std`.
#[verifier::external_type_specification]
#[verifier::external_body]
pub struct ExPathBuf(std::path::PathBuf);

/// Why a search failed.
#[derive(Debug)]
pub enum Error {
    /// The database at this path could not be read.
    ReadDatabase(PathBuf),
    /// No regular expression could be made from this pattern.
    Grep(String),
}

/// Calls `Path::to_string_lossy`, which gives the path as text.
#[verifier::external_body]
fn path_text(path: &PathBuf) -> String {
    path.to_string_lossy().into_owned()
}

impl Error {
    /// The message of the error: a text, the path or the pattern, and a
    /// text. The path is shown as `Path::to_string_lossy` gives it.
    pub fn message(&self) -> (text: String)
        ensures
            match *self {
                Error::ReadDatabase(_) => exists|path: Seq<char>|
                    #[trigger] ("reading from the database at '"@ + path)
                        + "' failed.\nThis may be caused by a corrupt or missing database, try (re)running `nix-index` to generate the database. \nIf the error persists please file a bug report at https://github.com/bennofs/nix-index."@
                        == text@,
                Error::Grep(pattern) => text@
                    == "constructing the regular expression from the pattern '"@ + pattern@
                    + "' failed."@,
            },
    {
        match self {
            Error::ReadDatabase(path) => {
                let mut text = String::from_str("reading from the database at '");
                let shown = path_text(path);
                text.append(shown.as_str());
                text.append(
                    "' failed.\nThis may be caused by a corrupt or missing database, try (re)running `nix-index` to generate the database. \nIf the error persists please file a bug report at https://github.com/bennofs/nix-index.",
                );
                assert(("reading from the database at '"@ + shown@)
                    + "' failed.\nThis may be caused by a corrupt or missing database, try (re)running `nix-index` to generate the database. \nIf the error persists please file a bug report at https://github.com/bennofs/nix-index."@
                    == text@);
                text
            },
            Error::Grep(pattern) => {
                let mut text = String::from_str(
                    "constructing the regular expression from the pattern '",
                );
                text.append(pattern.as_str());
                text.append("' failed.");
                text
            },
        }
    }
}

/// The options of a search as they were given, before they are checked.
pub struct RawArgs {
    /// The directory of the database.
    pub database: String,
    /// The pattern to search for.
    pub pattern: String,
    /// Whether the patterns are regular expressions, not literal text.
    pub regex: bool,
    /// The pattern for the name of the package, if any.
    pub package: Option<String>,
    /// The hash of the package, if any.
    pub hash: Option<String>,
    /// Whether only packages that are reached directly are shown.
    pub toplevel: bool,
    /// The kinds of files to show, as `d`, `x`, `r` or `s`; all when none.
    pub types: Option<Vec<String>>,
    /// Whether every match is shown, not only the topmost of a path.
    pub no_group: bool,
    /// `always`, `never` or `auto`; `auto` when none.
    pub color: Option<String>,
    /// Whether the pattern has to match to the end of the path.
    pub whole: bool,
    /// Whether the pattern has to match from the start of the path.
    pub at_root: bool,
    /// Whether only the attribute of each package is shown.
    pub minimal: bool,
    /// Whether the output goes to a terminal.
    pub terminal: bool,
}

/// The options of a search.
pub struct Args {
    /// The directory of the database.
    pub database: String,
    /// The pattern to search for, as a regular expression.
    pub pattern: String,
    /// Whether only the topmost match of a path is shown.
    pub group: bool,
    /// The hash of the package, if any.
    pub hash: Option<String>,
    /// The pattern for the name of the package, if any.
    pub package_pattern: Option<String>,
    /// The kinds of files to show.
    pub file_type: Vec<FileType>,
    /// Whether only packages that are reached directly are shown.
    pub only_toplevel: bool,
    /// Whether the matched part of a path is coloured.
    pub color: bool,
    /// Whether only the attribute of each package is shown.
    pub minimal: bool,
}

/// Whether `c` has a meaning of its own in a regular expression.
pub open spec fn is_meta_character(c: char) -> bool {
    c == '\\' || c == '.' || c == '+' || c == '*' || c == '?' || c == '(' || c == ')' || c == '|'
        || c == '[' || c == ']' || c == '{' || c == '}' || c == '^' || c == '$' || c == '#' || c
        == '&' || c == '-' || c == '~'
}

/// The text with a backslash before each character that has a meaning of
/// its own in a regular expression.
pub open spec fn escaped(text: Seq<char>) -> Seq<char>
    decreases text.len(),
{
    if text.len() == 0 {
        Seq::empty()
    } else if is_meta_character(text.last()) {
        escaped(text.drop_last()).push('\\').push(text.last())
    } else {
        escaped(text.drop_last()).push(text.last())
    }
}

/// Calls `regex::escape`, which puts a backslash before each of the
/// characters `\ . + * ? ( ) | [ ] { } ^ $ # & - ~` and leaves the others.
#[verifier::external_body]
fn escape(text: &str) -> (r: String)
    ensures
        r@ == escaped(text@),
{
    regex::escape(text)
}

/// The pattern that is searched for: the text itself when it is a regular
/// expression, and else the text with its meta characters escaped; between
/// `^` and `$` where these are asked for.
pub open spec fn pattern_for(text: Seq<char>, regex: bool, start: bool, end: bool) -> Seq<char> {
    (if start {
        seq!['^']
    } else {
        Seq::empty()
    }) + (if regex {
        text
    } else {
        escaped(text)
    }) + (if end {
        seq!['$']
    } else {
        Seq::empty()
    })
}

/// Builds the pattern that is searched for.
pub fn make_pattern(text: &str, regex: bool, start: bool, end: bool) -> (pattern: String)
    ensures
        pattern@ == pattern_for(text@, regex, start, end),
{
    proof {
        reveal_strlit("^");
        reveal_strlit("$");
        reveal_strlit("");
    }
    let mut pattern = String::from_str(
        if start {
            "^"
        } else {
            ""
        },
    );
    if regex {
        pattern.append(text);
    } else {
        let quoted = escape(text);
        pattern.append(quoted.as_str());
    }
    if end {
        pattern.append("$");
    }
    assert(pattern@ =~= pattern_for(text@, regex, start, end));
    pattern
}

/// The kind of file that a flag stands for.
pub open spec fn file_type_for(flag: Seq<char>) -> Option<FileType> {
    if flag == seq!['x'] {
        Some(FileType::Regular { executable: true })
    } else if flag == seq!['r'] {
        Some(FileType::Regular { executable: false })
    } else if flag == seq!['s'] {
        Some(FileType::Symlink)
    } else if flag == seq!['d'] {
        Some(FileType::Directory)
    } else {
        None
    }
}

/// Reads the kind of file that a flag stands for.
pub fn parse_file_type(flag: &String) -> (r: Option<FileType>)
    ensures
        r == file_type_for(flag@),
{
    proof {
        reveal_strlit("x");
        reveal_strlit("r");
        reveal_strlit("s");
        reveal_strlit("d");
        assert("x"@ =~= seq!['x']);
        assert("r"@ =~= seq!['r']);
        assert("s"@ =~= seq!['s']);
        assert("d"@ =~= seq!['d']);
    }
    if *flag == String::from_str("x") {
        Some(FileType::Regular { executable: true })
    } else if *flag == String::from_str("r") {
        Some(FileType::Regular { executable: false })
    } else if *flag == String::from_str("s") {
        Some(FileType::Symlink)
    } else if *flag == String::from_str("d") {
        Some(FileType::Directory)
    } else {
        None
    }
}

/// What a choice of colour says: `Some(Some(..))` for `always` and
/// `never`, `Some(None)` for `auto`, and nothing for any other text.
pub open spec fn color_for(choice: Seq<char>) -> Option<Option<bool>> {
    if choice == "auto"@ {
        Some(None)
    } else if choice == "always"@ {
        Some(Some(true))
    } else if choice == "never"@ {
        Some(Some(false))
    } else {
        None
    }
}

/// Reads a choice of colour.
pub fn parse_color(choice: &String) -> (r: Option<Option<bool>>)
    ensures
        r == color_for(choice@),
{
    if *choice == String::from_str("auto") {
        Some(None)
    } else if *choice == String::from_str("always") {
        Some(Some(true))
    } else if *choice == String::from_str("never") {
        Some(Some(false))
    } else {
        None
    }
}

/// Whether `types` are the kinds that `flags` stand for, in their order.
pub open spec fn types_for(flags: Seq<String>, types: Seq<FileType>) -> bool {
    &&& types.len() == flags.len()
    &&& forall|i: int| 0 <= i < flags.len() ==> file_type_for(flags[i]@) == Some(#[trigger] types[i])
}

/// Whether every flag stands for a kind of file.
pub open spec fn known_types(flags: Seq<String>) -> bool {
    forall|i: int| 0 <= i < flags.len() ==> file_type_for(#[trigger] flags[i]@) is Some
}

/// Reads the kinds of files that a list of flags stands for. Gives
/// nothing when one of them stands for none.
pub fn parse_file_types(flags: &Vec<String>) -> (r: Option<Vec<FileType>>)
    ensures
        match r {
            Some(types) => types_for(flags@, types@),
            None => !known_types(flags@),
        },
{
    let mut types: Vec<FileType> = Vec::new();
    let mut i: usize = 0;
    while i < flags.len()
        invariant
            i <= flags@.len(),
            types@.len() == i,
            forall|k: int| 0 <= k < i ==> file_type_for(flags@[k]@) == Some(#[trigger] types@[k]),
        decreases flags.len() - i,
    {
        match parse_file_type(&flags[i]) {
            Some(t) => types.push(t),
            None => {
                return None;
            },
        }
        i += 1;
    }
    Some(types)
}

/// Whether the options can be used: every kind of file and the choice of
/// colour are among those that are known.
pub open spec fn usable(raw: RawArgs) -> bool {
    &&& match raw.types {
        Some(flags) => known_types(flags@),
        None => true,
    }
    &&& match raw.color {
        Some(choice) => color_for(choice@) is Some,
        None => true,
    }
}

/// Whether `args` are the options that `raw` asks for.
pub open spec fn processed(raw: RawArgs, args: Args) -> bool {
    &&& args.database@ == raw.database@
    &&& args.pattern@ == pattern_for(raw.pattern@, raw.regex, raw.at_root, raw.whole)
    &&& args.group == !raw.no_group
    &&& text_of(args.hash) == text_of(raw.hash)
    &&& match raw.package {
        Some(package) => args.package_pattern is Some && args.package_pattern->0@ == pattern_for(
            package@,
            raw.regex,
            false,
            false,
        ),
        None => args.package_pattern is None,
    }
    &&& match raw.types {
        Some(flags) => types_for(flags@, args.file_type@),
        None => args.file_type@ == seq![
            FileType::Regular { executable: false },
            FileType::Regular { executable: true },
            FileType::Symlink,
            FileType::Directory,
        ],
    }
    &&& args.only_toplevel == raw.toplevel
    &&& args.color == match raw.color {
        Some(choice) => match color_for(choice@) {
            Some(Some(color)) => color,
            _ => raw.terminal,
        },
        None => raw.terminal,
    }
    &&& args.minimal == raw.minimal
}

/// Checks the options as they were given and works out what they ask for.
/// Gives nothing exactly when a kind of file or the choice of colour is
/// not known.
pub fn process_args(raw: RawArgs) -> (r: Option<Args>)
    ensures
        match r {
            Some(args) => usable(raw) && processed(raw, args),
            None => !usable(raw),
        },
{
    let file_type = match &raw.types {
        Some(flags) => match parse_file_types(flags) {
            Some(types) => {
                assert forall|i: int| 0 <= i < flags@.len() implies file_type_for(
                    #[trigger] flags@[i]@,
                ) is Some by {
                    assert(file_type_for(flags@[i]@) == Some(types@[i]));
                }
                types
            },
            None => {
                return None;
            },
        },
        None => all_file_types(),
    };
    let color = match &raw.color {
        Some(choice) => match parse_color(choice) {
            Some(Some(color)) => color,
            Some(None) => raw.terminal,
            None => {
                return None;
            },
        },
        None => raw.terminal,
    };
    let pattern = make_pattern(raw.pattern.as_str(), raw.regex, raw.at_root, raw.whole);
    let package_pattern = match &raw.package {
        Some(package) => Some(make_pattern(package.as_str(), raw.regex, false, false)),
        None => None,
    };
    Some(
        Args {
            database: raw.database,
            pattern,
            group: !raw.no_group,
            hash: raw.hash,
            package_pattern,
            file_type,
            only_toplevel: raw.toplevel,
            color,
            minimal: raw.minimal,
        },
    )
}

/// Whether a path has no `/` from `from` on.
pub open spec fn no_slash_from(path: Seq<u8>, from: int) -> bool {
    forall|i: int| from <= i < path.len() ==> path[i] != 0x2Fu8
}

/// Whether a match is shown. When matches are grouped, the last match of
/// the pattern has to reach into the last component of the path; when
/// only packages that are reached directly are wanted, the package has to
/// be one; and the kind of the file has to be among the wanted kinds.
pub open spec fn shown(
    group: bool,
    only_toplevel: bool,
    file_type: Seq<FileType>,
    toplevel: bool,
    node: FileNodeView,
    path: Seq<u8>,
    last_end: int,
) -> bool {
    &&& !group || no_slash_from(path, last_end)
    &&& !only_toplevel || toplevel
    &&& file_type.contains(node_type(node))
}

/// Decides whether a match is shown, given the index after the last match
/// of the pattern in its path.
pub fn keep_match(
    args: &Args,
    toplevel: bool,
    node: &FileNode,
    path: &[u8],
    last_end: usize,
) -> (keep: bool)
    requires
        last_end <= path@.len(),
    ensures
        keep == shown(
            args.group,
            args.only_toplevel,
            args.file_type@,
            toplevel,
            node@,
            path@,
            last_end as int,
        ),
{
    let mut in_last_component = true;
    let mut i: usize = last_end;
    while i < path.len()
        invariant
            last_end <= i <= path@.len(),
            in_last_component <==> forall|j: int| last_end <= j < i ==> path@[j] != 0x2Fu8,
        decreases path.len() - i,
    {
        if path[i] == 0x2F {
            in_last_component = false;
        }
        i += 1;
    }
    let kind = node.get_type();
    let mut wanted = false;
    let mut k: usize = 0;
    while k < args.file_type.len()
        invariant
            k <= args.file_type@.len(),
            wanted <==> exists|j: int| 0 <= j < k && args.file_type@[j] == kind,
        decreases args.file_type.len() - k,
    {
        if args.file_type[k] == kind {
            wanted = true;
        }
        k += 1;
    }
    (!args.group || in_last_component) && (!args.only_toplevel || toplevel) && wanted
}

/// Decides whether a match of `pattern` is shown, by the last of the
/// matches of the pattern in the path of the file. Gives nothing when the
/// pattern has no match there.
pub fn wanted(
    args: &Args,
    pattern: &PathPattern,
    package: &StorePath,
    entry: &FileTreeEntry,
) -> (keep: Option<bool>)
    ensures
        keep == (if all_match_spans(pattern@, entry@.path).len() == 0 {
            None
        } else {
            Some(
                shown(
                    args.group,
                    args.only_toplevel,
                    args.file_type@,
                    package@.toplevel,
                    entry@.node,
                    entry@.path,
                    all_match_spans(pattern@, entry@.path).last().1 as int,
                ),
            )
        }),
{
    let spans = match_spans(pattern, entry.path.as_slice());
    if spans.len() == 0 {
        None
    } else {
        let last = spans[spans.len() - 1].1;
        Some(keep_match(args, package.origin().toplevel, &entry.node, entry.path.as_slice(), last))
    }
}

/// The letter that is shown for a file and the size that is shown for
/// it: `x` or `r` and the size of a regular file, `d` and the size of a
/// directory, `s` and zero for a symlink.
pub open spec fn summary(node: FileNodeView) -> (char, u64) {
    match node {
        FileNodeView::Regular { size, executable } => (
            if executable {
                'x'
            } else {
                'r'
            },
            size,
        ),
        FileNodeView::Directory { size } => ('d', size),
        FileNodeView::Symlink { target } => ('s', 0),
    }
}

/// Works out the letter and the size that are shown for a file.
pub fn node_summary(node: &FileNode) -> (r: (char, u64))
    ensures
        r == summary(node@),
{
    match node {
        FileNode::Regular { size, executable } => (
            if *executable {
                'x'
            } else {
                'r'
            },
            *size,
        ),
        FileNode::Directory { size } => ('d', *size),
        FileNode::Symlink { .. } => ('s', 0),
    }
}

/// The attribute that is shown for a package: the attribute path, a dot
/// and the output, in brackets when the package is only depended on.
pub open spec fn attr_for(attr: Seq<char>, output: Seq<char>, toplevel: bool) -> Seq<char> {
    let plain = attr + seq!['.'] + output;
    if toplevel {
        plain
    } else {
        seq!['('] + plain + seq![')']
    }
}

/// Builds the attribute that is shown for a package.
pub fn attr_label(origin: &PathOrigin) -> (label: String)
    ensures
        label@ == attr_for(origin.attr@, origin.output@, origin.toplevel),
{
    proof {
        reveal_strlit("(");
        reveal_strlit(")");
        reveal_strlit(".");
        reveal_strlit("");
    }
    let mut label = String::from_str(
        if origin.toplevel {
            ""
        } else {
            "("
        },
    );
    label.append(origin.attr.as_str());
    label.append(".");
    label.append(origin.output.as_str());
    if !origin.toplevel {
        label.append(")");
    }
    assert(label@ =~= attr_for(origin.attr@, origin.output@, origin.toplevel));
    label
}

/// Compiles a pattern of the search. Fails with the pattern exactly when
/// it is no regular expression.
pub fn compile(pattern: &str) -> (r: Result<PathPattern, Error>)
    ensures
        match r {
            Ok(compiled) => compiles(pattern@) && compiled@ == pattern@,
            Err(Error::Grep(text)) => !compiles(pattern@) && text@ == pattern@,
            Err(_) => false,
        },
{
    match PathPattern::new(pattern) {
        Some(compiled) => Ok(compiled),
        None => Err(Error::Grep(String::from_str(pattern))),
    }
}

/// The patterns of a search, compiled: the pattern for paths and, where
/// one is given, the pattern for the name of the package. Fails with the
/// first of the two that is no regular expression.
pub fn patterns(args: &Args) -> (r: Result<(PathPattern, Option<PathPattern>), Error>)
    ensures
        match r {
            Ok((pattern, package_pattern)) => {
                &&& compiles(args.pattern@)
                &&& pattern@ == args.pattern@
                &&& match args.package_pattern {
                    Some(text) => compiles(text@) && package_pattern is Some
                        && package_pattern->0@ == text@,
                    None => package_pattern is None,
                }
            },
            Err(Error::Grep(text)) => if compiles(args.pattern@) {
                args.package_pattern is Some && !compiles(args.package_pattern->0@) && text@
                    == args.package_pattern->0@
            } else {
                text@ == args.pattern@
            },
            Err(_) => false,
        },
{
    let pattern = match compile(args.pattern.as_str()) {
        Ok(pattern) => pattern,
        Err(e) => {
            return Err(e);
        },
    };
    let package_pattern = match &args.package_pattern {
        Some(text) => match compile(text.as_str()) {
            Ok(compiled) => Some(compiled),
            Err(e) => {
                return Err(e);
            },
        },
        None => None,
    };
    Ok((pattern, package_pattern))
}

/// Calls `Clone::clone` on a path of `std`.
#[verifier::external_body]
fn clone_path(path: &PathBuf) -> (r: PathBuf)
    ensures
        r == *path,
{
    path.clone()
}

/// What the search tool makes of what the search gives: a match stays a
/// match, and any error of the database becomes the error that names the
/// file of the database.
pub fn item(
    hit: Result<(StorePath, FileTreeEntry), crate::database::DatabaseError>,
    index_file: &PathBuf,
) -> (r: Result<(StorePath, FileTreeEntry), Error>)
    ensures
        match hit {
            Ok(found) => r == Ok::<(StorePath, FileTreeEntry), Error>(found),
            Err(_) => r == Err::<(StorePath, FileTreeEntry), Error>(
                Error::ReadDatabase(*index_file),
            ),
        },
{
    match hit {
        Ok(found) => Ok(found),
        Err(_) => Err(Error::ReadDatabase(clone_path(index_file))),
    }
}

/// The texts of a list of strings.
pub open spec fn texts(list: Seq<String>) -> Seq<Seq<char>> {
    Seq::new(list.len(), |i: int| list[i]@)
}

/// Tells whether an attribute is seen for the first time, and remembers
/// it if so, so that each attribute is shown once.
pub fn first_time(seen: &mut Vec<String>, attr: &str) -> (first: bool)
    ensures
        first == !texts(old(seen)@).contains(attr@),
        first ==> texts(final(seen)@) == texts(old(seen)@).push(attr@),
        !first ==> final(seen)@ == old(seen)@,
{
    let wanted = String::from_str(attr);
    let mut i: usize = 0;
    while i < seen.len()
        invariant
            i <= seen@.len(),
            seen@ == old(seen)@,
            wanted@ == attr@,
            forall|j: int| 0 <= j < i ==> texts(seen@)[j] != attr@,
        decreases seen.len() - i,
    {
        if seen[i] == wanted {
            assert(texts(seen@)[i as int] == attr@);
            return false;
        }
        i += 1;
    }
    seen.push(wanted);
    assert(texts(seen@) =~= texts(old(seen)@).push(attr@));
    true
}

/// Begins the search of a database whose stream the caller reads chunk by
/// chunk, given the bytes with which its file begins: checks the header
/// and runs the query for `pattern` with the bounds on the package. The
/// matches are then had from [`ReaderIter::step`]. Where the header is not
/// that of a database the error names `index_file`; where the query
/// cannot be run it names the pattern.
pub fn begin<'a, 'b>(
    header: &[u8],
    index_file: PathBuf,
    pattern: &'a PathPattern,
    package_pattern: Option<&'b PathPattern>,
    hash: Option<String>,
) -> (r: Result<ReaderIter<'a, 'b>, Error>)
    ensures
        r is Ok <==> crate::database::header_fault(header@) is None
            && match crate::pattern::scan_pattern(pattern@) {
            Some(scan) => grep_builds(scan),
            None => false,
        },
        match r {
            Ok(iter) => {
                &&& iter.stream() == Seq::<u8>::empty()
                &&& iter.position() == 0
                &&& iter.query().exact == pattern@
                &&& iter.query().name == pattern_text(package_pattern)
                &&& iter.query().hash == text_of(hash)
                &&& crate::pattern::scan_pattern(pattern@) == Some(iter.query().scan)
                &&& iter.found() == Seq::<
                    (crate::package::StorePathView, crate::files::FileTreeEntryView),
                >::empty()
                &&& iter.orphans() == Seq::<crate::files::FileTreeEntryView>::empty()
                &&& !iter.failed()
            },
            Err(Error::ReadDatabase(path)) => crate::database::header_fault(header@) is Some
                && path == index_file,
            Err(Error::Grep(text)) => crate::database::header_fault(header@) is None && text@
                == pattern@,
        },
{
    match crate::database::check_header(header) {
        Ok(()) => {},
        Err(_) => {
            return Err(Error::ReadDatabase(index_file));
        },
    }
    let reader = Reader::from_stream(Vec::new());
    match reader.query(pattern).package_pattern(package_pattern).hash(hash).run() {
        Ok(iter) => Ok(iter),
        Err(_) => Err(Error::Grep(String::from_str(pattern.source()))),
    }
}

/// Begins the search of a database, given the bytes of its file: opens
/// it and runs the query for `pattern` with the bounds on the package.
/// Where the file is no database the error names `index_file`; where the
/// query cannot be run it names the pattern.
pub fn locate<'a, 'b>(
    file: &[u8],
    index_file: PathBuf,
    pattern: &'a PathPattern,
    package_pattern: Option<&'b PathPattern>,
    hash: Option<String>,
) -> (r: Result<ReaderIter<'a, 'b>, Error>)
    ensures
        r is Ok <==> crate::database::opened(file@) is Ok && match crate::pattern::scan_pattern(
            pattern@,
        ) {
            Some(scan) => grep_builds(scan),
            None => false,
        },
        match r {
            Ok(iter) => {
                &&& crate::database::opened(file@) == Ok::<
                    Seq<u8>,
                    crate::database::DatabaseErrorView,
                >(iter.stream())
                &&& iter.position() == 0
                &&& iter.query().exact == pattern@
                &&& iter.query().name == pattern_text(package_pattern)
                &&& iter.query().hash == text_of(hash)
                &&& crate::pattern::scan_pattern(pattern@) == Some(iter.query().scan)
                &&& iter.found() == Seq::<
                    (crate::package::StorePathView, crate::files::FileTreeEntryView),
                >::empty()
                &&& iter.orphans() == Seq::<crate::files::FileTreeEntryView>::empty()
                &&& !iter.failed()
            },
            Err(Error::ReadDatabase(path)) => crate::database::opened(file@) is Err && path
                == index_file,
            Err(Error::Grep(text)) => crate::database::opened(file@) is Ok && text@ == pattern@,
        },
{
    let reader = match Reader::open(file) {
        Ok(reader) => reader,
        Err(_) => {
            return Err(Error::ReadDatabase(index_file));
        },
    };
    match reader.query(pattern).package_pattern(package_pattern).hash(hash).run() {
        Ok(iter) => Ok(iter),
        Err(_) => Err(Error::Grep(String::from_str(pattern.source()))),
    }
}

} // verus!
