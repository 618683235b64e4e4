//! The files of a package, and the record that stands for each.
//!
//! A file record is the tag `f`, a zero byte, the metadata, a zero byte
//! and the path. The metadata ends with the kind of the file: `r` for a
//! regular file, `x` for an executable one, `d` for a directory and `s`
//! for a symlink. Before the kind stands the size in decimal digits, or,
//! for a symlink, its target. The path and the target are stored escaped,
//! so that a record holds no line feed.

use crate::decimal::{
    decimal, lemma_decimal_round_trip, lemma_parse_decimal_inverts, parse, parse_decimal,
    push_decimal,
};
use crate::escape::{
    escaped, is_nul_free, lemma_escaped_is_free, lemma_unescape_inverts, nul_free, push_escaped,
    unescape, unescaped,
};
use crate::frcode::{
    common_from, lemma_common_from_agrees, lemma_common_from_bounds, terminator_free, TERMINATOR,
};
use vstd::prelude::*;
use vstd::slice::{slice_subrange, slice_to_vec};

verus! {

/// The tag of a file record.
pub const FILE_TAG: u8 = 0x66;

/// The tag of a package record.
pub const PACKAGE_TAG: u8 = 0x70;

/// The byte that separates the parts of a record.
pub const NUL: u8 = 0;

/// The kind of a regular file that is not executable.
pub const REGULAR: u8 = 0x72;

/// The kind of an executable regular file.
pub const EXECUTABLE: u8 = 0x78;

/// The kind of a symlink.
pub const SYMLINK: u8 = 0x73;

/// The kind of a directory.
pub const DIRECTORY: u8 = 0x64;

/// The kind of a file, without its size or target.
#[derive(Clone, Copy, Debug, PartialEq, Eq, Structural)]
pub enum FileType {
    Regular { executable: bool },
    Symlink,
    Directory,
}

/// Every kind of file.
pub fn all_file_types() -> (types: Vec<FileType>)
    ensures
        types@ == seq![
            FileType::Regular { executable: false },
            FileType::Regular { executable: true },
            FileType::Symlink,
            FileType::Directory,
        ],
{
    let mut types: Vec<FileType> = Vec::new();
    types.push(FileType::Regular { executable: false });
    types.push(FileType::Regular { executable: true });
    types.push(FileType::Symlink);
    types.push(FileType::Directory);
    types
}

/// What is known of one file besides its path.
#[derive(Debug, PartialEq, Eq)]
pub enum FileNode {
    /// A regular file.
    Regular { size: u64, executable: bool },
    /// A symbolic link to `target`.
    Symlink { target: Vec<u8> },
    /// A directory; `size` is that of all it holds.
    Directory { size: u64 },
}

/// A file node as a mathematical value.
pub enum FileNodeView {
    Regular { size: u64, executable: bool },
    Symlink { target: Seq<u8> },
    Directory { size: u64 },
}

impl View for FileNode {
    type V = FileNodeView;

    open spec fn view(&self) -> FileNodeView {
        match *self {
            FileNode::Regular { size, executable } => FileNodeView::Regular { size, executable },
            FileNode::Symlink { target } => FileNodeView::Symlink { target: target@ },
            FileNode::Directory { size } => FileNodeView::Directory { size },
        }
    }
}

/// One file of a package: its path and its node.
#[derive(Debug, PartialEq, Eq)]
pub struct FileTreeEntry {
    pub path: Vec<u8>,
    pub node: FileNode,
}

/// A file entry as a mathematical value.
pub struct FileTreeEntryView {
    pub path: Seq<u8>,
    pub node: FileNodeView,
}

impl View for FileTreeEntry {
    type V = FileTreeEntryView;

    open spec fn view(&self) -> FileTreeEntryView {
        FileTreeEntryView { path: self.path@, node: self.node@ }
    }
}

impl Clone for FileNode {
    fn clone(&self) -> (r: FileNode)
        ensures
            r@ == self@,
    {
        match self {
            FileNode::Regular { size, executable } => FileNode::Regular {
                size: *size,
                executable: *executable,
            },
            FileNode::Symlink { target } => FileNode::Symlink {
                target: slice_to_vec(target.as_slice()),
            },
            FileNode::Directory { size } => FileNode::Directory { size: *size },
        }
    }
}

impl Clone for FileTreeEntry {
    fn clone(&self) -> (r: FileTreeEntry)
        ensures
            r@ == self@,
    {
        FileTreeEntry { path: slice_to_vec(self.path.as_slice()), node: self.node.clone() }
    }
}

/// The kind of a node.
pub open spec fn node_type(node: FileNodeView) -> FileType {
    match node {
        FileNodeView::Regular { size, executable } => FileType::Regular { executable },
        FileNodeView::Symlink { target } => FileType::Symlink,
        FileNodeView::Directory { size } => FileType::Directory,
    }
}

/// Whether `s` holds neither a zero byte nor a record terminator.
pub open spec fn plain(s: Seq<u8>) -> bool {
    forall|i: int| 0 <= i < s.len() ==> s[i] != NUL && s[i] != TERMINATOR
}

/// Whether an entry can be stored: its path, and its target if it is a
/// symlink, hold no zero byte.
pub open spec fn valid_entry(entry: FileTreeEntryView) -> bool {
    &&& nul_free(entry.path)
    &&& match entry.node {
        FileNodeView::Symlink { target } => nul_free(target),
        _ => true,
    }
}

/// The metadata that stands for `node`.
pub open spec fn encode_node(node: FileNodeView) -> Seq<u8> {
    match node {
        FileNodeView::Regular { size, executable } => decimal(size as nat).push(
            if executable {
                EXECUTABLE
            } else {
                REGULAR
            },
        ),
        FileNodeView::Symlink { target } => escaped(target).push(SYMLINK),
        FileNodeView::Directory { size } => decimal(size as nat).push(DIRECTORY),
    }
}

/// The record that stands for `entry`.
pub open spec fn encode_entry(entry: FileTreeEntryView) -> Seq<u8> {
    seq![FILE_TAG, NUL] + encode_node(entry.node) + seq![NUL] + escaped(entry.path)
}

/// The index of the first zero byte of `s` at or after `from`, or the
/// length of `s` when there is none.
pub open spec fn first_nul(s: Seq<u8>, from: int) -> int
    decreases s.len() - from,
{
    if from < 0 || from >= s.len() {
        s.len() as int
    } else if s[from] == NUL {
        from
    } else {
        first_nul(s, from + 1)
    }
}

/// The node that a kind and the metadata before it stand for.
pub open spec fn decode_node(kind: u8, payload: Seq<u8>) -> Option<FileNodeView> {
    if kind == REGULAR || kind == EXECUTABLE {
        match parse_decimal(payload) {
            Some(size) => Some(FileNodeView::Regular { size, executable: kind == EXECUTABLE }),
            None => None,
        }
    } else if kind == SYMLINK {
        match unescaped(payload) {
            Some(target) => Some(FileNodeView::Symlink { target }),
            None => None,
        }
    } else if kind == DIRECTORY {
        match parse_decimal(payload) {
            Some(size) => Some(FileNodeView::Directory { size }),
            None => None,
        }
    } else {
        None
    }
}

/// The entry that `record` stands for, if it is a file record.
pub open spec fn decode_entry(record: Seq<u8>) -> Option<FileTreeEntryView> {
    if record.len() < 2 || record[0] != FILE_TAG || record[1] != NUL {
        None
    } else {
        let sep = first_nul(record, 2);
        if sep >= record.len() || sep == 2 {
            None
        } else {
            match (
                decode_node(record[sep - 1], record.subrange(2, sep - 1)),
                unescaped(record.subrange(sep + 1, record.len() as int)),
            ) {
                (Some(node), Some(path)) => Some(FileTreeEntryView { path, node }),
                _ => None,
            }
        }
    }
}

/// The first zero byte is found where the bytes before it are not zero.
proof fn lemma_first_nul(s: Seq<u8>, from: int, at: int)
    requires
        0 <= from <= at < s.len(),
        s[at] == NUL,
        forall|j: int| from <= j < at ==> s[j] != NUL,
    ensures
        first_nul(s, from) == at,
    decreases at - from,
{
    if from < at {
        lemma_first_nul(s, from + 1, at);
    }
}

/// The record of an entry that can be stored stands for that entry,
/// holds no record terminator, and is no package record.
pub proof fn lemma_decode_inverts_encode(entry: FileTreeEntryView)
    requires
        valid_entry(entry),
    ensures
        decode_entry(encode_entry(entry)) == Some(entry),
        terminator_free(encode_entry(entry)),
        !is_package_record(encode_entry(entry)),
{
    let meta = encode_node(entry.node);
    let record = encode_entry(entry);
    let path = escaped(entry.path);
    let payload = meta.drop_last();
    let kind = meta.last();
    lemma_escaped_is_free(entry.path);
    lemma_unescape_inverts(entry.path);
    assert(plain(payload) && decode_node(kind, payload) == Some(entry.node)) by {
        match entry.node {
            FileNodeView::Symlink { target } => {
                assert(payload =~= escaped(target));
                lemma_escaped_is_free(target);
                lemma_unescape_inverts(target);
            },
            FileNodeView::Regular { size, executable } => {
                lemma_decimal_round_trip(size as nat);
                lemma_parse_decimal_inverts(size);
                assert(payload =~= decimal(size as nat));
                assert forall|i: int| 0 <= i < payload.len() implies payload[i] != NUL
                    && payload[i] != TERMINATOR by {
                    assert(crate::decimal::is_digit(payload[i]));
                }
            },
            FileNodeView::Directory { size } => {
                lemma_decimal_round_trip(size as nat);
                lemma_parse_decimal_inverts(size);
                assert(payload =~= decimal(size as nat));
                assert forall|i: int| 0 <= i < payload.len() implies payload[i] != NUL
                    && payload[i] != TERMINATOR by {
                    assert(crate::decimal::is_digit(payload[i]));
                }
            },
        }
    }
    let sep = (2 + meta.len()) as int;
    assert forall|j: int| 2 <= j < sep implies record[j] != NUL by {
        assert(record[j] == meta[j - 2]);
        if j - 2 < payload.len() {
            assert(meta[j - 2] == payload[j - 2]);
        }
    }
    lemma_first_nul(record, 2, sep);
    assert(record.subrange(2, sep - 1) =~= payload);
    assert(record[sep - 1] == kind);
    assert(record.subrange(sep + 1, record.len() as int) =~= path);
    assert forall|i: int| 0 <= i < record.len() implies record[i] != TERMINATOR by {
        if 2 <= i < sep {
            assert(record[i] == meta[i - 2]);
            if i - 2 < payload.len() {
                assert(meta[i - 2] == payload[i - 2]);
            }
        } else if i > sep {
            assert(record[i] == path[i - sep - 1]);
        }
    }
}

/// Tests whether `s` holds neither a zero byte nor a record terminator.
pub fn is_plain(s: &[u8]) -> (ok: bool)
    ensures
        ok == plain(s@),
{
    let mut i: usize = 0;
    while i < s.len()
        invariant
            i <= s@.len(),
            forall|j: int| 0 <= j < i ==> s@[j] != NUL && s@[j] != TERMINATOR,
        decreases s.len() - i,
    {
        if s[i] == NUL || s[i] == TERMINATOR {
            return false;
        }
        i += 1;
    }
    true
}

/// Appends the bytes of `s` to `out`.
pub fn push_bytes(out: &mut Vec<u8>, s: &[u8])
    ensures
        final(out)@ == old(out)@ + s@,
{
    let mut i: usize = 0;
    while i < s.len()
        invariant
            i <= s@.len(),
            out@ == old(out)@ + s@.subrange(0, i as int),
        decreases s.len() - i,
    {
        out.push(s[i]);
        assert(s@.subrange(0, i as int).push(s@[i as int]) =~= s@.subrange(0, i + 1));
        i += 1;
    }
    assert(s@.subrange(0, i as int) =~= s@);
}

impl FileNode {
    /// The kind of this node.
    pub fn get_type(&self) -> (t: FileType)
        ensures
            t == node_type(self@),
    {
        match self {
            FileNode::Regular { executable, .. } => FileType::Regular { executable: *executable },
            FileNode::Symlink { .. } => FileType::Symlink,
            FileNode::Directory { .. } => FileType::Directory,
        }
    }
}

impl FileTreeEntry {
    /// Tests whether this entry can be stored.
    pub fn is_valid(&self) -> (ok: bool)
        ensures
            ok == valid_entry(self@),
    {
        if !is_nul_free(self.path.as_slice()) {
            return false;
        }
        match &self.node {
            FileNode::Symlink { target } => is_nul_free(target.as_slice()),
            _ => true,
        }
    }

    /// Builds the record that stands for this entry.
    pub fn encode(&self) -> (record: Vec<u8>)
        ensures
            record@ == encode_entry(self@),
    {
        let mut record: Vec<u8> = Vec::new();
        record.push(FILE_TAG);
        record.push(NUL);
        match &self.node {
            FileNode::Regular { size, executable } => {
                push_decimal(&mut record, *size);
                record.push(
                    if *executable {
                        EXECUTABLE
                    } else {
                        REGULAR
                    },
                );
            },
            FileNode::Symlink { target } => {
                push_escaped(&mut record, target.as_slice());
                record.push(SYMLINK);
            },
            FileNode::Directory { size } => {
                push_decimal(&mut record, *size);
                record.push(DIRECTORY);
            },
        }
        record.push(NUL);
        push_escaped(&mut record, self.path.as_slice());
        assert(record@ =~= encode_entry(self@));
        record
    }

    /// Reads an entry from its record. Gives `None` when `buf` is not the
    /// record of a file: it lacks the tag or a separator, names no known
    /// kind, its size is not a decimal number of 64 bits, or an escape
    /// byte in its path or target begins no escape.
    pub fn decode(buf: &[u8]) -> (r: Option<FileTreeEntry>)
        ensures
            match decode_entry(buf@) {
                Some(entry) => r is Some && r->0@ == entry,
                None => r is None,
            },
    {
        let n = buf.len();
        if n < 2 || buf[0] != FILE_TAG || buf[1] != NUL {
            return None;
        }
        let mut sep: usize = 2;
        while sep < n && buf[sep] != NUL
            invariant
                n == buf@.len(),
                2 <= sep <= n,
                first_nul(buf@, sep as int) == first_nul(buf@, 2),
            decreases n - sep,
        {
            sep += 1;
        }
        if sep >= n || sep == 2 {
            return None;
        }
        let kind = buf[sep - 1];
        let payload = slice_subrange(buf, 2, sep - 1);
        let node = if kind == REGULAR || kind == EXECUTABLE {
            match parse(payload) {
                Some(size) => FileNode::Regular { size, executable: kind == EXECUTABLE },
                None => {
                    return None;
                },
            }
        } else if kind == SYMLINK {
            match unescape(payload) {
                Some(target) => FileNode::Symlink { target },
                None => {
                    return None;
                },
            }
        } else if kind == DIRECTORY {
            match parse(payload) {
                Some(size) => FileNode::Directory { size },
                None => {
                    return None;
                },
            }
        } else {
            return None;
        };
        match unescape(slice_subrange(buf, sep + 1, n)) {
            Some(path) => Some(FileTreeEntry { path, node }),
            None => None,
        }
    }
}

/// The views of a list of entries.
pub open spec fn entry_views(entries: Seq<FileTreeEntry>) -> Seq<FileTreeEntryView> {
    Seq::new(entries.len(), |i: int| entries[i]@)
}

/// Whether every entry of a list can be stored.
pub open spec fn valid_entries(entries: Seq<FileTreeEntryView>) -> bool {
    forall|i: int| 0 <= i < entries.len() ==> valid_entry(#[trigger] entries[i])
}

/// The records that stand for a list of entries, in its order.
pub open spec fn entry_records(entries: Seq<FileTreeEntryView>) -> Seq<Seq<u8>> {
    Seq::new(entries.len(), |i: int| encode_entry(entries[i]))
}

/// The record that stands for a package whose store path has the JSON
/// text `json`: the tag `p`, a zero byte and the text.
pub open spec fn package_record(json: Seq<u8>) -> Seq<u8> {
    seq![PACKAGE_TAG, NUL] + json
}

/// Whether `record` is a package record.
pub open spec fn is_package_record(record: Seq<u8>) -> bool {
    record.len() >= 2 && record[0] == PACKAGE_TAG && record[1] == NUL
}

/// Whether `a` comes before `b`, or equals it, in the order of paths:
/// byte by byte, and a path before every path that it begins.
pub open spec fn path_le(a: Seq<u8>, b: Seq<u8>) -> bool {
    let n = common_from(a, b, 0);
    n == a.len() || (n < b.len() && a[n] < b[n])
}

/// Whether the entries are ordered by path.
pub open spec fn sorted_by_path(entries: Seq<FileTreeEntryView>) -> bool {
    forall|i: int, j: int|
        0 <= i < j < entries.len() ==> path_le(
            (#[trigger] entries[i]).path,
            (#[trigger] entries[j]).path,
        )
}

/// The index at which an entry with the path `path` is put: behind the
/// entries from `from` on that do not come after it.
pub open spec fn position_for(entries: Seq<FileTreeEntryView>, path: Seq<u8>, from: int) -> int
    decreases entries.len() - from,
{
    if 0 <= from < entries.len() && path_le(entries[from].path, path) {
        position_for(entries, path, from + 1)
    } else {
        from
    }
}

/// Where two sequences agree up to `n` and differ or end there, `n` is
/// the index that the comparison from `i` arrives at.
proof fn lemma_common_from_is(a: Seq<u8>, b: Seq<u8>, i: int, n: int)
    requires
        0 <= i <= n <= a.len(),
        n <= b.len(),
        forall|k: int| i <= k < n ==> a[k] == b[k],
        n == a.len() || n == b.len() || a[n] != b[n],
    ensures
        common_from(a, b, i) == n,
    decreases n - i,
{
    if i < n {
        lemma_common_from_is(a, b, i + 1, n);
    }
}

/// The comparison stops where one sequence ends or the two differ.
proof fn lemma_common_from_stops(a: Seq<u8>, b: Seq<u8>, i: int)
    requires
        0 <= i <= a.len(),
        i <= b.len(),
    ensures
        ({
            let n = common_from(a, b, i);
            n == a.len() || n == b.len() || a[n] != b[n]
        }),
    decreases a.len() - i,
{
    if i < a.len() && i < b.len() && a[i] == b[i] {
        lemma_common_from_stops(a, b, i + 1);
    }
}

/// All that is known of where two sequences first differ.
proof fn lemma_first_difference(a: Seq<u8>, b: Seq<u8>)
    ensures
        ({
            let n = common_from(a, b, 0);
            &&& 0 <= n <= a.len()
            &&& n <= b.len()
            &&& forall|k: int| 0 <= k < n ==> a[k] == b[k]
            &&& n == a.len() || n == b.len() || a[n] != b[n]
        }),
{
    lemma_common_from_bounds(a, b, 0);
    lemma_common_from_agrees(a, b, 0);
    lemma_common_from_stops(a, b, 0);
}

/// Of two paths one comes before the other, or they are equal.
pub proof fn lemma_path_le_total(a: Seq<u8>, b: Seq<u8>)
    ensures
        path_le(a, b) || path_le(b, a),
{
    lemma_first_difference(a, b);
    let n = common_from(a, b, 0);
    assert forall|k: int| 0 <= k < n implies b[k] == a[k] by {}
    lemma_common_from_is(b, a, 0, n);
}

/// The order of paths is transitive.
pub proof fn lemma_path_le_transitive(a: Seq<u8>, b: Seq<u8>, c: Seq<u8>)
    requires
        path_le(a, b),
        path_le(b, c),
    ensures
        path_le(a, c),
{
    lemma_first_difference(a, b);
    lemma_first_difference(b, c);
    let p = common_from(a, b, 0);
    let q = common_from(b, c, 0);
    let r = if q < p {
        q
    } else {
        p
    };
    assert forall|k: int| 0 <= k < r implies a[k] == c[k] by {
        assert(a[k] == b[k]);
        assert(b[k] == c[k]);
    }
    if q < p {
        assert(a[q] == b[q]);
    }
    lemma_common_from_is(a, c, 0, r);
}

/// The index at which an entry is put lies within the list or at its end.
pub proof fn lemma_position_in_range(entries: Seq<FileTreeEntryView>, path: Seq<u8>, from: int)
    requires
        0 <= from <= entries.len(),
    ensures
        from <= position_for(entries, path, from) <= entries.len(),
    decreases entries.len() - from,
{
    if from < entries.len() && path_le(entries[from].path, path) {
        lemma_position_in_range(entries, path, from + 1);
    }
}

/// The files of one package, ordered by path.
pub struct FileTree {
    entries: Vec<FileTreeEntry>,
}

/// Tests whether `a` comes before `b`, or equals it, in the order of paths.
pub fn path_before(a: &[u8], b: &[u8]) -> (le: bool)
    ensures
        le == path_le(a@, b@),
{
    let mut i: usize = 0;
    while i < a.len() && i < b.len() && a[i] == b[i]
        invariant
            i <= a@.len(),
            i <= b@.len(),
            common_from(a@, b@, i as int) == common_from(a@, b@, 0),
        decreases a.len() - i,
    {
        i += 1;
    }
    i == a.len() || (i < b.len() && a[i] < b[i])
}

impl FileTree {
    #[verifier::type_invariant]
    spec fn ordered_and_valid(self) -> bool {
        sorted_by_path(entry_views(self.entries@)) && valid_entries(entry_views(self.entries@))
    }

    /// The entries of the tree, ordered by path.
    pub closed spec fn entries(&self) -> Seq<FileTreeEntryView> {
        entry_views(self.entries@)
    }

    /// A tree without files.
    pub fn new() -> (tree: FileTree)
        ensures
            tree.entries() == Seq::<FileTreeEntryView>::empty(),
    {
        let tree = FileTree { entries: Vec::new() };
        assert(tree.entries() =~= Seq::<FileTreeEntryView>::empty());
        tree
    }

    /// Adds a file, if it can be stored, and says whether it did. The file
    /// is put behind the files that do not come after it in the order of
    /// paths, so the tree stays ordered.
    pub fn insert(&mut self, entry: FileTreeEntry) -> (added: bool)
        ensures
            added == valid_entry(entry@),
            added ==> final(self).entries() == old(self).entries().insert(
                position_for(old(self).entries(), entry@.path, 0),
                entry@,
            ),
            !added ==> final(self).entries() == old(self).entries(),
            0 <= position_for(old(self).entries(), entry@.path, 0) <= old(self).entries().len(),
    {
        proof {
            use_type_invariant(&*self);
            lemma_position_in_range(self.entries(), entry@.path, 0);
        }
        if !entry.is_valid() {
            return false;
        }
        let ghost before = self.entries();
        let ghost path = entry@.path;
        let ghost added = entry@;
        let mut k: usize = 0;
        while k < self.entries.len() && path_before(
            self.entries[k].path.as_slice(),
            entry.path.as_slice(),
        )
            invariant
                k <= self.entries@.len(),
                self.entries() == before,
                entry@ == added,
                added.path == path,
                position_for(before, path, k as int) == position_for(before, path, 0),
                forall|i: int| 0 <= i < k ==> path_le((#[trigger] before[i]).path, path),
                sorted_by_path(before),
                valid_entries(before),
            decreases self.entries.len() - k,
        {
            k += 1;
        }
        let ghost after = before.insert(k as int, added);
        proof {
            assert forall|i: int, j: int| 0 <= i < j < after.len() implies path_le(
                (#[trigger] after[i]).path,
                (#[trigger] after[j]).path,
            ) by {
                if j == k {
                    assert(after[i] == before[i]);
                } else if i == k {
                    assert(after[j] == before[j - 1]);
                    lemma_path_le_total(before[k as int].path, path);
                    if j - 1 > k {
                        lemma_path_le_transitive(path, before[k as int].path, before[j - 1].path);
                    }
                } else {
                    let bi = if i < k {
                        i
                    } else {
                        i - 1
                    };
                    let bj = if j < k {
                        j
                    } else {
                        j - 1
                    };
                    assert(after[i] == before[bi]);
                    assert(after[j] == before[bj]);
                }
            }
            assert forall|i: int| 0 <= i < after.len() implies valid_entry(#[trigger] after[i]) by {
                if i < k {
                    assert(after[i] == before[i]);
                } else if i > k {
                    assert(after[i] == before[i - 1]);
                }
            }
        }
        let mut entries: Vec<FileTreeEntry> = Vec::new();
        assert(entry_views(entries@) =~= Seq::<FileTreeEntryView>::empty());
        std::mem::swap(&mut self.entries, &mut entries);
        entries.insert(k, entry);
        assert(entry_views(entries@) =~= after);
        self.entries = entries;
        true
    }

    /// The entries of the tree as a list, ordered by path; each of them
    /// can be stored.
    pub fn to_list(self) -> (list: Vec<FileTreeEntry>)
        ensures
            entry_views(list@) == self.entries(),
            sorted_by_path(entry_views(list@)),
            valid_entries(entry_views(list@)),
    {
        proof {
            use_type_invariant(&self);
        }
        self.entries
    }
}

} // verus!
