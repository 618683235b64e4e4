//! The database of files: a header, then a compressed stream of
//! front-coded records.
//!
//! The records of a package are its files, ordered by path, and then the
//! package itself, which begins a block of its own. A file so belongs to
//! the first package record that follows it.

use crate::files::{
    entry_records, entry_views, package_record, valid_entries, FileTree, NUL, PACKAGE_TAG,
};
use crate::frcode::{
    decode_stream, encode_stream, join_records, lemma_decode_inverts_encode,
    lemma_record_in_buffer, lemma_records_end, lemma_suffix_len, lemma_with_records_flatten,
    next_buffer, start_of, suffix_len, valid_blocks, valid_records, with_records, Decoder,
    Encoder, TERMINATOR,
};
use crate::block::{complete, readable};
use crate::decimal::decimal;
use crate::files::is_package_record;
use crate::package::{parsed_store_path, store_path_json, StorePath, StorePathView};
pub use crate::query::{Query, ReaderIter};
use byteorder::{ByteOrder, LittleEndian};
use vstd::bytes::{
    lemma_auto_spec_u64_to_from_le_bytes, spec_u64_from_le_bytes, spec_u64_to_le_bytes,
};
use vstd::prelude::*;
use vstd::slice::{slice_subrange, slice_to_vec};
use vstd::string::StringExecFns;

verus! {

/// The version of the format that this library reads and writes.
pub const FORMAT_VERSION: u64 = 1;

/// The four bytes with which every database begins: `NIXI`.
pub open spec fn file_magic() -> Seq<u8> {
    seq![0x4Eu8, 0x49u8, 0x58u8, 0x49u8]
}

/// The error of `std::io`.
#[verifier::external_type_specification]
#[verifier::external_body]
pub struct ExIoError(std::io::Error);

/// What can go wrong with a database.
#[derive(Debug)]
pub enum DatabaseError {
    /// The file does not begin with the magic; holds what it begins with.
    UnsupportedFileType(Vec<u8>),
    /// The file has another version of the format; holds that version.
    UnsupportedVersion(u64),
    /// The stream ends after a file that no package record follows.
    MissingPackageEntry,
    /// The stream is not front-coded as it should be.
    Frcode(crate::frcode::Error),
    /// A record that matched is not the record of a file; holds the record.
    EntryParse(Vec<u8>),
    /// A package record holds no store path; holds its JSON text.
    StorePathParse(Vec<u8>),
    /// The file ended early, or could not be compressed or decompressed.
    IO(std::io::Error),
    /// The pattern could not be compiled; holds the message.
    Grep(String),
}

/// A database error as a mathematical value.
pub enum DatabaseErrorView {
    UnsupportedFileType(Seq<u8>),
    UnsupportedVersion(u64),
    MissingPackageEntry,
    Frcode(crate::frcode::Error),
    EntryParse(Seq<u8>),
    StorePathParse(Seq<u8>),
    IO,
    Grep,
}

impl View for DatabaseError {
    type V = DatabaseErrorView;

    open spec fn view(&self) -> DatabaseErrorView {
        match *self {
            DatabaseError::UnsupportedFileType(found) => DatabaseErrorView::UnsupportedFileType(
                found@,
            ),
            DatabaseError::UnsupportedVersion(version) => DatabaseErrorView::UnsupportedVersion(
                version,
            ),
            DatabaseError::MissingPackageEntry => DatabaseErrorView::MissingPackageEntry,
            DatabaseError::Frcode(e) => DatabaseErrorView::Frcode(e),
            DatabaseError::EntryParse(record) => DatabaseErrorView::EntryParse(record@),
            DatabaseError::StorePathParse(json) => DatabaseErrorView::StorePathParse(json@),
            DatabaseError::IO(_) => DatabaseErrorView::IO,
            DatabaseError::Grep(_) => DatabaseErrorView::Grep,
        }
    }
}

impl From<crate::frcode::Error> for DatabaseError {
    fn from(err: crate::frcode::Error) -> (r: DatabaseError) {
        DatabaseError::Frcode(err)
    }
}

impl vstd::std_specs::convert::FromSpecImpl<crate::frcode::Error> for DatabaseError {
    open spec fn obeys_from_spec() -> bool {
        true
    }

    open spec fn from_spec(err: crate::frcode::Error) -> DatabaseError {
        DatabaseError::Frcode(err)
    }
}

impl From<std::io::Error> for DatabaseError {
    fn from(err: std::io::Error) -> (r: DatabaseError) {
        DatabaseError::IO(err)
    }
}

impl vstd::std_specs::convert::FromSpecImpl<std::io::Error> for DatabaseError {
    open spec fn obeys_from_spec() -> bool {
        true
    }

    open spec fn from_spec(err: std::io::Error) -> DatabaseError {
        DatabaseError::IO(err)
    }
}

/// The text that `String::from_utf8_lossy` gives for bytes: they are read
/// as UTF-8, and what is none is replaced.
pub uninterp spec fn lossy_text(bytes: Seq<u8>) -> Seq<char>;

/// The text that the `Debug` of `str` gives for a text: the text between
/// quotes, with escapes.
pub uninterp spec fn quoted_text(text: Seq<char>) -> Seq<char>;

/// The decimal digits of a number as text.
pub open spec fn number_text(n: u64) -> Seq<char> {
    Seq::new(decimal(n as nat).len(), |i: int| decimal(n as nat)[i] as char)
}

/// Calls `String::from_utf8_lossy`.
#[verifier::external_body]
fn lossy(bytes: &[u8]) -> (text: String)
    ensures
        text@ == lossy_text(bytes@),
{
    String::from_utf8_lossy(bytes).into_owned()
}

/// Calls the `Debug` of `str` through `format!`.
#[verifier::external_body]
fn quoted(text: &str) -> (r: String)
    ensures
        r@ == quoted_text(text@),
{
    format!("{:?}", text)
}

/// Calls `to_string` on a number, which gives its decimal digits, the
/// most significant first, without leading zeros.
#[verifier::external_body]
fn number(n: u64) -> (text: String)
    ensures
        text@ == number_text(n),
{
    n.to_string()
}

/// Calls `to_string` on an error of `std::io`, which gives its message.
#[verifier::external_body]
fn io_text(e: &std::io::Error) -> String {
    e.to_string()
}

/// The message of an error, but for the part that an error of `std::io`
/// adds at its end.
pub open spec fn message_of(e: DatabaseErrorView) -> Seq<char> {
    match e {
        DatabaseErrorView::UnsupportedFileType(found) =>
            "expected file to start with nix-index file magic 'NIXI', but found '"@
            + lossy_text(found) + "' (is this a valid nix-index database file?)"@,
        DatabaseErrorView::UnsupportedVersion(version) =>
            "this executable only supports the nix-index database version "@
            + number_text(FORMAT_VERSION) + ", but found a database with version "@
            + number_text(version),
        DatabaseErrorView::MissingPackageEntry =>
            "database corrupt, found a file entry without a matching package entry"@,
        DatabaseErrorView::Frcode(_) => "frcode errror"@,
        DatabaseErrorView::EntryParse(record) => "database corrupt, could not parse entry: "@
            + quoted_text(lossy_text(record)),
        DatabaseErrorView::StorePathParse(json) =>
            "database corrupt, could not parse store path: "@ + quoted_text(lossy_text(json)),
        DatabaseErrorView::IO => "IO Error "@,
        DatabaseErrorView::Grep => "Grep Error"@,
    }
}

impl DatabaseError {
    /// The message of the error. For an error of `std::io` the message of
    /// that error follows the text that is given here.
    pub fn message(&self) -> (text: String)
        ensures
            self@ != DatabaseErrorView::IO ==> text@ == message_of(self@),
            self@ == DatabaseErrorView::IO ==> message_of(self@).is_prefix_of(text@),
    {
        match self {
            DatabaseError::UnsupportedFileType(found) => {
                let mut text = String::from_str(
                    "expected file to start with nix-index file magic 'NIXI', but found '",
                );
                text.append(lossy(found.as_slice()).as_str());
                text.append("' (is this a valid nix-index database file?)");
                text
            },
            DatabaseError::UnsupportedVersion(version) => {
                let mut text = String::from_str(
                    "this executable only supports the nix-index database version ",
                );
                text.append(number(FORMAT_VERSION).as_str());
                text.append(", but found a database with version ");
                text.append(number(*version).as_str());
                text
            },
            DatabaseError::MissingPackageEntry => String::from_str(
                "database corrupt, found a file entry without a matching package entry",
            ),
            DatabaseError::Frcode(_) => String::from_str("frcode errror"),
            DatabaseError::EntryParse(record) => {
                let mut text = String::from_str("database corrupt, could not parse entry: ");
                text.append(quoted(lossy(record.as_slice()).as_str()).as_str());
                text
            },
            DatabaseError::StorePathParse(json) => {
                let mut text = String::from_str("database corrupt, could not parse store path: ");
                text.append(quoted(lossy(json.as_slice()).as_str()).as_str());
                text
            },
            DatabaseError::IO(e) => {
                let mut text = String::from_str("IO Error ");
                let ghost head = text@;
                text.append(io_text(e).as_str());
                assert(head.is_prefix_of(text@)) by {
                    assert(text@.subrange(0, head.len() as int) =~= head);
                }
                text
            },
            DatabaseError::Grep(_) => String::from_str("Grep Error"),
        }
    }
}

/// The bytes that `zstd` decompresses a frame to, if it is one.
pub uninterp spec fn decompressed(frame: Seq<u8>) -> Option<Seq<u8>>;

/// The frame that `zstd` compresses `data` to at `level`, if it accepts
/// the level.
pub uninterp spec fn compressed(data: Seq<u8>, level: i32) -> Option<Seq<u8>>;

/// Calls `zstd::encode_all`. The same data at the same level give the
/// same frame, or are always refused. The frame decompresses to `data`:
/// the compression is lossless.
#[verifier::external_body]
fn compress(data: &[u8], level: i32) -> (r: Result<Vec<u8>, std::io::Error>)
    ensures
        match r {
            Ok(frame) => compressed(data@, level) == Some(frame@) && decompressed(frame@) == Some(
                data@,
            ),
            Err(_) => compressed(data@, level) is None,
        },
{
    zstd::encode_all(data, level)
}

/// Calls `zstd::decode_all`: the bytes that the frame decompresses to, or
/// an error when `frame` is no zstd frame.
#[verifier::external_body]
fn decompress(frame: &[u8]) -> (r: Result<Vec<u8>, std::io::Error>)
    ensures
        match r {
            Ok(data) => decompressed(frame@) == Some(data@),
            Err(_) => decompressed(frame@) is None,
        },
{
    zstd::decode_all(frame)
}

/// Calls `LittleEndian::read_u64` of `byteorder`: the number whose eight
/// bytes, least significant first, begin `buf`.
#[verifier::external_body]
fn read_u64_le(buf: &[u8]) -> (value: u64)
    requires
        buf@.len() >= 8,
    ensures
        value == spec_u64_from_le_bytes(buf@.subrange(0, 8)),
{
    LittleEndian::read_u64(buf)
}

/// Calls `LittleEndian::write_u64` of `byteorder` on a buffer of eight
/// bytes and appends them: the bytes of `value`, least significant first.
#[verifier::external_body]
fn push_u64_le(out: &mut Vec<u8>, value: u64)
    ensures
        final(out)@ == old(out)@ + spec_u64_to_le_bytes(value),
{
    let mut buf = [0u8; 8];
    LittleEndian::write_u64(&mut buf, value);
    out.extend_from_slice(&buf);
}

/// Makes the error of `std::io` for input that ends too early.
#[verifier::external_body]
fn unexpected_end() -> std::io::Error {
    std::io::Error::from(std::io::ErrorKind::UnexpectedEof)
}

/// The bytes of a database file whose compressed stream is `frame`.
pub open spec fn database_file(frame: Seq<u8>) -> Seq<u8> {
    file_magic() + spec_u64_to_le_bytes(FORMAT_VERSION) + frame
}

/// What is wrong with the header of a file, if anything: it ends before
/// the four bytes of the magic or the eight of the version, begins with
/// other bytes than the magic, or has another version.
pub open spec fn header_fault(file: Seq<u8>) -> Option<DatabaseErrorView> {
    if file.len() < 4 {
        Some(DatabaseErrorView::IO)
    } else if file.subrange(0, 4) != file_magic() {
        Some(DatabaseErrorView::UnsupportedFileType(file.subrange(0, 4)))
    } else if file.len() < 12 {
        Some(DatabaseErrorView::IO)
    } else if spec_u64_from_le_bytes(file.subrange(4, 12)) != FORMAT_VERSION {
        Some(DatabaseErrorView::UnsupportedVersion(spec_u64_from_le_bytes(file.subrange(4, 12))))
    } else {
        None
    }
}

/// What opening a file gives: the front-coded stream that it holds, or
/// the reason why it is no database.
pub open spec fn opened(file: Seq<u8>) -> Result<Seq<u8>, DatabaseErrorView> {
    match header_fault(file) {
        Some(e) => Err(e),
        None => match decompressed(file.subrange(12, file.len() as int)) {
            Some(stream) => Ok(stream),
            None => Err(DatabaseErrorView::IO),
        },
    }
}

/// Checks the header with which a file begins: the magic and the version.
/// The compressed stream begins behind its twelve bytes.
pub fn check_header(file: &[u8]) -> (r: Result<(), DatabaseError>)
    ensures
        match header_fault(file@) {
            Some(e) => r is Err && r->Err_0@ == e,
            None => r is Ok && file@.len() >= 12,
        },
{
    if file.len() < 4 {
        return Err(DatabaseError::IO(unexpected_end()));
    }
    let magic = slice_subrange(file, 0, 4);
    if magic[0] != 0x4E || magic[1] != 0x49 || magic[2] != 0x58 || magic[3] != 0x49 {
        assert(magic@ != file_magic());
        return Err(DatabaseError::UnsupportedFileType(slice_to_vec(magic)));
    }
    assert(magic@ =~= file_magic());
    if file.len() < 12 {
        return Err(DatabaseError::IO(unexpected_end()));
    }
    let version = read_u64_le(slice_subrange(file, 4, file.len()));
    assert(file@.subrange(4, file@.len() as int).subrange(0, 8) =~= file@.subrange(4, 12));
    if version != FORMAT_VERSION {
        return Err(DatabaseError::UnsupportedVersion(version));
    }
    Ok(())
}

/// A file that was written around a frame opens to what the frame holds.
pub proof fn lemma_written_file_opens(frame: Seq<u8>, stream: Seq<u8>)
    requires
        decompressed(frame) == Some(stream),
    ensures
        opened(database_file(frame)) == Ok::<Seq<u8>, DatabaseErrorView>(stream),
{
    lemma_auto_spec_u64_to_from_le_bytes();
    let file = database_file(frame);
    let version = spec_u64_to_le_bytes(FORMAT_VERSION);
    assert(version.len() == 8);
    assert(file.subrange(0, 4) =~= file_magic());
    assert(file.subrange(4, 12) =~= version);
    assert(file.subrange(12, file.len() as int) =~= frame);
}

/// What is written is what is read: a file around the compressed stream
/// of blocks, each with at least one record and no terminator in a
/// record, opens to a stream that decodes to those blocks.
pub proof fn lemma_database_round_trip(blocks: Seq<Seq<Seq<u8>>>, frame: Seq<u8>)
    requires
        valid_blocks(blocks),
        decompressed(frame) == Some(encode_stream(blocks)),
    ensures
        opened(database_file(frame)) == Ok::<Seq<u8>, DatabaseErrorView>(encode_stream(blocks)),
        decode_stream(encode_stream(blocks), 0) == Ok::<
            Seq<Seq<Seq<u8>>>,
            crate::frcode::Error,
        >(blocks),
{
    lemma_written_file_opens(frame, encode_stream(blocks));
    lemma_decode_inverts_encode(blocks);
}

/// The records that stand for one package: those of its files, in their
/// order, and then its own.
pub open spec fn package_records(
    package: (StorePathView, Seq<crate::files::FileTreeEntryView>),
) -> Seq<Seq<u8>> {
    entry_records(package.1).push(package_record(store_path_json(package.0)))
}

/// The records that stand for packages, in their order.
pub open spec fn database_records(
    packages: Seq<(StorePathView, Seq<crate::files::FileTreeEntryView>)>,
) -> Seq<Seq<u8>>
    decreases packages.len(),
{
    if packages.len() == 0 {
        Seq::empty()
    } else {
        database_records(packages.drop_last()) + package_records(packages.last())
    }
}

/// Whether a package can be written and read: its files can be stored,
/// and the JSON text of its store path reads back as that store path.
pub open spec fn storable(package: (StorePathView, Seq<crate::files::FileTreeEntryView>)) -> bool {
    &&& valid_entries(package.1)
    &&& parsed_store_path(store_path_json(package.0)) == Some(package.0)
}

/// Whether every package of a list can be written and read.
pub open spec fn all_storable(
    packages: Seq<(StorePathView, Seq<crate::files::FileTreeEntryView>)>,
) -> bool {
    forall|k: int| 0 <= k < packages.len() ==> storable(#[trigger] packages[k])
}

/// The records of packages end with a package record.
pub proof fn lemma_database_records_complete(
    packages: Seq<(StorePathView, Seq<crate::files::FileTreeEntryView>)>,
)
    ensures
        complete(database_records(packages)),
{
    if packages.len() > 0 {
        let last = package_records(packages.last());
        let all = database_records(packages);
        assert(all.last() == last.last());
    }
}

/// Whether `hit` is a file of one of the packages, with the store path of
/// that package.
pub open spec fn was_added(
    packages: Seq<(StorePathView, Seq<crate::files::FileTreeEntryView>)>,
    hit: (StorePathView, crate::files::FileTreeEntryView),
) -> bool {
    exists|k: int, m: int|
        0 <= k < packages.len() && 0 <= m < packages[k].1.len() && #[trigger] packages[k].1[m]
            == hit.1 && packages[k].0 == hit.0
}

/// Writes a database.
pub struct Writer {
    encoder: Encoder,
    level: i32,
    packages: Ghost<Seq<(StorePathView, Seq<crate::files::FileTreeEntryView>)>>,
}

impl Writer {
    /// The blocks of records written so far.
    pub closed spec fn blocks(&self) -> Seq<Seq<Seq<u8>>> {
        self.encoder.blocks()
    }

    /// The records written so far, in their order.
    pub open spec fn records(&self) -> Seq<Seq<u8>> {
        self.blocks().flatten()
    }

    /// The packages added so far, each with its files in the order of its
    /// tree.
    pub closed spec fn packages(&self) -> Seq<
        (StorePathView, Seq<crate::files::FileTreeEntryView>),
    > {
        self.packages@
    }

    /// Whether the next record may join the last block.
    pub closed spec fn is_open(&self) -> bool {
        self.encoder.is_open()
    }

    /// The compression level that the writer was created with.
    pub closed spec fn level(&self) -> i32 {
        self.level
    }

    /// Whether the writer's state is consistent.
    pub closed spec fn wf(&self) -> bool {
        &&& self.encoder.wf()
        &&& readable(self.encoder.blocks().flatten())
        &&& complete(self.encoder.blocks().flatten())
        &&& self.encoder.blocks().flatten() == database_records(self.packages@)
        &&& all_storable(self.packages@)
    }

    /// Starts a database without packages, to be compressed at `level`.
    pub fn create(level: i32) -> (writer: Writer)
        ensures
            writer.wf(),
            writer.level() == level,
            !writer.is_open(),
            writer.blocks() == Seq::<Seq<Seq<u8>>>::empty(),
            writer.packages() == Seq::<
                (StorePathView, Seq<crate::files::FileTreeEntryView>),
            >::empty(),
    {
        let writer = Writer { encoder: Encoder::new(), level, packages: Ghost(Seq::empty()) };
        assert(writer.encoder.blocks().flatten() =~= Seq::<Seq<u8>>::empty());
        writer
    }

    /// Adds a package: the records of its files, in the order of the tree,
    /// and then its own record, which begins a new block.
    pub fn add(&mut self, path: StorePath, files: FileTree)
        requires
            old(self).wf(),
        ensures
            final(self).wf(),
            final(self).is_open(),
            final(self).level() == old(self).level(),
            final(self).blocks() == with_records(
                with_records(
                    old(self).blocks(),
                    old(self).is_open(),
                    entry_records(files.entries()),
                ),
                false,
                seq![package_record(store_path_json(path@))],
            ),
            final(self).records() == old(self).records() + entry_records(files.entries()).push(
                package_record(store_path_json(path@)),
            ),
            final(self).packages() == old(self).packages().push((path@, files.entries())),
    {
        let ghost records = entry_records(files.entries());
        let ghost added = (path@, files.entries());
        let list = files.to_list();
        let mut i: usize = 0;
        assert(records.subrange(0, records.len() as int) =~= records);
        while i < list.len()
            invariant
                i <= list@.len(),
                self.encoder.wf(),
                self.level == old(self).level,
                records == entry_records(entry_views(list@)),
                valid_entries(entry_views(list@)),
                with_records(
                    self.encoder.blocks(),
                    self.encoder.is_open(),
                    records.subrange(i as int, records.len() as int),
                ) == with_records(old(self).blocks(), old(self).is_open(), records),
            decreases list.len() - i,
        {
            let record = list[i].encode();
            proof {
                let entry = entry_views(list@)[i as int];
                assert(crate::files::valid_entry(entry));
                crate::files::lemma_decode_inverts_encode(entry);
                let rest = records.subrange(i as int, records.len() as int);
                assert(rest[0] == record@);
                assert(rest.drop_first() =~= records.subrange(i + 1, records.len() as int));
            }
            self.encoder.write_record(record.as_slice());
            i += 1;
        }
        let ghost written = self.encoder.blocks();
        proof {
            assert(records.subrange(i as int, records.len() as int) =~= Seq::<Seq<u8>>::empty());
            assert(written == with_records(old(self).blocks(), old(self).is_open(), records));
        }
        self.encoder.start_block();
        let mut record: Vec<u8> = Vec::new();
        record.push(PACKAGE_TAG);
        record.push(NUL);
        let json = path.to_json();
        crate::files::push_bytes(&mut record, json.as_slice());
        proof {
            assert(record@ =~= package_record(store_path_json(path@)));
            let single = seq![record@];
            assert(single.drop_first() =~= Seq::<Seq<u8>>::empty());
            let after = crate::frcode::with_record(written, false, record@);
            assert(with_records(after, true, single.drop_first()) == after);
            assert(with_records(written, false, single) == after);
            lemma_with_records_flatten(old(self).blocks(), old(self).is_open(), records);
            lemma_with_records_flatten(written, false, single);
            assert(old(self).records() + records + single =~= old(self).records() + records.push(
                record@,
            ));
        }
        self.encoder.write_record(record.as_slice());
        proof {
            let earlier = old(self).records();
            let all = self.encoder.blocks().flatten();
            let entries = entry_views(list@);
            assert(all == earlier + records.push(record@));
            assert(record@.subrange(2, record@.len() as int) =~= json@);
            assert(is_package_record(record@));
            assert forall|i: int| 0 <= i < all.len() implies if is_package_record(
                #[trigger] all[i],
            ) {
                parsed_store_path(all[i].subrange(2, all[i].len() as int)) is Some
            } else {
                crate::files::decode_entry(all[i]) is Some
            } by {
                if i < earlier.len() {
                    assert(all[i] == earlier[i]);
                } else if i < earlier.len() + records.len() {
                    let k = i - earlier.len();
                    assert(all[i] == records[k]);
                    assert(crate::files::valid_entry(entries[k]));
                    crate::files::lemma_decode_inverts_encode(entries[k]);
                } else {
                    assert(all[i] == record@);
                }
            }
            assert(all.last() == record@);
            let longer = old(self).packages@.push(added);
            assert(longer.drop_last() =~= old(self).packages@);
            assert(database_records(longer) == earlier + package_records(added));
            assert(storable(added));
        }
        self.packages = Ghost(old(self).packages@.push(added));
    }

    /// Ends the database and returns the bytes of its file: the header and
    /// the compressed stream. Fails exactly when the compressor refuses
    /// the stream at the level of the writer. Every record that was
    /// written can be read, and the last of them is a package record, so
    /// that a search of the stream gives no error.
    pub fn finish(self) -> (r: Result<Vec<u8>, DatabaseError>)
        requires
            self.wf(),
        ensures
            valid_blocks(self.blocks()),
            readable(self.records()),
            complete(self.records()),
            self.records() == database_records(self.packages()),
            all_storable(self.packages()),
            match compressed(encode_stream(self.blocks()), self.level()) {
                Some(frame) => r is Ok && r->Ok_0@ == database_file(frame),
                None => r is Err && r->Err_0@ == DatabaseErrorView::IO,
            },
            match r {
                Ok(file) => opened(file@) == Ok::<Seq<u8>, DatabaseErrorView>(
                    encode_stream(self.blocks()),
                ),
                Err(e) => e@ == DatabaseErrorView::IO,
            },
    {
        let level = self.level;
        let stream = self.encoder.finish();
        let compressed = compress(stream.as_slice(), level);
        proof {
            if compressed is Ok {
                lemma_written_file_opens(compressed->Ok_0@, stream@);
            }
        }
        finish_file(compressed)
    }
}

/// Puts the header before a compressed stream, or reports why there is no
/// such stream.
pub fn finish_file(compressed: Result<Vec<u8>, std::io::Error>) -> (r: Result<
    Vec<u8>,
    DatabaseError,
>)
    ensures
        match compressed {
            Ok(frame) => r is Ok && r->Ok_0@ == database_file(frame@),
            Err(_) => r is Err && r->Err_0@ == DatabaseErrorView::IO,
        },
{
    match compressed {
        Err(e) => Err(DatabaseError::IO(e)),
        Ok(frame) => {
            let mut file: Vec<u8> = Vec::new();
            file.push(0x4E);
            file.push(0x49);
            file.push(0x58);
            file.push(0x49);
            push_u64_le(&mut file, FORMAT_VERSION);
            crate::files::push_bytes(&mut file, frame.as_slice());
            proof {
                assert(file@ =~= database_file(frame@));
            }
            Ok(file)
        },
    }
}

/// The pieces into which the terminators cut the bytes of `block` from
/// `from` on; the last piece is what follows the last terminator, and is
/// empty when the block ends with one.
pub open spec fn pieces(block: Seq<u8>, from: int) -> Seq<Seq<u8>>
    decreases block.len() - from,
{
    let stop = from + suffix_len(block, from);
    if from < 0 || stop >= block.len() {
        seq![block.subrange(from, block.len() as int)]
    } else {
        seq![block.subrange(from, stop)] + pieces(block, stop + 1)
    }
}

/// The views of a list of byte strings.
pub open spec fn lines_of(lines: Seq<Vec<u8>>) -> Seq<Seq<u8>> {
    Seq::new(lines.len(), |i: int| lines[i]@)
}

/// The views of a list of lists of byte strings.
pub open spec fn blocks_of(blocks: Seq<Vec<Vec<u8>>>) -> Seq<Seq<Seq<u8>>> {
    Seq::new(blocks.len(), |i: int| lines_of(blocks[i]@))
}

/// The blocks of the stream from `pos` on, each cut into pieces at its
/// terminators.
pub open spec fn dumped(stream: Seq<u8>, pos: int) -> Result<Seq<Seq<Seq<u8>>>, DatabaseErrorView>
    decreases stream.len() - pos,
    via dumped_decreases
{
    match next_buffer(stream, pos) {
        Err(e) => Err(DatabaseErrorView::Frcode(e)),
        Ok((block, next)) => if block.len() == 0 {
            Ok(Seq::empty())
        } else {
            match dumped(stream, next) {
                Err(e) => Err(e),
                Ok(rest) => Ok(seq![pieces(block, 0)] + rest),
            }
        },
    }
}

#[via_fn]
proof fn dumped_decreases(stream: Seq<u8>, pos: int) {
    lemma_records_end(stream, pos + 1, Seq::empty());
}

/// The pieces of the buffer of a block from the start of record `i` on
/// are the records from `i` on and the empty piece behind the last
/// terminator.
pub proof fn lemma_pieces_are_records(records: Seq<Seq<u8>>, i: int)
    requires
        valid_records(records),
        0 <= i <= records.len(),
    ensures
        pieces(join_records(records), start_of(records, i)) == records.skip(i).push(Seq::empty()),
    decreases records.len() - i,
{
    let buffer = join_records(records);
    let from = start_of(records, i);
    if i == records.len() {
        assert(records.subrange(0, i) =~= records);
        assert(buffer.subrange(from, buffer.len() as int) =~= Seq::<u8>::empty());
        assert(records.skip(i).push(Seq::empty()) =~= seq![Seq::<u8>::empty()]);
    } else {
        lemma_record_in_buffer(records, i);
        let record = records[i];
        let stop = from + record.len();
        assert(crate::frcode::terminator_free(record));
        assert forall|k: int| from <= k < stop implies buffer[k] != TERMINATOR by {
            assert(buffer.subrange(from, stop)[k - from] == record[k - from]);
        }
        lemma_suffix_len(buffer, from, record.len() as int);
        lemma_pieces_are_records(records, i + 1);
        assert(seq![record] + records.skip(i + 1).push(Seq::empty()) =~= records.skip(i).push(
            Seq::empty(),
        ));
    }
}

/// The blocks of a stream as a dump gives them: the records of each, and
/// the empty piece behind its last terminator.
pub open spec fn dump_of(blocks: Seq<Seq<Seq<u8>>>) -> Seq<Seq<Seq<u8>>> {
    Seq::new(blocks.len(), |k: int| blocks[k].push(Seq::empty()))
}

/// A dump gives the records that the stream decodes to, block by block.
pub proof fn lemma_dump_gives_records(stream: Seq<u8>, pos: int)
    requires
        0 <= pos,
        decode_stream(stream, pos) is Ok,
    ensures
        dumped(stream, pos) == Ok::<Seq<Seq<Seq<u8>>>, DatabaseErrorView>(
            dump_of(decode_stream(stream, pos)->Ok_0),
        ),
    decreases stream.len() - pos,
{
    let blocks = decode_stream(stream, pos)->Ok_0;
    crate::frcode::lemma_decoder_walks_blocks(stream, pos);
    if blocks.len() == 0 {
        assert(dump_of(blocks) =~= Seq::<Seq<Seq<u8>>>::empty());
    } else {
        let (block, next) = next_buffer(stream, pos)->Ok_0;
        let records = blocks[0];
        crate::frcode::lemma_decoded_records_valid(stream, pos + 1, Seq::empty());
        lemma_records_end(stream, pos + 1, Seq::empty());
        assert(crate::frcode::decode_block(stream, pos)->Ok_0.0 == records);
        assert(records.subrange(0, 0) =~= Seq::<Seq<u8>>::empty());
        lemma_pieces_are_records(records, 0);
        assert(records.skip(0) =~= records);
        crate::frcode::lemma_empty_buffer_is_end(stream, pos);
        lemma_dump_gives_records(stream, next);
        assert(seq![records.push(Seq::empty())] + dump_of(blocks.drop_first()) =~= dump_of(
            blocks,
        ));
    }
}

/// Cuts a block into pieces at its terminators.
pub fn split_lines(block: &[u8]) -> (lines: Vec<Vec<u8>>)
    ensures
        lines_of(lines@) == pieces(block@, 0),
{
    let n = block.len();
    let mut lines: Vec<Vec<u8>> = Vec::new();
    let mut from: usize = 0;
    loop
        invariant
            n == block@.len(),
            from <= n,
            lines_of(lines@) + pieces(block@, from as int) == pieces(block@, 0),
        decreases n - from,
    {
        let mut stop: usize = from;
        while stop < n && block[stop] != TERMINATOR
            invariant
                n == block@.len(),
                from <= stop <= n,
                stop - from + suffix_len(block@, stop as int) == suffix_len(block@, from as int),
            decreases n - stop,
        {
            stop += 1;
        }
        let ghost before = lines_of(lines@);
        let line = slice_to_vec(slice_subrange(block, from, stop));
        lines.push(line);
        proof {
            assert(lines_of(lines@) =~= before.push(block@.subrange(from as int, stop as int)));
        }
        if stop >= n {
            proof {
                assert(lines_of(lines@) =~= before + pieces(block@, from as int));
            }
            return lines;
        }
        proof {
            let first = seq![block@.subrange(from as int, stop as int)];
            assert(before + (first + pieces(block@, stop + 1)) =~= before.push(first[0]) + pieces(
                block@,
                stop + 1,
            ));
        }
        from = stop + 1;
    }
}

/// Reads a database.
pub struct Reader {
    decoder: Decoder,
}

impl Reader {
    /// The front-coded stream of the database.
    pub closed spec fn stream(&self) -> Seq<u8> {
        self.decoder.input()
    }

    /// The index in the stream of the first byte that was not read.
    pub closed spec fn position(&self) -> nat {
        self.decoder.position()
    }

    /// Decodes the next block of the stream: its records, each followed
    /// by a terminator, or nothing at the end of the stream.
    pub fn next_block(&mut self) -> (r: Result<Vec<u8>, crate::frcode::Error>)
        ensures
            final(self).stream() == old(self).stream(),
            match crate::frcode::next_buffer(old(self).stream(), old(self).position() as int) {
                Ok((buffer, next)) => r is Ok && r->Ok_0@ == buffer && final(self).position()
                    == next,
                Err(e) => r == Err::<Vec<u8>, crate::frcode::Error>(e) && final(self).position()
                    == old(self).position(),
            },
    {
        self.decoder.decode()
    }

    /// Reads the rest of the stream and gives its blocks, each cut into
    /// pieces at its terminators: the records of the block, and the empty
    /// piece after its last terminator.
    pub fn dump(&mut self) -> (r: Result<Vec<Vec<Vec<u8>>>, DatabaseError>)
        ensures
            final(self).stream() == old(self).stream(),
            match dumped(old(self).stream(), old(self).position() as int) {
                Ok(blocks) => r is Ok && blocks_of(r->Ok_0@) == blocks,
                Err(e) => r is Err && r->Err_0@ == e,
            },
    {
        let ghost stream = self.stream();
        let ghost target = dumped(stream, self.position() as int);
        let mut blocks: Vec<Vec<Vec<u8>>> = Vec::new();
        loop
            invariant
                self.stream() == stream,
                stream == old(self).stream(),
                target == dumped(stream, old(self).position() as int),
                match dumped(stream, self.position() as int) {
                    Ok(rest) => target == Ok::<Seq<Seq<Seq<u8>>>, DatabaseErrorView>(
                        blocks_of(blocks@) + rest,
                    ),
                    Err(e) => target == Err::<Seq<Seq<Seq<u8>>>, DatabaseErrorView>(e),
                },
            decreases stream.len() - self.position(),
        {
            let ghost pos = self.position() as int;
            proof {
                lemma_records_end(stream, pos + 1, Seq::empty());
                crate::frcode::lemma_empty_buffer_is_end(stream, pos);
            }
            let block = match self.next_block() {
                Err(e) => {
                    return Err(DatabaseError::Frcode(e));
                },
                Ok(block) => block,
            };
            if block.len() == 0 {
                proof {
                    assert(blocks_of(blocks@) + Seq::<Seq<Seq<u8>>>::empty() =~= blocks_of(
                        blocks@,
                    ));
                }
                return Ok(blocks);
            }
            let ghost before = blocks_of(blocks@);
            let lines = split_lines(block.as_slice());
            blocks.push(lines);
            proof {
                assert(blocks_of(blocks@) =~= before.push(pieces(block@, 0)));
                if let Ok(rest) = dumped(stream, self.position() as int) {
                    assert(before + (seq![pieces(block@, 0)] + rest) =~= before.push(
                        pieces(block@, 0),
                    ) + rest);
                }
            }
        }
    }

    /// Makes a reader of a stream that is already decompressed.
    pub fn from_stream(stream: Vec<u8>) -> (reader: Reader)
        ensures
            reader.stream() == stream@,
            reader.position() == 0,
    {
        Reader { decoder: Decoder::new(stream) }
    }

    /// Opens a database from the bytes of its file. Fails when the file
    /// does not begin with the magic, has another version, ends before the
    /// end of its header, or holds no zstd frame after it.
    pub fn open(file: &[u8]) -> (r: Result<Reader, DatabaseError>)
        ensures
            match opened(file@) {
                Ok(stream) => r is Ok && r->Ok_0.stream() == stream && r->Ok_0.position() == 0,
                Err(e) => r is Err && r->Err_0@ == e,
            },
    {
        match check_header(file) {
            Err(e) => Err(e),
            Ok(()) => match decompress(slice_subrange(file, 12, file.len())) {
                Err(e) => Err(DatabaseError::IO(e)),
                Ok(stream) => Ok(Reader::from_stream(stream)),
            },
        }
    }
}

} // verus!
