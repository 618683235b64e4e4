//! Searching the blocks of a database.
//!
//! A block is searched line by line with a pattern that may name lines
//! that do not match; each such line is read as a file and its path is
//! tested against the pattern that the caller gave. A file belongs to the
//! first package record after it. Where the block ends before that record,
//! the file waits for the next block.

use crate::block::{
    complete, find_package, is_line, is_owner, lemma_line_is_record,
    lemma_marker_is_package_record, lemma_marker_stable, lemma_next_marker_bounds,
    lemma_next_package_in_prefix, lemma_next_package_in_suffix, lemma_no_marker_stable,
    lemma_next_package_bounds, lemma_package_follows, next_package, owner_at, readable,
    record_at, take_record,
};
use crate::database::{
    all_storable, database_records, lemma_database_records_complete, package_records, storable,
    was_added, DatabaseError, DatabaseErrorView, Reader,
};
use crate::files::{
    decode_entry, encode_entry, is_package_record, package_record, FileTreeEntry,
    FileTreeEntryView, NUL, PACKAGE_TAG,
};
use crate::package::store_path_json;
use crate::frcode::{
    chunk_block, decode_block, decode_stream, encode_stream, join_records,
    lemma_decode_inverts_encode, take_block,
    lemma_decoder_walks_blocks,
    lemma_decoded_records_valid, lemma_empty_buffer_is_end, lemma_records_between_is_prefix,
    lemma_records_end, next_buffer, records_between, start_of, valid_blocks, valid_records,
};
use crate::matcher::{
    all_match_spans, grep_builds, grep_line, is_line_after, is_match, match_spans,
    line_start, next_line, regex_matches, LineSearcher, PathPattern,
};
use crate::package::{parsed_store_path, StorePath, StorePathView};
use crate::pattern::{rewrite, scan_pattern};
use vstd::prelude::*;
use vstd::slice::slice_to_vec;
use vstd::utf8::encode_utf8;

verus! {

/// What a query looks for.
pub struct QueryView {
    /// The pattern for records, which names the lines to look at.
    pub scan: Seq<char>,
    /// The pattern that the path of a file has to match.
    pub exact: Seq<char>,
    /// The pattern that the name of a package has to match, if any.
    pub name: Option<Seq<char>>,
    /// The hash that a package has to have, if any.
    pub hash: Option<Seq<char>>,
}

/// Whether the files of a package are wanted: its name matches the name
/// pattern, where there is one, and its hash is the wanted hash, where
/// there is one.
pub open spec fn passes(q: QueryView, package: StorePathView) -> bool {
    &&& match q.name {
        Some(re) => regex_matches(re, encode_utf8(package.name)),
        None => true,
    }
    &&& match q.hash {
        Some(hash) => hash == package.hash,
        None => true,
    }
}

/// The entries, each with `package` as its owner.
pub open spec fn owned_by(package: StorePathView, entries: Seq<FileTreeEntryView>) -> Seq<
    (StorePathView, FileTreeEntryView),
> {
    Seq::new(entries.len(), |i: int| (package, entries[i]))
}

/// Whether one of the matches of the pattern `exact` in `path` is not
/// empty.
pub open spec fn has_hit(exact: Seq<char>, path: Seq<u8>) -> bool {
    exists|i: int| is_hit_span(all_match_spans(exact, path), i)
}

/// Whether span `i` of `spans` is not empty.
pub open spec fn is_hit_span(spans: Seq<(usize, usize)>, i: int) -> bool {
    0 <= i < spans.len() && spans[i].0 < spans[i].1
}

/// Whether the path of a file is a match of the pattern `exact`: the
/// pattern matches in the path, and one of its matches there is not empty.
/// A pattern that matches only the empty text in a path does not make the
/// file a match.
pub open spec fn path_hit(exact: Seq<char>, path: Seq<u8>) -> bool {
    regex_matches(exact, path) && has_hit(exact, path)
}

/// Tests whether one of the matches of a pattern in `path` is not empty.
pub fn has_nonempty_match(pattern: &PathPattern, path: &[u8]) -> (hit: bool)
    ensures
        hit == has_hit(pattern@, path@),
{
    let spans = match_spans(pattern, path);
    let mut i: usize = 0;
    while i < spans.len()
        invariant
            i <= spans@.len(),
            spans@ == all_match_spans(pattern@, path@),
            forall|k: int| 0 <= k < i ==> !is_hit_span(spans@, k),
        decreases spans.len() - i,
    {
        let span = spans[i];
        if span.0 < span.1 {
            assert(is_hit_span(spans@, i as int));
            return true;
        }
        i += 1;
    }
    false
}

/// Where the search goes on when the owner of a line is not wanted: after
/// the owner's record. Nothing when the owner is wanted or not known.
pub open spec fn skip_to(q: QueryView, owner: Option<(StorePathView, int)>) -> Option<int> {
    match owner {
        Some((package, after)) => if passes(q, package) {
            None
        } else {
            Some(after)
        },
        None => None,
    }
}

/// The search of a block from the line start `pos` on, with the matches
/// found so far and the matches that still wait for their package.
///
/// Each line that the searcher reports is skipped when it is empty or a
/// package record. Otherwise its owner is looked up. Where the owner is
/// not wanted, the search goes on after the owner's record. Else the line
/// is read as a file, which fails the search when it is none; a file whose
/// path is a match of the pattern for paths, by a match that is not empty,
/// is kept, with its owner or among the waiting.
pub open spec fn scan(
    q: QueryView,
    block: Seq<u8>,
    pos: int,
    found: Seq<(StorePathView, FileTreeEntryView)>,
    orphans: Seq<FileTreeEntryView>,
) -> Result<(Seq<(StorePathView, FileTreeEntryView)>, Seq<FileTreeEntryView>), DatabaseErrorView>
    decreases block.len() - pos,
    via scan_decreases
{
    match grep_line(q.scan, block, pos) {
        None => Ok((found, orphans)),
        Some((first, end)) => {
            let record = record_at(block, first, end);
            if !is_line_after(block, pos, Some((first, end))) {
                Ok((found, orphans))
            } else if first == end || is_package_record(record) {
                scan(q, block, end, found, orphans)
            } else {
                match owner_at(block, end) {
                    Err(e) => Err(e),
                    Ok(owner) => {
                        if let Some(after) = skip_to(q, owner) {
                            scan(q, block, after, found, orphans)
                        } else {
                            match decode_entry(record) {
                                None => Err(DatabaseErrorView::EntryParse(record)),
                                Some(entry) => {
                                    if !path_hit(q.exact, entry.path) {
                                        scan(q, block, end, found, orphans)
                                    } else {
                                        match owner {
                                            Some((package, _)) => scan(
                                                q,
                                                block,
                                                end,
                                                found.push((package, entry)),
                                                orphans,
                                            ),
                                            None => scan(
                                                q,
                                                block,
                                                end,
                                                found,
                                                orphans.push(entry),
                                            ),
                                        }
                                    }
                                },
                            }
                        }
                    },
                }
            }
        },
    }
}

#[via_fn]
proof fn scan_decreases(
    q: QueryView,
    block: Seq<u8>,
    pos: int,
    found: Seq<(StorePathView, FileTreeEntryView)>,
    orphans: Seq<FileTreeEntryView>,
) {
    if let Some((first, end)) = grep_line(q.scan, block, pos) {
        lemma_next_marker_bounds(block, end);
    }
}

/// What the start of a block does to the matches that wait: they go to
/// the first package of the block when it is wanted, and are dropped
/// when it is not, in which case the search begins after its record.
/// Gives the index where the search begins.
pub open spec fn attribute_orphans(
    q: QueryView,
    block: Seq<u8>,
    found: Seq<(StorePathView, FileTreeEntryView)>,
    orphans: Seq<FileTreeEntryView>,
) -> Result<
    (int, Seq<(StorePathView, FileTreeEntryView)>, Seq<FileTreeEntryView>),
    DatabaseErrorView,
> {
    if orphans.len() == 0 {
        Ok((0, found, orphans))
    } else {
        match owner_at(block, 0) {
            Err(e) => Err(e),
            Ok(None) => Ok((0, found, orphans)),
            Ok(Some((package, end))) => if passes(q, package) {
                Ok((0, found + owned_by(package, orphans), Seq::empty()))
            } else {
                Ok((end, found, Seq::empty()))
            },
        }
    }
}

/// The search of one whole block.
pub open spec fn process_block(
    q: QueryView,
    block: Seq<u8>,
    found: Seq<(StorePathView, FileTreeEntryView)>,
    orphans: Seq<FileTreeEntryView>,
) -> Result<(Seq<(StorePathView, FileTreeEntryView)>, Seq<FileTreeEntryView>), DatabaseErrorView> {
    match attribute_orphans(q, block, found, orphans) {
        Err(e) => Err(e),
        Ok((pos, found, orphans)) => scan(q, block, pos, found, orphans),
    }
}

/// The search of the stream from `pos` on, block by block, until a match
/// is found or the stream ends. Gives the index of the first block that
/// was not searched. Matches that still wait at the end of the stream
/// make the database malformed.
pub open spec fn fill(
    q: QueryView,
    stream: Seq<u8>,
    pos: int,
    found: Seq<(StorePathView, FileTreeEntryView)>,
    orphans: Seq<FileTreeEntryView>,
) -> Result<
    (int, Seq<(StorePathView, FileTreeEntryView)>, Seq<FileTreeEntryView>),
    DatabaseErrorView,
>
    decreases stream.len() - pos,
    via fill_decreases
{
    if found.len() > 0 {
        Ok((pos, found, orphans))
    } else {
        match next_buffer(stream, pos) {
            Err(e) => Err(DatabaseErrorView::Frcode(e)),
            Ok((block, next)) => {
                if block.len() == 0 {
                    if orphans.len() > 0 {
                        Err(DatabaseErrorView::MissingPackageEntry)
                    } else {
                        Ok((pos, found, orphans))
                    }
                } else {
                    match process_block(q, block, found, orphans) {
                        Err(e) => Err(e),
                        Ok((found, orphans)) => fill(q, stream, next, found, orphans),
                    }
                }
            },
        }
    }
}

#[via_fn]
proof fn fill_decreases(
    q: QueryView,
    stream: Seq<u8>,
    pos: int,
    found: Seq<(StorePathView, FileTreeEntryView)>,
    orphans: Seq<FileTreeEntryView>,
) {
    lemma_records_end(stream, pos + 1, Seq::empty());
}

/// Whether the line from `first` to `end` is the record of the file
/// `entry`, and the path of `entry` is a match of the pattern for paths.
pub open spec fn is_match_at(
    q: QueryView,
    block: Seq<u8>,
    first: int,
    end: int,
    entry: FileTreeEntryView,
) -> bool {
    &&& is_line(block, first, end)
    &&& !is_package_record(record_at(block, first, end))
    &&& decode_entry(record_at(block, first, end)) == Some(entry)
    &&& path_hit(q.exact, entry.path)
}

/// Whether `entry` is a match in the block, its owner is `package`, and
/// the owner is wanted.
pub open spec fn is_hit(
    q: QueryView,
    block: Seq<u8>,
    package: StorePathView,
    entry: FileTreeEntryView,
) -> bool {
    exists|first: int, end: int|
        #![trigger is_match_at(q, block, first, end, entry)]
        {
            &&& is_match_at(q, block, first, end, entry)
            &&& passes(q, package)
            &&& match owner_at(block, end) {
                Ok(Some((owner, _))) => owner == package,
                _ => false,
            }
        }
}

/// Whether `entry` is a match in the block and no package record follows
/// it there.
pub open spec fn is_waiting(q: QueryView, block: Seq<u8>, entry: FileTreeEntryView) -> bool {
    exists|first: int, end: int|
        #![trigger is_match_at(q, block, first, end, entry)]
        {
            &&& is_match_at(q, block, first, end, entry)
            &&& owner_at(block, end) == Ok::<Option<(StorePathView, int)>, DatabaseErrorView>(
                None,
            )
        }
}

/// Whether `longer` is `shorter` with matches of the block added at its
/// end, each owned by a wanted package.
pub open spec fn adds_hits(
    q: QueryView,
    block: Seq<u8>,
    shorter: Seq<(StorePathView, FileTreeEntryView)>,
    longer: Seq<(StorePathView, FileTreeEntryView)>,
) -> bool {
    &&& shorter.len() <= longer.len()
    &&& forall|i: int| 0 <= i < shorter.len() ==> longer[i] == shorter[i]
    &&& forall|i: int|
        shorter.len() <= i < longer.len() ==> is_hit(q, block, (#[trigger] longer[i]).0, longer[i].1)
}

/// Whether `longer` is `shorter` with matches of the block added at its
/// end, none of them followed by a package record.
pub open spec fn adds_waiting(
    q: QueryView,
    block: Seq<u8>,
    shorter: Seq<FileTreeEntryView>,
    longer: Seq<FileTreeEntryView>,
) -> bool {
    &&& shorter.len() <= longer.len()
    &&& forall|i: int| 0 <= i < shorter.len() ==> longer[i] == shorter[i]
    &&& forall|i: int|
        shorter.len() <= i < longer.len() ==> is_waiting(q, block, #[trigger] longer[i])
}

/// The search of a block adds nothing but matches. What it adds to the
/// matches found is the file of a record of the block that is no package
/// record, whose path matches the pattern for paths, and whose owner, the
/// first package after it in the block, is wanted. What it adds to the
/// waiting matches is such a file that no package follows in the block.
pub proof fn lemma_scan_adds_only_matches(
    q: QueryView,
    block: Seq<u8>,
    pos: int,
    found: Seq<(StorePathView, FileTreeEntryView)>,
    orphans: Seq<FileTreeEntryView>,
)
    ensures
        match scan(q, block, pos, found, orphans) {
            Ok((all_found, all_orphans)) => adds_hits(q, block, found, all_found) && adds_waiting(
                q,
                block,
                orphans,
                all_orphans,
            ),
            Err(_) => true,
        },
    decreases block.len() - pos,
{
    match grep_line(q.scan, block, pos) {
        None => {},
        Some((first, end)) => {
            let record = record_at(block, first, end);
            if !is_line_after(block, pos, Some((first, end))) {
            } else if first == end || is_package_record(record) {
                lemma_scan_adds_only_matches(q, block, end, found, orphans);
            } else {
                lemma_next_marker_bounds(block, end);
                match owner_at(block, end) {
                    Err(e) => {},
                    Ok(owner) => {
                        if let Some(after) = skip_to(q, owner) {
                            lemma_scan_adds_only_matches(q, block, after, found, orphans);
                        } else {
                            match decode_entry(record) {
                                None => {},
                                Some(entry) => {
                                    if !path_hit(q.exact, entry.path) {
                                        lemma_scan_adds_only_matches(q, block, end, found, orphans);
                                    } else {
                                        assert(is_match_at(q, block, first, end, entry));
                                        match owner {
                                            Some((package, _)) => {
                                                let more = found.push((package, entry));
                                                lemma_scan_adds_only_matches(
                                                    q,
                                                    block,
                                                    end,
                                                    more,
                                                    orphans,
                                                );
                                                assert(is_hit(q, block, more[found.len() as int].0, more[found.len() as int].1));
                                                if let Ok((all_found, all_orphans)) = scan(
                                                    q,
                                                    block,
                                                    end,
                                                    more,
                                                    orphans,
                                                ) {
                                                    assert forall|i: int|
                                                        0 <= i < found.len() implies all_found[i]
                                                        == found[i] by {
                                                        assert(more[i] == found[i]);
                                                    }
                                                    assert(all_found[found.len() as int]
                                                        == more[found.len() as int]);
                                                }
                                            },
                                            None => {
                                                let more = orphans.push(entry);
                                                lemma_scan_adds_only_matches(
                                                    q,
                                                    block,
                                                    end,
                                                    found,
                                                    more,
                                                );
                                                assert(is_waiting(q, block, more[orphans.len() as int]));
                                                if let Ok((all_found, all_orphans)) = scan(
                                                    q,
                                                    block,
                                                    end,
                                                    found,
                                                    more,
                                                ) {
                                                    assert forall|i: int|
                                                        0 <= i < orphans.len() implies all_orphans[i]
                                                        == orphans[i] by {
                                                        assert(more[i] == orphans[i]);
                                                    }
                                                    assert(all_orphans[orphans.len() as int]
                                                        == more[orphans.len() as int]);
                                                }
                                            },
                                        }
                                    }
                                },
                            }
                        }
                    },
                }
            }
        },
    }
}

/// Whether record `i` is the record of the file `entry`, and the path of
/// the file is a match of the pattern for paths.
pub open spec fn is_stored_match(
    q: QueryView,
    records: Seq<Seq<u8>>,
    i: int,
    entry: FileTreeEntryView,
) -> bool {
    &&& 0 <= i < records.len()
    &&& !is_package_record(records[i])
    &&& decode_entry(records[i]) == Some(entry)
    &&& path_hit(q.exact, entry.path)
}

/// Whether record `i` is a match for the file `entry`, record `j` is the
/// first package record after it and holds the store path `package`, and
/// that package is wanted.
pub open spec fn is_stored_hit(
    q: QueryView,
    records: Seq<Seq<u8>>,
    i: int,
    j: int,
    package: StorePathView,
    entry: FileTreeEntryView,
) -> bool {
    &&& is_stored_match(q, records, i, entry)
    &&& i < j < records.len()
    &&& next_package(records, i + 1) == Some(j)
    &&& parsed_store_path(records[j].subrange(2, records[j].len() as int)) == Some(package)
    &&& passes(q, package)
}

/// Whether record `i` is a match for the file `entry` and no package
/// record follows it.
pub open spec fn is_stored_orphan(
    q: QueryView,
    records: Seq<Seq<u8>>,
    i: int,
    entry: FileTreeEntryView,
) -> bool {
    &&& is_stored_match(q, records, i, entry)
    &&& next_package(records, i + 1) is None
}

/// What is found in the buffer of a block was stored in the block: a hit
/// is the file of a record that is no package record, its path matches
/// the pattern for paths, and its owner is the store path of the first
/// package record after it, which is wanted.
pub proof fn lemma_hits_are_stored_files(
    q: QueryView,
    records: Seq<Seq<u8>>,
    package: StorePathView,
    entry: FileTreeEntryView,
)
    requires
        valid_records(records),
        is_hit(q, join_records(records), package, entry),
    ensures
        exists|i: int, j: int| is_stored_hit(q, records, i, j, package, entry),
{
    let buffer = join_records(records);
    let (first, end) = choose|first: int, end: int|
        #![trigger is_match_at(q, buffer, first, end, entry)]
        {
            &&& is_match_at(q, buffer, first, end, entry)
            &&& passes(q, package)
            &&& match owner_at(buffer, end) {
                Ok(Some((owner, _))) => owner == package,
                _ => false,
            }
        };
    lemma_line_is_record(records, first, end);
    let i = choose|i: int|
        {
            &&& 0 <= i < records.len()
            &&& first == start_of(records, i)
            &&& end == #[trigger] start_of(records, i + 1)
            &&& record_at(buffer, first, end) == records[i]
        };
    lemma_marker_is_package_record(records, i + 1);
    match next_package(records, i + 1) {
        Some(j) => {
            assert(is_stored_hit(q, records, i, j, package, entry));
        },
        None => {
            assert(false);
        },
    }
}

/// What waits after the search of a block was stored in the block: the
/// file of a record that is no package record, whose path matches the
/// pattern for paths, and that no package record follows in the block.
pub proof fn lemma_waiting_are_stored_files(
    q: QueryView,
    records: Seq<Seq<u8>>,
    entry: FileTreeEntryView,
)
    requires
        valid_records(records),
        is_waiting(q, join_records(records), entry),
    ensures
        exists|i: int| is_stored_orphan(q, records, i, entry),
{
    let buffer = join_records(records);
    let (first, end) = choose|first: int, end: int|
        #![trigger is_match_at(q, buffer, first, end, entry)]
        {
            &&& is_match_at(q, buffer, first, end, entry)
            &&& owner_at(buffer, end) == Ok::<Option<(StorePathView, int)>, DatabaseErrorView>(
                None,
            )
        };
    lemma_line_is_record(records, first, end);
    let i = choose|i: int|
        {
            &&& 0 <= i < records.len()
            &&& first == start_of(records, i)
            &&& end == #[trigger] start_of(records, i + 1)
            &&& record_at(buffer, first, end) == records[i]
        };
    lemma_marker_is_package_record(records, i + 1);
    assert(is_stored_orphan(q, records, i, entry));
}

/// Whether `hit` is a file among `records` with its owner, a wanted
/// package.
pub open spec fn is_stored_with_owner(
    q: QueryView,
    records: Seq<Seq<u8>>,
    hit: (StorePathView, FileTreeEntryView),
) -> bool {
    exists|i: int, j: int| is_stored_hit(q, records, i, j, hit.0, hit.1)
}

/// Whether `entry` is a file among `records` that matches and that no
/// package record follows.
pub open spec fn is_stored_waiting(
    q: QueryView,
    records: Seq<Seq<u8>>,
    entry: FileTreeEntryView,
) -> bool {
    exists|i: int| is_stored_orphan(q, records, i, entry)
}

/// Whether every match that was found is a file among `records` with its
/// owner, a wanted package, and every match that waits is a file among
/// `records` that no package record follows.
pub open spec fn all_stored(
    q: QueryView,
    records: Seq<Seq<u8>>,
    found: Seq<(StorePathView, FileTreeEntryView)>,
    orphans: Seq<FileTreeEntryView>,
) -> bool {
    &&& forall|k: int| 0 <= k < found.len() ==> is_stored_with_owner(q, records, #[trigger] found[k])
    &&& forall|k: int|
        0 <= k < orphans.len() ==> is_stored_waiting(q, records, #[trigger] orphans[k])
}

/// A match with its owner stays one when records are added at the end.
proof fn lemma_hit_stays(
    q: QueryView,
    earlier: Seq<Seq<u8>>,
    later: Seq<Seq<u8>>,
    hit: (StorePathView, FileTreeEntryView),
)
    requires
        is_stored_with_owner(q, earlier, hit),
    ensures
        is_stored_with_owner(q, earlier + later, hit),
{
    let all = earlier + later;
    let (i, j) = choose|i: int, j: int| is_stored_hit(q, earlier, i, j, hit.0, hit.1);
    assert(all[i] == earlier[i]);
    assert(all[j] == earlier[j]);
    lemma_next_package_in_prefix(earlier, later, i + 1);
    assert(is_stored_hit(q, all, i, j, hit.0, hit.1));
}

/// A match in the records that are added is a match in all the records,
/// and so is its owner.
proof fn lemma_hit_moves(
    q: QueryView,
    earlier: Seq<Seq<u8>>,
    later: Seq<Seq<u8>>,
    hit: (StorePathView, FileTreeEntryView),
)
    requires
        is_stored_with_owner(q, later, hit),
    ensures
        is_stored_with_owner(q, earlier + later, hit),
{
    let all = earlier + later;
    let (i, j) = choose|i: int, j: int| is_stored_hit(q, later, i, j, hit.0, hit.1);
    assert(all[earlier.len() + i] == later[i]);
    assert(all[earlier.len() + j] == later[j]);
    lemma_next_package_in_suffix(earlier, later, i + 1);
    assert(is_stored_hit(q, all, earlier.len() + i, earlier.len() + j, hit.0, hit.1));
}

/// A match that waits in the records that are added waits in all the
/// records.
proof fn lemma_waiting_moves(
    q: QueryView,
    earlier: Seq<Seq<u8>>,
    later: Seq<Seq<u8>>,
    entry: FileTreeEntryView,
)
    requires
        is_stored_waiting(q, later, entry),
    ensures
        is_stored_waiting(q, earlier + later, entry),
{
    let all = earlier + later;
    let i = choose|i: int| is_stored_orphan(q, later, i, entry);
    assert(all[earlier.len() + i] == later[i]);
    lemma_next_package_in_suffix(earlier, later, i + 1);
    assert(is_stored_orphan(q, all, earlier.len() + i, entry));
}

/// A match that waits gets the first package of the records that are
/// added as its owner, and goes on waiting where they hold no package.
proof fn lemma_waiting_meets_owner(
    q: QueryView,
    earlier: Seq<Seq<u8>>,
    later: Seq<Seq<u8>>,
    entry: FileTreeEntryView,
)
    requires
        is_stored_waiting(q, earlier, entry),
    ensures
        match next_package(later, 0) {
            Some(j) => forall|package: StorePathView|
                0 <= j < later.len() && #[trigger] passes(q, package) && parsed_store_path(
                    later[j].subrange(2, later[j].len() as int),
                ) == Some(package) ==> is_stored_with_owner(q, earlier + later, (package, entry)),
            None => is_stored_waiting(q, earlier + later, entry),
        },
{
    let all = earlier + later;
    let i = choose|i: int| is_stored_orphan(q, earlier, i, entry);
    assert(all[i] == earlier[i]);
    lemma_next_package_in_prefix(earlier, later, i + 1);
    match next_package(later, 0) {
        Some(j) => {
            assert forall|package: StorePathView|
                0 <= j < later.len() && #[trigger] passes(q, package) && parsed_store_path(
                    later[j].subrange(2, later[j].len() as int),
                ) == Some(package) implies is_stored_with_owner(
                q,
                all,
                (package, entry),
            ) by {
                assert(all[earlier.len() + j] == later[j]);
                let hit = (package, entry);
                assert(is_stored_hit(q, all, i, earlier.len() + j, hit.0, hit.1));
            }
        },
        None => {
            assert(is_stored_orphan(q, all, i, entry));
        },
    }
}

/// What the start of a block does to the waiting matches keeps what was
/// found and what waits among the stored files.
proof fn lemma_adoption_keeps_stored(
    q: QueryView,
    before: Seq<Seq<u8>>,
    records: Seq<Seq<u8>>,
    found: Seq<(StorePathView, FileTreeEntryView)>,
    orphans: Seq<FileTreeEntryView>,
)
    requires
        valid_records(records),
        all_stored(q, before, found, orphans),
    ensures
        match attribute_orphans(q, join_records(records), found, orphans) {
            Ok((_, all_found, all_orphans)) => all_stored(
                q,
                before + records,
                all_found,
                all_orphans,
            ),
            Err(_) => true,
        },
{
    let block = join_records(records);
    let all = before + records;
    assert(records.subrange(0, 0) =~= Seq::<Seq<u8>>::empty());
    assert(start_of(records, 0) == 0);
    lemma_marker_is_package_record(records, 0);
    assert forall|k: int| 0 <= k < found.len() implies is_stored_with_owner(
        q,
        all,
        #[trigger] found[k],
    ) by {
        lemma_hit_stays(q, before, records, found[k]);
    }
    assert forall|k: int| 0 <= k < orphans.len() implies match next_package(records, 0) {
        Some(j) => forall|package: StorePathView|
            0 <= j < records.len() && #[trigger] passes(q, package) && parsed_store_path(
                records[j].subrange(2, records[j].len() as int),
            ) == Some(package) ==> is_stored_with_owner(q, all, (package, orphans[k])),
        None => is_stored_waiting(q, all, #[trigger] orphans[k]),
    } by {
        lemma_waiting_meets_owner(q, before, records, orphans[k]);
    }
    if orphans.len() > 0 {
        match owner_at(block, 0) {
            Err(_) => {},
            Ok(None) => {
                assert(next_package(records, 0) is None);
            },
            Ok(Some((package, end))) => {
                assert(next_package(records, 0) is Some);
                let j = next_package(records, 0)->0;
                assert(record_at(block, start_of(records, j), start_of(records, j + 1))
                    == records[j]);
                if passes(q, package) {
                    let found1 = found + owned_by(package, orphans);
                    assert forall|k: int| 0 <= k < found1.len() implies is_stored_with_owner(
                        q,
                        all,
                        #[trigger] found1[k],
                    ) by {
                        if k < found.len() {
                            assert(found1[k] == found[k]);
                        } else {
                            let at = k - found.len();
                            assert(found1[k] == (package, orphans[at]));
                        }
                    }
                }
            },
        }
    }
}

/// The search of a block keeps what was found and what waits among the
/// stored files: where that holds of the records of the blocks before,
/// it holds after the search of the records of those blocks and this one.
pub proof fn lemma_block_keeps_stored(
    q: QueryView,
    before: Seq<Seq<u8>>,
    records: Seq<Seq<u8>>,
    found: Seq<(StorePathView, FileTreeEntryView)>,
    orphans: Seq<FileTreeEntryView>,
)
    requires
        valid_records(records),
        all_stored(q, before, found, orphans),
    ensures
        match process_block(q, join_records(records), found, orphans) {
            Ok((all_found, all_orphans)) => all_stored(
                q,
                before + records,
                all_found,
                all_orphans,
            ),
            Err(_) => true,
        },
{
    let block = join_records(records);
    let all = before + records;
    lemma_adoption_keeps_stored(q, before, records, found, orphans);
    if let Ok((pos, found1, orphans1)) = attribute_orphans(q, block, found, orphans) {
        lemma_scan_adds_only_matches(q, block, pos, found1, orphans1);
        if let Ok((found2, orphans2)) = scan(q, block, pos, found1, orphans1) {
            assert forall|k: int| 0 <= k < found2.len() implies is_stored_with_owner(
                q,
                all,
                #[trigger] found2[k],
            ) by {
                if k < found1.len() {
                    assert(found2[k] == found1[k]);
                } else {
                    lemma_hits_are_stored_files(q, records, found2[k].0, found2[k].1);
                    lemma_hit_moves(q, before, records, found2[k]);
                }
            }
            assert forall|k: int| 0 <= k < orphans2.len() implies is_stored_waiting(
                q,
                all,
                #[trigger] orphans2[k],
            ) by {
                if k < orphans1.len() {
                    assert(orphans2[k] == orphans1[k]);
                } else {
                    lemma_waiting_are_stored_files(q, records, orphans2[k]);
                    lemma_waiting_moves(q, before, records, orphans2[k]);
                }
            }
        }
    }
}

/// Every match is a stored file with its owner. Where what was found and
/// what waits are among the files of the records before `pos`, the search
/// from `pos` keeps them among the files of those records and the records
/// of the blocks that it went through: each match that is found is the
/// file of a record that is no package record; its path matches the
/// pattern for paths; and its owner is the store path of the first
/// package record after it, which is wanted.
pub proof fn lemma_fill_keeps_stored(
    q: QueryView,
    stream: Seq<u8>,
    pos: int,
    before: Seq<Seq<u8>>,
    found: Seq<(StorePathView, FileTreeEntryView)>,
    orphans: Seq<FileTreeEntryView>,
)
    requires
        0 <= pos,
        all_stored(q, before, found, orphans),
    ensures
        match fill(q, stream, pos, found, orphans) {
            Ok((next, all_found, all_orphans)) => all_stored(
                q,
                before + records_between(stream, pos, next),
                all_found,
                all_orphans,
            ),
            Err(_) => true,
        },
    decreases stream.len() - pos,
{
    if found.len() > 0 {
        assert(before + records_between(stream, pos, pos) =~= before);
    } else {
        match next_buffer(stream, pos) {
            Err(_) => {},
            Ok((block, next)) => {
                if block.len() == 0 {
                    assert(before + records_between(stream, pos, pos) =~= before);
                } else {
                    lemma_empty_buffer_is_end(stream, pos);
                    lemma_records_end(stream, pos + 1, Seq::empty());
                    lemma_decoded_records_valid(stream, pos + 1, Seq::empty());
                    let records = decode_block(stream, pos)->Ok_0.0;
                    lemma_block_keeps_stored(q, before, records, found, orphans);
                    if let Ok((found1, orphans1)) = process_block(q, block, found, orphans) {
                        lemma_fill_keeps_stored(q, stream, next, before + records, found1, orphans1);
                        if let Ok((last, _, _)) = fill(q, stream, next, found1, orphans1) {
                            lemma_fill_advances(q, stream, next, found1, orphans1);
                            assert(before + records + records_between(stream, next, last)
                                =~= before + records_between(stream, pos, last));
                        }
                    }
                }
            },
        }
    }
}

/// From the start of a stream, with nothing found and nothing waiting,
/// the search finds only files of the records that it went through, each
/// with its owner.
pub proof fn lemma_search_finds_stored_files(q: QueryView, stream: Seq<u8>)
    ensures
        match fill(q, stream, 0, Seq::empty(), Seq::empty()) {
            Ok((next, found, orphans)) => all_stored(
                q,
                records_between(stream, 0, next),
                found,
                orphans,
            ),
            Err(_) => true,
        },
{
    let none = Seq::<Seq<u8>>::empty();
    lemma_fill_keeps_stored(q, stream, 0, none, Seq::empty(), Seq::empty());
    if let Ok((next, _, _)) = fill(q, stream, 0, Seq::empty(), Seq::empty()) {
        assert(none + records_between(stream, 0, next) =~= records_between(stream, 0, next));
    }
}

/// Every match is a file that was written, with its owner: in a stream
/// that was encoded from blocks of records, the search from its start
/// finds only files of those records, each with the package of the first
/// package record after it among all the records.
pub proof fn lemma_matches_are_written_files(q: QueryView, blocks: Seq<Seq<Seq<u8>>>)
    requires
        valid_blocks(blocks),
    ensures
        match fill(q, encode_stream(blocks), 0, Seq::empty(), Seq::empty()) {
            Ok((_, found, _)) => forall|k: int|
                0 <= k < found.len() ==> is_stored_with_owner(
                    q,
                    blocks.flatten(),
                    #[trigger] found[k],
                ),
            Err(_) => true,
        },
{
    let stream = encode_stream(blocks);
    lemma_decode_inverts_encode(blocks);
    lemma_search_finds_stored_files(q, stream);
    if let Ok((next, found, orphans)) = fill(q, stream, 0, Seq::empty(), Seq::empty()) {
        lemma_records_between_is_prefix(stream, 0, next);
        let searched = records_between(stream, 0, next);
        let rest = choose|rest: Seq<Seq<u8>>| #[trigger] (searched + rest) == blocks.flatten();
        assert forall|k: int| 0 <= k < found.len() implies is_stored_with_owner(
            q,
            blocks.flatten(),
            #[trigger] found[k],
        ) by {
            lemma_hit_stays(q, searched, rest, found[k]);
        }
    }
}

/// The query without its bounds on the package.
pub open spec fn unbounded(q: QueryView) -> QueryView {
    QueryView { scan: q.scan, exact: q.exact, name: None, hash: None }
}

/// The bounds on the package are intersected: a file with its owner is a
/// match of a query exactly when it is a match of the query without its
/// bounds, the name of the owner matches the pattern for names, where
/// there is one, and the owner has the wanted hash, where there is one.
pub proof fn lemma_bounds_are_intersected(
    q: QueryView,
    records: Seq<Seq<u8>>,
    hit: (StorePathView, FileTreeEntryView),
)
    ensures
        is_stored_with_owner(q, records, hit) <==> {
            &&& is_stored_with_owner(unbounded(q), records, hit)
            &&& q.name is Some ==> regex_matches(q.name->0, encode_utf8(hit.0.name))
            &&& q.hash is Some ==> hit.0.hash == q.hash->0
        },
{
    let free = unbounded(q);
    if is_stored_with_owner(q, records, hit) {
        let (i, j) = choose|i: int, j: int| is_stored_hit(q, records, i, j, hit.0, hit.1);
        assert(is_stored_hit(free, records, i, j, hit.0, hit.1));
    }
    if is_stored_with_owner(free, records, hit) && passes(q, hit.0) {
        let (i, j) = choose|i: int, j: int| is_stored_hit(free, records, i, j, hit.0, hit.1);
        assert(is_stored_hit(q, records, i, j, hit.0, hit.1));
    }
}

/// Handing out the last match that was found leaves the others among the
/// stored files, and the match that is handed out is one of them.
pub proof fn lemma_next_match_is_stored(
    q: QueryView,
    records: Seq<Seq<u8>>,
    found: Seq<(StorePathView, FileTreeEntryView)>,
    orphans: Seq<FileTreeEntryView>,
)
    requires
        found.len() > 0,
        all_stored(q, records, found, orphans),
    ensures
        is_stored_with_owner(q, records, found.last()),
        all_stored(q, records, found.drop_last(), orphans),
{
    assert forall|k: int| 0 <= k < found.drop_last().len() implies is_stored_with_owner(
        q,
        records,
        #[trigger] found.drop_last()[k],
    ) by {
        assert(found.drop_last()[k] == found[k]);
    }
}

/// The search ends at or after the index where it began.
pub proof fn lemma_fill_advances(
    q: QueryView,
    stream: Seq<u8>,
    pos: int,
    found: Seq<(StorePathView, FileTreeEntryView)>,
    orphans: Seq<FileTreeEntryView>,
)
    requires
        0 <= pos,
    ensures
        match fill(q, stream, pos, found, orphans) {
            Ok((next, _, _)) => pos <= next,
            Err(_) => true,
        },
    decreases stream.len() - pos,
{
    if found.len() == 0 {
        if let Ok((block, next)) = next_buffer(stream, pos) {
            if block.len() > 0 {
                lemma_empty_buffer_is_end(stream, pos);
                lemma_records_end(stream, pos + 1, Seq::empty());
                if let Ok((found1, orphans1)) = process_block(q, block, found, orphans) {
                    lemma_fill_advances(q, stream, next, found1, orphans1);
                }
            }
        }
    }
}

/// The search of a block whose records can be read gives no error.
pub proof fn lemma_scan_gives_no_error(
    q: QueryView,
    records: Seq<Seq<u8>>,
    pos: int,
    found: Seq<(StorePathView, FileTreeEntryView)>,
    orphans: Seq<FileTreeEntryView>,
)
    requires
        valid_records(records),
        readable(records),
    ensures
        scan(q, join_records(records), pos, found, orphans) is Ok,
    decreases join_records(records).len() - pos,
{
    let block = join_records(records);
    match grep_line(q.scan, block, pos) {
        None => {},
        Some((first, end)) => {
            let record = record_at(block, first, end);
            if !is_line_after(block, pos, Some((first, end))) {
            } else if first == end || is_package_record(record) {
                lemma_scan_gives_no_error(q, records, end, found, orphans);
            } else {
                assert(is_line(block, first, end));
                lemma_line_is_record(records, first, end);
                let i = choose|i: int|
                    {
                        &&& 0 <= i < records.len()
                        &&& first == start_of(records, i)
                        &&& end == #[trigger] start_of(records, i + 1)
                        &&& record_at(block, first, end) == records[i]
                    };
                lemma_marker_is_package_record(records, i + 1);
                lemma_next_marker_bounds(block, end);
                match owner_at(block, end) {
                    Err(_) => {
                        let j = next_package(records, i + 1)->0;
                        assert(is_package_record(records[j]));
                        assert(false);
                    },
                    Ok(owner) => {
                        if let Some(after) = skip_to(q, owner) {
                            lemma_scan_gives_no_error(q, records, after, found, orphans);
                        } else {
                            assert(decode_entry(records[i]) is Some);
                            let entry = decode_entry(record)->0;
                            if !path_hit(q.exact, entry.path) {
                                lemma_scan_gives_no_error(q, records, end, found, orphans);
                            } else {
                                match owner {
                                    Some((package, _)) => {
                                        lemma_scan_gives_no_error(
                                            q,
                                            records,
                                            end,
                                            found.push((package, entry)),
                                            orphans,
                                        );
                                    },
                                    None => {
                                        lemma_scan_gives_no_error(
                                            q,
                                            records,
                                            end,
                                            found,
                                            orphans.push(entry),
                                        );
                                    },
                                }
                            }
                        }
                    },
                }
            }
        },
    }
}

/// The search of a whole block whose records can be read gives no error.
pub proof fn lemma_block_gives_no_error(
    q: QueryView,
    records: Seq<Seq<u8>>,
    found: Seq<(StorePathView, FileTreeEntryView)>,
    orphans: Seq<FileTreeEntryView>,
)
    requires
        valid_records(records),
        readable(records),
    ensures
        process_block(q, join_records(records), found, orphans) is Ok,
{
    let block = join_records(records);
    assert(records.subrange(0, 0) =~= Seq::<Seq<u8>>::empty());
    assert(start_of(records, 0) == 0);
    lemma_marker_is_package_record(records, 0);
    if orphans.len() > 0 {
        if let Some(j) = next_package(records, 0) {
            assert(is_package_record(records[j]));
        }
        assert(owner_at(block, 0) is Ok);
    }
    if let Ok((pos, found1, orphans1)) = attribute_orphans(q, block, found, orphans) {
        lemma_scan_gives_no_error(q, records, pos, found1, orphans1);
    }
}

/// The search of what was written gives no error. Where the stream from
/// `pos` on decodes to blocks, the records before and in them can be
/// read, the last of them is a package record, and what was found and
/// what waits are files of the records before `pos`: the search from
/// `pos` gives no error, it ends where some of the blocks are left to
/// decode, and what was found and what waits are files of the records
/// before those.
pub proof fn lemma_fill_gives_no_error(
    q: QueryView,
    stream: Seq<u8>,
    pos: int,
    before: Seq<Seq<u8>>,
    blocks: Seq<Seq<Seq<u8>>>,
    found: Seq<(StorePathView, FileTreeEntryView)>,
    orphans: Seq<FileTreeEntryView>,
)
    requires
        0 <= pos,
        decode_stream(stream, pos) == Ok::<Seq<Seq<Seq<u8>>>, crate::frcode::Error>(blocks),
        readable(before + blocks.flatten()),
        complete(before + blocks.flatten()),
        all_stored(q, before, found, orphans),
    ensures
        match fill(q, stream, pos, found, orphans) {
            Ok((next, all_found, all_orphans)) => exists|k: int|
                {
                    &&& 0 <= k <= blocks.len()
                    &&& pos <= next
                    &&& #[trigger] decode_stream(stream, next) == Ok::<
                        Seq<Seq<Seq<u8>>>,
                        crate::frcode::Error,
                    >(blocks.skip(k))
                    &&& all_stored(q, before + blocks.take(k).flatten(), all_found, all_orphans)
                },
            Err(_) => false,
        },
    decreases stream.len() - pos,
{
    let all = before + blocks.flatten();
    lemma_decoder_walks_blocks(stream, pos);
    if found.len() > 0 || blocks.len() == 0 {
        assert(blocks.skip(0) =~= blocks);
        assert(blocks.take(0) =~= Seq::<Seq<Seq<u8>>>::empty());
        assert(before + blocks.take(0).flatten() =~= before);
        if found.len() == 0 {
            assert(blocks.flatten() =~= Seq::<Seq<u8>>::empty());
            assert(all =~= before);
            if orphans.len() > 0 {
                let i = choose|i: int| is_stored_orphan(q, before, i, orphans[0]);
                assert(is_stored_waiting(q, before, orphans[0]));
                lemma_package_follows(before, i + 1, before.len() - 1);
                assert(false);
            }
        }
    } else {
        let records = blocks[0];
        let rest = blocks.drop_first();
        let block = join_records(records);
        let next = next_buffer(stream, pos)->Ok_0.1;
        lemma_records_end(stream, pos + 1, Seq::empty());
        lemma_decoded_records_valid(stream, pos + 1, Seq::empty());
        assert(decode_block(stream, pos)->Ok_0.0 == records);
        assert(blocks.flatten() == records + rest.flatten());
        assert(before + records + rest.flatten() =~= all);
        assert(readable(records)) by {
            assert forall|i: int| 0 <= i < records.len() implies if is_package_record(
                #[trigger] records[i],
            ) {
                parsed_store_path(records[i].subrange(2, records[i].len() as int)) is Some
            } else {
                decode_entry(records[i]) is Some
            } by {
                assert(all[before.len() + i] == records[i]);
            }
        }
        lemma_block_gives_no_error(q, records, found, orphans);
        lemma_block_keeps_stored(q, before, records, found, orphans);
        let (found1, orphans1) = process_block(q, block, found, orphans)->Ok_0;
        lemma_fill_gives_no_error(q, stream, next, before + records, rest, found1, orphans1);
        let (last, all_found, all_orphans) = fill(q, stream, next, found1, orphans1)->Ok_0;
        let k = choose|k: int|
            {
                &&& 0 <= k <= rest.len()
                &&& next <= last
                &&& #[trigger] decode_stream(stream, last) == Ok::<
                    Seq<Seq<Seq<u8>>>,
                    crate::frcode::Error,
                >(rest.skip(k))
                &&& all_stored(q, before + records + rest.take(k).flatten(), all_found, all_orphans)
            };
        assert(blocks.skip(k + 1) =~= rest.skip(k));
        assert(blocks.take(k + 1) =~= seq![records] + rest.take(k));
        assert(blocks.take(k + 1).drop_first() =~= rest.take(k));
        assert(blocks.take(k + 1).flatten() == records + rest.take(k).flatten());
        assert(before + blocks.take(k + 1).flatten() =~= before + records + rest.take(k).flatten());
    }
}

/// A search of a written database gives no error at its start: where the
/// records of the blocks can be read and the last of them is a package
/// record, as a writer leaves them, the search of their stream finds its
/// first match, or the end of the stream, without an error.
pub proof fn lemma_written_database_searches(q: QueryView, blocks: Seq<Seq<Seq<u8>>>)
    requires
        valid_blocks(blocks),
        readable(blocks.flatten()),
        complete(blocks.flatten()),
    ensures
        fill(q, encode_stream(blocks), 0, Seq::empty(), Seq::empty()) is Ok,
{
    lemma_decode_inverts_encode(blocks);
    let none = Seq::<Seq<u8>>::empty();
    assert(none + blocks.flatten() =~= blocks.flatten());
    lemma_fill_gives_no_error(
        q,
        encode_stream(blocks),
        0,
        none,
        blocks,
        Seq::empty(),
        Seq::empty(),
    );
}

/// What one step of a search gives.
pub enum Step {
    /// The next match.
    Found((StorePath, FileTreeEntry)),
    /// Nothing yet: more bytes of the stream are needed.
    NeedInput,
    /// Nothing more: the stream has ended.
    Done,
    /// An error, after which nothing more is given.
    Failed(DatabaseError),
}

/// A step as a mathematical value.
pub enum StepView {
    Found((StorePathView, FileTreeEntryView)),
    NeedInput,
    Done,
    Failed(DatabaseErrorView),
}

impl View for Step {
    type V = StepView;

    open spec fn view(&self) -> StepView {
        match *self {
            Step::Found(hit) => StepView::Found((hit.0@, hit.1@)),
            Step::NeedInput => StepView::NeedInput,
            Step::Done => StepView::Done,
            Step::Failed(e) => StepView::Failed(e@),
        }
    }
}

/// The state of a search of which the bytes arrive chunk by chunk: the
/// bytes that have arrived and were not searched, what was found and not
/// handed out, and what waits.
pub struct Arrived {
    pub buffer: Seq<u8>,
    pub found: Seq<(StorePathView, FileTreeEntryView)>,
    pub orphans: Seq<FileTreeEntryView>,
}

/// One step of the search of a stream of which the bytes of `buffer`
/// have arrived, where `ended` says that no more will come, with the state
/// that it leaves.
///
/// A match that was found is handed out. Else the first block is taken
/// from the buffer, if it is whole, and searched, and the step goes on
/// with what is left. Where no whole block has arrived, more bytes are
/// needed, unless the stream has ended: then the search is done, or has
/// failed where matches still wait. An error drops what was found and
/// what waits.
pub open spec fn stepped(
    q: QueryView,
    buffer: Seq<u8>,
    ended: bool,
    found: Seq<(StorePathView, FileTreeEntryView)>,
    orphans: Seq<FileTreeEntryView>,
) -> (StepView, Arrived)
    decreases buffer.len(),
    via stepped_decreases
{
    if found.len() > 0 {
        (StepView::Found(found.last()), Arrived { buffer, found: found.drop_last(), orphans })
    } else {
        match chunk_block(buffer, ended) {
            Err(e) => (
                StepView::Failed(DatabaseErrorView::Frcode(e)),
                Arrived { buffer, found: Seq::empty(), orphans: Seq::empty() },
            ),
            Ok(None) => if !ended {
                (StepView::NeedInput, Arrived { buffer, found, orphans })
            } else if orphans.len() > 0 {
                (
                    StepView::Failed(DatabaseErrorView::MissingPackageEntry),
                    Arrived { buffer, found: Seq::empty(), orphans: Seq::empty() },
                )
            } else {
                (StepView::Done, Arrived { buffer, found, orphans })
            },
            Ok(Some((block, next))) => {
                let rest = buffer.subrange(next, buffer.len() as int);
                match process_block(q, block, found, orphans) {
                    Err(e) => (
                        StepView::Failed(e),
                        Arrived { buffer: rest, found: Seq::empty(), orphans: Seq::empty() },
                    ),
                    Ok((found, orphans)) => stepped(q, rest, ended, found, orphans),
                }
            },
        }
    }
}

#[via_fn]
proof fn stepped_decreases(
    q: QueryView,
    buffer: Seq<u8>,
    ended: bool,
    found: Seq<(StorePathView, FileTreeEntryView)>,
    orphans: Seq<FileTreeEntryView>,
) {
    lemma_records_end(buffer, 1, Seq::empty());
}

/// The records of the blocks that one step takes from the buffer and
/// searches, in their order.
pub open spec fn stepped_records(
    q: QueryView,
    buffer: Seq<u8>,
    ended: bool,
    found: Seq<(StorePathView, FileTreeEntryView)>,
    orphans: Seq<FileTreeEntryView>,
) -> Seq<Seq<u8>>
    decreases buffer.len(),
    via stepped_records_decreases
{
    if found.len() > 0 {
        Seq::empty()
    } else {
        match (chunk_block(buffer, ended), decode_block(buffer, 0)) {
            (Ok(Some((block, next))), Ok((records, _))) => match process_block(
                q,
                block,
                found,
                orphans,
            ) {
                Err(_) => records,
                Ok((found, orphans)) => records + stepped_records(
                    q,
                    buffer.subrange(next, buffer.len() as int),
                    ended,
                    found,
                    orphans,
                ),
            },
            _ => Seq::empty(),
        }
    }
}

#[via_fn]
proof fn stepped_records_decreases(
    q: QueryView,
    buffer: Seq<u8>,
    ended: bool,
    found: Seq<(StorePathView, FileTreeEntryView)>,
    orphans: Seq<FileTreeEntryView>,
) {
    lemma_records_end(buffer, 1, Seq::empty());
}

/// A step hands out only stored files. Where what was found and what
/// waits are files of the records before, a step keeps them among the
/// files of those records and the records of the blocks that it took, and
/// the match that it hands out is one of them, with its owner.
pub proof fn lemma_step_keeps_stored(
    q: QueryView,
    buffer: Seq<u8>,
    ended: bool,
    before: Seq<Seq<u8>>,
    found: Seq<(StorePathView, FileTreeEntryView)>,
    orphans: Seq<FileTreeEntryView>,
)
    requires
        all_stored(q, before, found, orphans),
    ensures
        ({
            let (step, arrived) = stepped(q, buffer, ended, found, orphans);
            let records = before + stepped_records(q, buffer, ended, found, orphans);
            &&& all_stored(q, records, arrived.found, arrived.orphans)
            &&& match step {
                StepView::Found(hit) => is_stored_with_owner(q, records, hit),
                _ => true,
            }
        }),
    decreases buffer.len(),
{
    let none = Seq::<Seq<u8>>::empty();
    assert(before + none =~= before);
    if found.len() > 0 {
        lemma_next_match_is_stored(q, before, found, orphans);
    } else {
        match chunk_block(buffer, ended) {
            Ok(Some((block, next))) => {
                lemma_records_end(buffer, 1, Seq::empty());
                lemma_decoded_records_valid(buffer, 1, Seq::empty());
                let records = decode_block(buffer, 0)->Ok_0.0;
                lemma_block_keeps_stored(q, before, records, found, orphans);
                match process_block(q, block, found, orphans) {
                    Err(_) => {},
                    Ok((found1, orphans1)) => {
                        let rest = buffer.subrange(next, buffer.len() as int);
                        lemma_step_keeps_stored(q, rest, ended, before + records, found1, orphans1);
                        assert(before + records + stepped_records(q, rest, ended, found1, orphans1)
                            =~= before + (records + stepped_records(
                            q,
                            rest,
                            ended,
                            found1,
                            orphans1,
                        )));
                    },
                }
            },
            _ => {},
        }
    }
}

/// Among the records of packages, a stored file with its owner is a file
/// of one of the packages with the store path of that package: the file
/// is read back from its record as it was added, and the first package
/// record after it is that of its package.
pub proof fn lemma_stored_hit_was_added(
    q: QueryView,
    packages: Seq<(StorePathView, Seq<FileTreeEntryView>)>,
    hit: (StorePathView, FileTreeEntryView),
)
    requires
        all_storable(packages),
        is_stored_with_owner(q, database_records(packages), hit),
    ensures
        was_added(packages, hit),
    decreases packages.len(),
{
    let all = database_records(packages);
    let (i, j) = choose|i: int, j: int| is_stored_hit(q, all, i, j, hit.0, hit.1);
    if packages.len() == 0 {
        assert(false);
    } else {
        let earlier_packages = packages.drop_last();
        let earlier = database_records(earlier_packages);
        let package = packages.last();
        let entries = package.1;
        let later = package_records(package);
        assert(storable(package));
        assert(all == earlier + later);
        if i < earlier.len() {
            assert(all[i] == earlier[i]);
            lemma_database_records_complete(earlier_packages);
            lemma_package_follows(earlier, i + 1, earlier.len() - 1);
            lemma_next_package_bounds(earlier, i + 1);
            lemma_next_package_in_prefix(earlier, later, i + 1);
            assert(all[j] == earlier[j]);
            assert(is_stored_hit(q, earlier, i, j, hit.0, hit.1));
            assert(all_storable(earlier_packages)) by {
                assert forall|k: int| 0 <= k < earlier_packages.len() implies storable(
                    #[trigger] earlier_packages[k],
                ) by {
                    assert(earlier_packages[k] == packages[k]);
                }
            }
            lemma_stored_hit_was_added(q, earlier_packages, hit);
            let (k, m) = choose|k: int, m: int|
                0 <= k < earlier_packages.len() && 0 <= m < earlier_packages[k].1.len()
                    && #[trigger] earlier_packages[k].1[m] == hit.1 && earlier_packages[k].0
                    == hit.0;
            assert(packages[k] == earlier_packages[k]);
            assert(packages[k].1[m] == hit.1);
        } else {
            let at = i - earlier.len();
            let last = entries.len() as int;
            assert(all[i] == later[at]);
            assert(later[last] == package_record(store_path_json(package.0)));
            assert(is_package_record(later[last]));
            assert(at < last);
            assert(later[at] == encode_entry(entries[at]));
            assert(crate::files::valid_entry(entries[at]));
            crate::files::lemma_decode_inverts_encode(entries[at]);
            lemma_first_package_is_last(entries, package.0, at + 1);
            lemma_next_package_in_suffix(earlier, later, at + 1);
            assert(j == earlier.len() + last);
            assert(all[j] == later[last]);
            assert(later[last].subrange(2, later[last].len() as int) =~= store_path_json(
                package.0,
            ));
            let k = packages.len() - 1;
            assert(packages[k].1[at] == hit.1);
        }
    }
}

/// Among the records of one package the first package record is the last
/// record.
proof fn lemma_first_package_is_last(
    entries: Seq<FileTreeEntryView>,
    path: StorePathView,
    from: int,
)
    requires
        crate::files::valid_entries(entries),
        0 <= from <= entries.len(),
    ensures
        next_package(package_records((path, entries)), from) == Some(entries.len() as int),
    decreases entries.len() - from,
{
    let records = package_records((path, entries));
    if from < entries.len() {
        assert(records[from] == encode_entry(entries[from]));
        assert(crate::files::valid_entry(entries[from]));
        crate::files::lemma_decode_inverts_encode(entries[from]);
        lemma_first_package_is_last(entries, path, from + 1);
    } else {
        assert(is_package_record(records[from]));
    }
}

/// What is found was added. In the database of packages that can be
/// written and read, the search from the start finds only files of those
/// packages, each with the store path of its package, its path a match
/// of the pattern for paths.
pub proof fn lemma_matches_were_added(
    q: QueryView,
    blocks: Seq<Seq<Seq<u8>>>,
    packages: Seq<(StorePathView, Seq<FileTreeEntryView>)>,
)
    requires
        valid_blocks(blocks),
        blocks.flatten() == database_records(packages),
        all_storable(packages),
    ensures
        match fill(q, encode_stream(blocks), 0, Seq::empty(), Seq::empty()) {
            Ok((_, found, _)) => forall|k: int|
                0 <= k < found.len() ==> was_added(packages, #[trigger] found[k])
                    && path_hit(q.exact, found[k].1.path) && passes(q, found[k].0),
            Err(_) => true,
        },
{
    lemma_matches_are_written_files(q, blocks);
    if let Ok((_, found, _)) = fill(q, encode_stream(blocks), 0, Seq::empty(), Seq::empty()) {
        assert forall|k: int| 0 <= k < found.len() implies was_added(
            packages,
            #[trigger] found[k],
        ) && path_hit(q.exact, found[k].1.path) && passes(q, found[k].0) by {
            lemma_stored_hit_was_added(q, packages, found[k]);
            let (i, j) = choose|i: int, j: int|
                is_stored_hit(q, blocks.flatten(), i, j, found[k].0, found[k].1);
        }
    }
}

/// The views of a list of matches.
pub open spec fn found_views(found: Seq<(StorePath, FileTreeEntry)>) -> Seq<
    (StorePathView, FileTreeEntryView),
> {
    Seq::new(found.len(), |i: int| (found[i].0@, found[i].1@))
}

/// The package that was looked up last in a block, so that the files of
/// one package pay for one lookup.
struct PackageCache {
    package: Option<(StorePath, usize)>,
    no_more: bool,
}

impl PackageCache {
    /// Whether what is remembered holds for every line start from `from`
    /// on: before the end of the remembered record the owner is the
    /// remembered package, and when no record is left there is no owner.
    spec fn valid(&self, block: Seq<u8>, from: int) -> bool {
        &&& match self.package {
            Some((package, end)) => forall|p: int|
                from <= p < end && #[trigger] line_start(block, p) ==> owner_at(block, p) == Ok::<
                    Option<(StorePathView, int)>,
                    DatabaseErrorView,
                >(Some((package@, end as int))),
            None => true,
        }
        &&& self.no_more ==> forall|p: int|
            from <= p && #[trigger] line_start(block, p) ==> owner_at(block, p) == Ok::<
                Option<(StorePathView, int)>,
                DatabaseErrorView,
            >(None)
    }

    fn new() -> (cache: PackageCache)
        ensures
            forall|block: Seq<u8>, from: int| cache.valid(block, from),
    {
        PackageCache { package: None, no_more: false }
    }

    /// Finds the owner of a file whose line ends at `pos`.
    fn lookup(&mut self, block: &[u8], pos: usize) -> (r: Result<
        Option<(StorePath, usize)>,
        DatabaseError,
    >)
        requires
            pos <= block@.len(),
            line_start(block@, pos as int) || pos == block@.len(),
            old(self).valid(block@, pos as int),
        ensures
            is_owner(r, owner_at(block@, pos as int)),
            final(self).valid(block@, pos as int),
    {
        if pos >= block.len() {
            return Ok(None);
        }
        match &self.package {
            Some(known) => {
                if pos < known.1 {
                    return Ok(Some((known.0.clone(), known.1)));
                }
            },
            None => {},
        }
        if self.no_more {
            return Ok(None);
        }
        let r = find_package(block, pos);
        match &r {
            Ok(Some(owner)) => {
                proof {
                    assert forall|p: int|
                        pos <= p < owner.1 && #[trigger] line_start(block@, p) implies owner_at(
                        block@,
                        p,
                    ) == owner_at(block@, pos as int) by {
                        lemma_marker_stable(block@, pos as int, p);
                    }
                }
                self.package = Some((owner.0.clone(), owner.1));
            },
            Ok(None) => {
                proof {
                    assert forall|p: int|
                        pos <= p && #[trigger] line_start(block@, p) implies owner_at(block@, p)
                        == owner_at(block@, pos as int) by {
                        lemma_no_marker_stable(block@, pos as int, p);
                    }
                }
                self.no_more = true;
            },
            Err(_) => {},
        }
        r
    }
}

/// The matches of a query, one at a time.
pub struct ReaderIter<'a, 'b> {
    reader: Reader,
    found: Vec<(StorePath, FileTreeEntry)>,
    found_without_package: Vec<FileTreeEntry>,
    pattern: LineSearcher,
    exact_pattern: &'a PathPattern,
    package_name_pattern: Option<&'b PathPattern>,
    package_hash: Option<String>,
    failed: bool,
}

impl<'a, 'b> ReaderIter<'a, 'b> {
    /// What the query looks for.
    pub closed spec fn query(&self) -> QueryView {
        QueryView {
            scan: self.pattern@,
            exact: self.exact_pattern@,
            name: pattern_text(self.package_name_pattern),
            hash: text_of(self.package_hash),
        }
    }

    /// The front-coded stream that is searched.
    pub closed spec fn stream(&self) -> Seq<u8> {
        self.reader.stream()
    }

    /// The index in the stream of the first block that was not searched.
    pub closed spec fn position(&self) -> nat {
        self.reader.position()
    }

    /// The matches that were found and not yet handed out.
    pub closed spec fn found(&self) -> Seq<(StorePathView, FileTreeEntryView)> {
        found_views(self.found@)
    }

    /// The matches that wait for their package.
    pub closed spec fn orphans(&self) -> Seq<FileTreeEntryView> {
        crate::files::entry_views(self.found_without_package@)
    }

    /// Whether an error was handed out, after which nothing more is.
    pub closed spec fn failed(&self) -> bool {
        self.failed
    }

    /// Gives the waiting matches to `package`.
    fn adopt_orphans(&mut self, package: &StorePath)
        ensures
            final(self).query() == old(self).query(),
            final(self).stream() == old(self).stream(),
            final(self).position() == old(self).position(),
            final(self).failed() == old(self).failed(),
            final(self).found() == old(self).found() + owned_by(package@, old(self).orphans()),
            final(self).orphans() == Seq::<FileTreeEntryView>::empty(),
    {
        let mut waiting = self.found_without_package.split_off(0);
        let ghost all = waiting@;
        let ghost before = self.found@;
        assert(all =~= old(self).found_without_package@);
        let n = waiting.len();
        let mut i: usize = 0;
        // The entries are moved from the back, so they are collected first
        // and then pushed in their order.
        let mut reversed: Vec<FileTreeEntry> = Vec::new();
        while i < n
            invariant
                n == all.len(),
                i <= n,
                waiting@ == all.subrange(0, n - i),
                reversed@.len() == i,
                forall|k: int| 0 <= k < i ==> reversed@[k] == all[n - 1 - k],
            decreases n - i,
        {
            let entry = waiting.pop().unwrap();
            reversed.push(entry);
            i += 1;
        }
        let mut j: usize = 0;
        while j < n
            invariant
                n == all.len(),
                j <= n,
                reversed@.len() == n - j,
                forall|k: int| 0 <= k < n - j ==> reversed@[k] == all[n - 1 - k],
                self.found@.len() == before.len() + j,
                forall|k: int| 0 <= k < before.len() ==> self.found@[k] == before[k],
                forall|k: int|
                    0 <= k < j ==> (#[trigger] self.found@[before.len() + k]).0@ == package@
                        && self.found@[before.len() + k].1 == all[k],
                self.found_without_package@.len() == 0,
                self.pattern == old(self).pattern,
                self.exact_pattern == old(self).exact_pattern,
                self.package_name_pattern == old(self).package_name_pattern,
                self.package_hash == old(self).package_hash,
                self.reader == old(self).reader,
                self.failed == old(self).failed,
            decreases n - j,
        {
            let entry = reversed.pop().unwrap();
            self.found.push((package.clone(), entry));
            j += 1;
        }
        proof {
            let joined = old(self).found() + owned_by(package@, old(self).orphans());
            assert(self.found().len() == joined.len());
            assert forall|k: int| 0 <= k < joined.len() implies self.found()[k] == joined[k] by {
                if k >= before.len() {
                    let at = k - before.len();
                    assert(self.found@[before.len() + at].0@ == package@);
                }
            }
            assert(self.found() =~= joined);
            assert(self.orphans() =~= Seq::<FileTreeEntryView>::empty());
        }
    }

    /// Searches one decoded block: the waiting matches meet the first
    /// package of the block, and the matches of the block are added to what
    /// was found or to what waits. An error ends the search: what was found
    /// and what waits is dropped.
    fn scan_block(&mut self, block: &[u8]) -> (r: Result<(), DatabaseError>)
        ensures
            final(self).query() == old(self).query(),
            final(self).stream() == old(self).stream(),
            final(self).position() == old(self).position(),
            match process_block(old(self).query(), block@, old(self).found(), old(self).orphans()) {
                Ok((found, orphans)) => {
                    &&& r is Ok
                    &&& final(self).failed() == old(self).failed()
                    &&& final(self).found() == found
                    &&& final(self).orphans() == orphans
                },
                Err(e) => {
                    &&& r is Err && r->Err_0@ == e
                    &&& final(self).failed()
                    &&& final(self).found() == Seq::<(StorePathView, FileTreeEntryView)>::empty()
                    &&& final(self).orphans() == Seq::<FileTreeEntryView>::empty()
                },
            },
    {
        let ghost q = self.query();
        let ghost target = process_block(q, block@, self.found(), self.orphans());
        let mut cache = PackageCache::new();
        let mut pos: usize = 0;
        if self.found_without_package.len() > 0 {
            match cache.lookup(block, 0) {
                Err(e) => {
                    self.fail();
                    return Err(e);
                },
                Ok(None) => {},
                Ok(Some((package, end))) => {
                    proof {
                        lemma_next_marker_bounds(block@, 0);
                    }
                    if self.should_search_package(&package) {
                        self.adopt_orphans(&package);
                    } else {
                        pos = end;
                        self.found_without_package.clear();
                        assert(self.orphans() =~= Seq::<FileTreeEntryView>::empty());
                    }
                },
            }
        }
        loop
            invariant
                pos <= block@.len(),
                line_start(block@, pos as int) || pos == block@.len(),
                cache.valid(block@, pos as int),
                self.query() == q,
                q == old(self).query(),
                self.stream() == old(self).stream(),
                self.position() == old(self).position(),
                self.failed() == old(self).failed(),
                target == process_block(q, block@, old(self).found(), old(self).orphans()),
                scan(q, block@, pos as int, self.found(), self.orphans()) == target,
            decreases block@.len() - pos,
        {
            let line = next_line(&self.pattern, block, pos);
            let (first, end) = match line {
                None => {
                    return Ok(());
                },
                Some(line) => line,
            };
            let record = take_record(block, first, end);
            if first == end || (record.len() >= 2 && record[0] == PACKAGE_TAG && record[1] == NUL) {
                pos = end;
            } else {
                let owner = match cache.lookup(block, end) {
                    Err(e) => {
                        self.fail();
                        return Err(e);
                    },
                    Ok(owner) => owner,
                };
                let skip = match &owner {
                    Some(known) => {
                        if self.should_search_package(&known.0) {
                            None
                        } else {
                            Some(known.1)
                        }
                    },
                    None => None,
                };
                match skip {
                    Some(after) => {
                        proof {
                            lemma_next_marker_bounds(block@, end as int);
                        }
                        pos = after;
                    },
                    None => {
                        let entry = match FileTreeEntry::decode(record) {
                            None => {
                                self.fail();
                                return Err(DatabaseError::EntryParse(slice_to_vec(record)));
                            },
                            Some(entry) => entry,
                        };
                        if is_match(self.exact_pattern, entry.path.as_slice())
                            && has_nonempty_match(self.exact_pattern, entry.path.as_slice()) {
                            let ghost found = self.found();
                            let ghost orphans = self.orphans();
                            match owner {
                                Some((package, _)) => {
                                    let ghost pair = (package@, entry@);
                                    self.found.push((package, entry));
                                    assert(self.found() =~= found.push(pair));
                                },
                                None => {
                                    let ghost view = entry@;
                                    self.found_without_package.push(entry);
                                    assert(self.orphans() =~= orphans.push(view));
                                },
                            }
                        }
                        pos = end;
                    },
                }
            }
        }
    }

    /// Searches block after block until a match is found or the stream
    /// ends. An error ends the search: what was found and what waits is
    /// dropped.
    fn fill_buf(&mut self) -> (r: Result<(), DatabaseError>)
        ensures
            final(self).query() == old(self).query(),
            final(self).stream() == old(self).stream(),
            r is Ok ==> final(self).failed() == old(self).failed(),
            r is Err ==> {
                &&& final(self).failed()
                &&& final(self).found() == Seq::<(StorePathView, FileTreeEntryView)>::empty()
                &&& final(self).orphans() == Seq::<FileTreeEntryView>::empty()
            },
            old(self).position() <= final(self).position(),
            match fill(
                old(self).query(),
                old(self).stream(),
                old(self).position() as int,
                old(self).found(),
                old(self).orphans(),
            ) {
                Ok((pos, found, orphans)) => {
                    &&& r is Ok
                    &&& final(self).position() == pos
                    &&& final(self).found() == found
                    &&& final(self).orphans() == orphans
                },
                Err(e) => r is Err && r->Err_0@ == e,
            },
    {
        let ghost q = self.query();
        let ghost stream = self.stream();
        let ghost target = fill(q, stream, self.position() as int, self.found(), self.orphans());
        while self.found.len() == 0
            invariant
                self.query() == q,
                q == old(self).query(),
                self.stream() == stream,
                stream == old(self).stream(),
                self.failed() == old(self).failed(),
                old(self).position() <= self.position(),
                target == fill(
                    q,
                    stream,
                    old(self).position() as int,
                    old(self).found(),
                    old(self).orphans(),
                ),
                fill(q, stream, self.position() as int, self.found(), self.orphans()) == target,
            decreases stream.len() - self.position(),
        {
            let ghost pos = self.position() as int;
            proof {
                lemma_records_end(stream, pos + 1, Seq::empty());
                lemma_empty_buffer_is_end(stream, pos);
            }
            let block = match self.reader.next_block() {
                Err(e) => {
                    self.fail();
                    return Err(DatabaseError::Frcode(e));
                },
                Ok(block) => block,
            };
            if block.len() == 0 {
                if self.found_without_package.len() > 0 {
                    self.fail();
                    return Err(DatabaseError::MissingPackageEntry);
                }
                return Ok(());
            }
            match self.scan_block(block.as_slice()) {
                Err(e) => {
                    return Err(e);
                },
                Ok(()) => {},
            }
        }
        Ok(())
    }

    /// Gives the next match, or nothing when the stream holds no more. An
    /// error ends the search: what was found and what waits is dropped, and
    /// nothing more is given. So after an error no match is at hand.
    pub fn next_match(&mut self) -> (r: Result<Option<(StorePath, FileTreeEntry)>, DatabaseError>)
        ensures
            final(self).query() == old(self).query(),
            final(self).stream() == old(self).stream(),
            old(self).position() <= final(self).position(),
            final(self).failed() ==> final(self).found() == Seq::<(StorePathView, FileTreeEntryView)>::empty() && final(self).orphans()
                == Seq::<FileTreeEntryView>::empty(),
            old(self).failed() ==> {
                &&& r is Ok && r->Ok_0 is None
                &&& final(self).failed()
                &&& final(self).position() == old(self).position()
            },
            !old(self).failed() ==> match fill(
                old(self).query(),
                old(self).stream(),
                old(self).position() as int,
                old(self).found(),
                old(self).orphans(),
            ) {
                Ok((pos, found, orphans)) => {
                    &&& !final(self).failed()
                    &&& final(self).position() == pos
                    &&& final(self).orphans() == orphans
                    &&& match r {
                        Ok(Some(hit)) => found.len() > 0 && (hit.0@, hit.1@) == found.last()
                            && final(self).found() == found.drop_last(),
                        Ok(None) => found.len() == 0 && final(self).found() == found,
                        Err(_) => false,
                    }
                },
                Err(e) => {
                    &&& r is Err && r->Err_0@ == e
                    &&& final(self).failed()
                    &&& final(self).found() == Seq::<(StorePathView, FileTreeEntryView)>::empty()
                    &&& final(self).orphans() == Seq::<FileTreeEntryView>::empty()
                },
            },
    {
        if self.failed {
            self.fail();
            return Ok(None);
        }
        match self.fill_buf() {
            Err(e) => Err(e),
            Ok(()) => {
                let ghost found = self.found();
                let hit = self.found.pop();
                proof {
                    if found.len() > 0 {
                        assert(self.found() =~= found.drop_last());
                    } else {
                        assert(self.found() =~= found);
                    }
                }
                Ok(hit)
            },
        }
    }

    /// Gives the next match of the query, an error, or nothing when there
    /// is no more. After an error nothing more is given.
    pub fn next(&mut self) -> (r: Option<Result<(StorePath, FileTreeEntry), DatabaseError>>)
        ensures
            final(self).query() == old(self).query(),
            final(self).stream() == old(self).stream(),
            old(self).position() <= final(self).position(),
            final(self).failed() ==> final(self).found() == Seq::<(StorePathView, FileTreeEntryView)>::empty() && final(self).orphans()
                == Seq::<FileTreeEntryView>::empty(),
            old(self).failed() ==> {
                &&& r is None
                &&& final(self).failed()
                &&& final(self).position() == old(self).position()
            },
            !old(self).failed() ==> match fill(
                old(self).query(),
                old(self).stream(),
                old(self).position() as int,
                old(self).found(),
                old(self).orphans(),
            ) {
                Ok((pos, found, orphans)) => {
                    &&& !final(self).failed()
                    &&& final(self).position() == pos
                    &&& final(self).orphans() == orphans
                    &&& match r {
                        Some(Ok(hit)) => found.len() > 0 && (hit.0@, hit.1@) == found.last()
                            && final(self).found() == found.drop_last(),
                        None => found.len() == 0 && final(self).found() == found,
                        Some(Err(_)) => false,
                    }
                },
                Err(e) => {
                    &&& r is Some && r->0 is Err && r->0->Err_0@ == e
                    &&& final(self).failed()
                    &&& final(self).found() == Seq::<(StorePathView, FileTreeEntryView)>::empty()
                    &&& final(self).orphans() == Seq::<FileTreeEntryView>::empty()
                },
            },
    {
        match self.next_match() {
            Err(e) => Some(Err(e)),
            Ok(None) => None,
            Ok(Some(hit)) => Some(Ok(hit)),
        }
    }

    /// Makes one step of the search of a stream whose bytes arrive chunk
    /// by chunk, as the caller reads them: `buffer` holds the bytes that
    /// have arrived and were not searched, and `ended` says that no more
    /// will come. The blocks that are whole are taken from the buffer and
    /// searched until a match is found. The reader of this search is not
    /// asked. After an error nothing more is given.
    pub fn step(&mut self, buffer: &mut Vec<u8>, ended: bool) -> (r: Step)
        ensures
            final(self).query() == old(self).query(),
            final(self).stream() == old(self).stream(),
            final(self).position() == old(self).position(),
            final(self).failed() ==> final(self).found() == Seq::<(StorePathView, FileTreeEntryView)>::empty() && final(self).orphans()
                == Seq::<FileTreeEntryView>::empty(),
            old(self).failed() ==> {
                &&& r@ == StepView::Done
                &&& final(self).failed()
                &&& final(buffer)@ == old(buffer)@
            },
            !old(self).failed() ==> {
                let (step, arrived) = stepped(
                    old(self).query(),
                    old(buffer)@,
                    ended,
                    old(self).found(),
                    old(self).orphans(),
                );
                &&& r@ == step
                &&& final(buffer)@ == arrived.buffer
                &&& final(self).found() == arrived.found
                &&& final(self).orphans() == arrived.orphans
                &&& final(self).failed() == (step is Failed)
            },
    {
        if self.failed {
            self.fail();
            return Step::Done;
        }
        let ghost q = self.query();
        let ghost target = stepped(q, buffer@, ended, self.found(), self.orphans());
        loop
            invariant
                self.query() == q,
                q == old(self).query(),
                self.stream() == old(self).stream(),
                self.position() == old(self).position(),
                !self.failed,
                !old(self).failed(),
                target == stepped(
                    q,
                    old(buffer)@,
                    ended,
                    old(self).found(),
                    old(self).orphans(),
                ),
                stepped(q, buffer@, ended, self.found(), self.orphans()) == target,
            decreases buffer@.len(),
        {
            if self.found.len() > 0 {
                let ghost found = self.found();
                let hit = self.found.pop().unwrap();
                proof {
                    assert(self.found() =~= found.drop_last());
                    assert((hit.0@, hit.1@) == found.last());
                }
                return Step::Found(hit);
            }
            proof {
                lemma_records_end(buffer@, 1, Seq::empty());
            }
            let taken = match take_block(buffer, ended) {
                Err(e) => {
                    self.fail();
                    return Step::Failed(DatabaseError::Frcode(e));
                },
                Ok(taken) => taken,
            };
            let block = match taken {
                None => {
                    if !ended {
                        return Step::NeedInput;
                    }
                    if self.found_without_package.len() > 0 {
                        self.fail();
                        return Step::Failed(DatabaseError::MissingPackageEntry);
                    }
                    return Step::Done;
                },
                Some(block) => block,
            };
            match self.scan_block(block.as_slice()) {
                Err(e) => {
                    return Step::Failed(e);
                },
                Ok(()) => {},
            }
        }
    }

    /// Ends the search after an error: what was found and what waits is
    /// dropped.
    fn fail(&mut self)
        ensures
            final(self).query() == old(self).query(),
            final(self).stream() == old(self).stream(),
            final(self).position() == old(self).position(),
            final(self).failed(),
            final(self).found() == Seq::<(StorePathView, FileTreeEntryView)>::empty(),
            final(self).orphans() == Seq::<FileTreeEntryView>::empty(),
    {
        self.failed = true;
        self.found.clear();
        self.found_without_package.clear();
        proof {
            assert(self.found() =~= Seq::<(StorePathView, FileTreeEntryView)>::empty());
            assert(self.orphans() =~= Seq::<FileTreeEntryView>::empty());
        }
    }

    /// Tests whether the files of `package` are wanted.
    fn should_search_package(&self, package: &StorePath) -> (wanted: bool)
        ensures
            wanted == passes(self.query(), package@),
    {
        let name_matches = match self.package_name_pattern {
            Some(pattern) => is_match(pattern, package.name().as_bytes()),
            None => true,
        };
        let hash_matches = match &self.package_hash {
            Some(hash) => package.has_hash(hash),
            None => true,
        };
        name_matches && hash_matches
    }
}

/// A query that has not begun: the database, the pattern for paths, and
/// the bounds on the package.
pub struct Query<'a, 'b> {
    reader: Reader,
    exact_regex: &'a PathPattern,
    hash: Option<String>,
    package_pattern: Option<&'b PathPattern>,
}

/// The text of an optional string.
pub open spec fn text_of(s: Option<String>) -> Option<Seq<char>> {
    match s {
        Some(s) => Some(s@),
        None => None,
    }
}

/// The text of an optional pattern.
pub open spec fn pattern_text(pattern: Option<&PathPattern>) -> Option<Seq<char>> {
    match pattern {
        Some(pattern) => Some(pattern@),
        None => None,
    }
}

impl Reader {
    /// Begins a query for the files whose path matches `exact_regex`, in
    /// any package.
    pub fn query<'a, 'b>(self, exact_regex: &'a PathPattern) -> (q: Query<'a, 'b>)
        ensures
            q.stream() == self.stream(),
            q.position() == self.position(),
            q.exact() == exact_regex@,
            q.hash_bound() is None,
            q.name_bound() is None,
    {
        Query { reader: self, exact_regex, hash: None, package_pattern: None }
    }
}

impl<'a, 'b> Query<'a, 'b> {
    /// The front-coded stream that will be searched.
    pub closed spec fn stream(&self) -> Seq<u8> {
        self.reader.stream()
    }

    /// The index in the stream where the search will begin.
    pub closed spec fn position(&self) -> nat {
        self.reader.position()
    }

    /// The pattern that the path of a file has to match.
    pub closed spec fn exact(&self) -> Seq<char> {
        self.exact_regex@
    }

    /// The hash that a package has to have, if any.
    pub closed spec fn hash_bound(&self) -> Option<Seq<char>> {
        text_of(self.hash)
    }

    /// The pattern that the name of a package has to match, if any.
    pub closed spec fn name_bound(&self) -> Option<Seq<char>> {
        pattern_text(self.package_pattern)
    }

    /// Whether `iter` is this query at its start, searching with `scan`.
    pub open spec fn begun_as(&self, iter: ReaderIter<'a, 'b>, scan: Seq<char>) -> bool {
        &&& iter.query().scan == scan
        &&& iter.query().exact == self.exact()
        &&& iter.query().name == self.name_bound()
        &&& iter.query().hash == self.hash_bound()
        &&& iter.stream() == self.stream()
        &&& iter.position() == self.position()
        &&& iter.found() == Seq::<(StorePathView, FileTreeEntryView)>::empty()
        &&& iter.orphans() == Seq::<FileTreeEntryView>::empty()
        &&& !iter.failed()
    }

    /// Limits the matches to the package with the given hash, or lifts
    /// that limit.
    pub fn hash(self, hash: Option<String>) -> (q: Query<'a, 'b>)
        ensures
            q.hash_bound() == text_of(hash),
            q.stream() == self.stream(),
            q.position() == self.position(),
            q.exact() == self.exact(),
            q.name_bound() == self.name_bound(),
    {
        Query {
            reader: self.reader,
            exact_regex: self.exact_regex,
            hash,
            package_pattern: self.package_pattern,
        }
    }

    /// Limits the matches to the packages whose name matches the given
    /// pattern, or lifts that limit.
    pub fn package_pattern(self, package_pattern: Option<&'b PathPattern>) -> (q: Query<'a, 'b>)
        ensures
            q.name_bound() == pattern_text(package_pattern),
            q.stream() == self.stream(),
            q.position() == self.position(),
            q.exact() == self.exact(),
            q.hash_bound() == self.hash_bound(),
    {
        Query {
            reader: self.reader,
            exact_regex: self.exact_regex,
            hash: self.hash,
            package_pattern,
        }
    }

    /// Begins the search with the searcher that was built for the pattern
    /// for records, or reports that none could be built.
    pub fn start(self, built: Result<LineSearcher, String>) -> (r: Result<
        ReaderIter<'a, 'b>,
        DatabaseError,
    >)
        ensures
            match built {
                Ok(searcher) => r is Ok && self.begun_as(r->Ok_0, searcher@),
                Err(_) => r is Err && r->Err_0@ == DatabaseErrorView::Grep,
            },
    {
        match built {
            Err(message) => Err(DatabaseError::Grep(message)),
            Ok(searcher) => {
                let iter = ReaderIter {
                    reader: self.reader,
                    found: Vec::new(),
                    found_without_package: Vec::new(),
                    pattern: searcher,
                    exact_pattern: self.exact_regex,
                    package_name_pattern: self.package_pattern,
                    package_hash: self.hash,
                    failed: false,
                };
                proof {
                    assert(iter.found() =~= Seq::<(StorePathView, FileTreeEntryView)>::empty());
                    assert(iter.orphans() =~= Seq::<FileTreeEntryView>::empty());
                }
                Ok(iter)
            },
        }
    }

    /// Runs the query. The records are searched with the pattern for
    /// paths in which every anchor at the start of the text has become a
    /// zero byte. Fails when that pattern cannot be made or compiled;
    /// nothing is read from the database before the first match is asked
    /// for.
    pub fn run(self) -> (r: Result<ReaderIter<'a, 'b>, DatabaseError>)
        ensures
            r is Ok <==> match scan_pattern(self.exact()) {
                Some(scan) => grep_builds(scan),
                None => false,
            },
            match r {
                Ok(iter) => match scan_pattern(self.exact()) {
                    Some(scan) => self.begun_as(iter, scan),
                    None => false,
                },
                Err(e) => e@ == DatabaseErrorView::Grep,
            },
    {
        match rewrite(self.exact_regex.source()) {
            None => Err(DatabaseError::Grep(self.exact_regex.source().to_owned())),
            Some(scan) => self.start(LineSearcher::new(scan)),
        }
    }
}

} // verus!
