//! The lines of a decoded block.
//!
//! The buffer of a block holds its records, each followed by a
//! terminator, so every line of the buffer is a record. A package record
//! begins with the tag `p` and a zero byte; the files before it, back to
//! the package record before, are its files.

use crate::database::{DatabaseError, DatabaseErrorView};
use crate::files::{is_package_record, NUL, PACKAGE_TAG};
use crate::frcode::{
    join_records, lemma_record_in_buffer, lemma_suffix_is_free, lemma_suffix_len, start_of,
    suffix_len, terminator_free, valid_records, TERMINATOR,
};
use crate::matcher::{is_line_after, line_start};
use crate::package::{parsed_store_path, StorePath, StorePathView};
use vstd::prelude::*;
use vstd::slice::{slice_subrange, slice_to_vec};

verus! {

/// The index after the line that holds `pos`: after its terminator, or
/// the length of `block` when no terminator follows.
pub open spec fn line_end(block: Seq<u8>, pos: int) -> int {
    let stop = pos + suffix_len(block, pos);
    if stop < block.len() {
        stop + 1
    } else {
        block.len() as int
    }
}

/// The bytes of the line from `first` to `end` without its terminator.
pub open spec fn record_at(block: Seq<u8>, first: int, end: int) -> Seq<u8> {
    if first < end && block[end - 1] == TERMINATOR {
        block.subrange(first, end - 1)
    } else {
        block.subrange(first, end)
    }
}

/// Whether a package record begins at `pos`.
pub open spec fn is_marker(block: Seq<u8>, pos: int) -> bool {
    0 <= pos && pos + 1 < block.len() && block[pos] == PACKAGE_TAG && block[pos + 1] == NUL
}

/// The first package record at or after the line that begins at `pos`:
/// the index of its first byte and the index after its line.
pub open spec fn next_marker(block: Seq<u8>, pos: int) -> Option<(int, int)>
    decreases block.len() - pos,
{
    if pos < 0 || pos >= block.len() {
        None
    } else if is_marker(block, pos) {
        Some((pos, line_end(block, pos)))
    } else {
        next_marker(block, line_end(block, pos))
    }
}

/// The package that owns a file whose line ends at `pos`: the store path
/// of the first package record from `pos` on, with the index after that
/// record; nothing when the block holds no such record; an error when the
/// record holds no store path.
pub open spec fn owner_at(block: Seq<u8>, pos: int) -> Result<
    Option<(StorePathView, int)>,
    DatabaseErrorView,
> {
    match next_marker(block, pos) {
        None => Ok(None),
        Some((first, end)) => {
            let record = record_at(block, first, end);
            let json = record.subrange(2, record.len() as int);
            match parsed_store_path(json) {
                Some(path) => Ok(Some((path, end))),
                None => Err(DatabaseErrorView::StorePathParse(json)),
            }
        },
    }
}

/// A line ends after the index where it is entered, and within the block.
pub proof fn lemma_line_end_bounds(block: Seq<u8>, pos: int)
    requires
        0 <= pos < block.len(),
    ensures
        pos < line_end(block, pos) <= block.len(),
        line_start(block, line_end(block, pos)) || line_end(block, pos) == block.len(),
        forall|i: int| pos <= i < line_end(block, pos) - 1 ==> block[i] != TERMINATOR,
{
    lemma_suffix_is_free(block, pos);
}

/// The package record that is found lies at or after the index from which
/// it was searched, on a line of its own.
pub proof fn lemma_next_marker_bounds(block: Seq<u8>, pos: int)
    ensures
        match next_marker(block, pos) {
            Some((first, end)) => {
                &&& 0 <= pos <= first < end <= block.len()
                &&& is_marker(block, first)
                &&& end == line_end(block, first)
                &&& line_start(block, end) || end == block.len()
            },
            None => true,
        },
    decreases block.len() - pos,
{
    if pos < 0 || pos >= block.len() {
    } else {
        lemma_line_end_bounds(block, pos);
        if !is_marker(block, pos) {
            lemma_next_marker_bounds(block, line_end(block, pos));
        }
    }
}

/// The line that is entered at `from` ends no later than any line that
/// begins after `from`.
proof fn lemma_line_ends_before_next_start(block: Seq<u8>, from: int, pos: int)
    requires
        0 <= from < pos <= block.len(),
        line_start(block, pos),
    ensures
        line_end(block, from) <= pos,
{
    lemma_suffix_is_free(block, from);
    let stop = from + suffix_len(block, from);
    if stop > pos - 1 {
        assert(block[pos - 1] != TERMINATOR);
    }
}

/// Searching from a later line start finds the same package record, as
/// long as that line start does not lie after the record.
pub proof fn lemma_marker_stable(block: Seq<u8>, from: int, pos: int)
    requires
        0 <= from <= pos,
        line_start(block, pos),
        match next_marker(block, from) {
            Some((first, end)) => pos < end,
            None => false,
        },
    ensures
        next_marker(block, pos) == next_marker(block, from),
    decreases block.len() - from,
{
    lemma_next_marker_bounds(block, from);
    let (first, end) = next_marker(block, from)->0;
    if from < pos {
        if is_marker(block, from) {
            // The record begins at `from`, and `pos` begins a line within it.
            lemma_line_end_bounds(block, from);
            assert(block[pos - 1] == TERMINATOR);
            assert(false);
        } else {
            lemma_line_ends_before_next_start(block, from, pos);
            lemma_marker_stable(block, line_end(block, from), pos);
        }
    }
}

/// Where no package record follows, none follows a later line start.
pub proof fn lemma_no_marker_stable(block: Seq<u8>, from: int, pos: int)
    requires
        0 <= from <= pos,
        line_start(block, pos),
        next_marker(block, from) is None,
    ensures
        next_marker(block, pos) is None,
    decreases block.len() - from,
{
    if from < pos && pos < block.len() {
        lemma_line_end_bounds(block, from);
        lemma_line_ends_before_next_start(block, from, pos);
        lemma_no_marker_stable(block, line_end(block, from), pos);
    }
}

/// Finds the index after the line that holds `pos`.
pub fn find_line_end(block: &[u8], pos: usize) -> (end: usize)
    requires
        pos <= block@.len(),
    ensures
        end == line_end(block@, pos as int),
        pos <= end <= block@.len(),
{
    let mut stop: usize = pos;
    while stop < block.len() && block[stop] != TERMINATOR
        invariant
            pos <= stop <= block@.len(),
            stop - pos + suffix_len(block@, stop as int) == suffix_len(block@, pos as int),
        decreases block.len() - stop,
    {
        stop += 1;
    }
    if stop < block.len() {
        stop + 1
    } else {
        stop
    }
}

/// Takes the line from `first` to `end` without its terminator.
pub fn take_record(block: &[u8], first: usize, end: usize) -> (record: &[u8])
    requires
        first <= end <= block@.len(),
    ensures
        record@ == record_at(block@, first as int, end as int),
{
    if first < end && block[end - 1] == TERMINATOR {
        slice_subrange(block, first, end - 1)
    } else {
        slice_subrange(block, first, end)
    }
}

/// Whether `r` is the exec form of what [`owner_at`] gives.
pub open spec fn is_owner(
    r: Result<Option<(StorePath, usize)>, DatabaseError>,
    owner: Result<Option<(StorePathView, int)>, DatabaseErrorView>,
) -> bool {
    match owner {
        Ok(Some((path, end))) => match r {
            Ok(Some((found, found_end))) => found@ == path && found_end == end,
            _ => false,
        },
        Ok(None) => r is Ok && r->Ok_0 is None,
        Err(e) => r is Err && r->Err_0@ == e,
    }
}

/// Finds the package that owns a file whose line ends at `pos`.
pub fn find_package(block: &[u8], pos: usize) -> (r: Result<
    Option<(StorePath, usize)>,
    DatabaseError,
>)
    requires
        pos <= block@.len(),
    ensures
        is_owner(r, owner_at(block@, pos as int)),
{
    let n = block.len();
    let mut p: usize = pos;
    while p < n
        invariant
            n == block@.len(),
            pos <= p <= n,
            next_marker(block@, p as int) == next_marker(block@, pos as int),
        decreases n - p,
    {
        let end = find_line_end(block, p);
        proof {
            lemma_line_end_bounds(block@, p as int);
        }
        if n - p >= 2 && block[p] == PACKAGE_TAG && block[p + 1] == NUL {
            let record = take_record(block, p, end);
            if record.len() < 2 {
                // A package record holds its tag and a separator.
                assert(is_marker(block@, p as int));
                assert(block@[p + 1] != TERMINATOR);
                assert(false);
            }
            let json = slice_subrange(record, 2, record.len());
            return match StorePath::from_json(json) {
                Some(path) => Ok(Some((path, end))),
                None => Err(DatabaseError::StorePathParse(slice_to_vec(json))),
            };
        }
        p = end;
    }
    Ok(None)
}

/// Whether the bytes from `first` to `end` are a line of the block that
/// is not empty.
pub open spec fn is_line(block: Seq<u8>, first: int, end: int) -> bool {
    first < end && is_line_after(block, first, Some((first, end)))
}

/// The index of the first package record among `records` from `from` on.
pub open spec fn next_package(records: Seq<Seq<u8>>, from: int) -> Option<int>
    decreases records.len() - from,
{
    if from < 0 || from >= records.len() {
        None
    } else if is_package_record(records[from]) {
        Some(from)
    } else {
        next_package(records, from + 1)
    }
}

/// A line of the buffer of a block is one of the records of the block.
pub proof fn lemma_line_is_record(records: Seq<Seq<u8>>, first: int, end: int)
    requires
        valid_records(records),
        is_line(join_records(records), first, end),
    ensures
        exists|i: int|
            {
                &&& 0 <= i < records.len()
                &&& first == start_of(records, i)
                &&& end == #[trigger] start_of(records, i + 1)
                &&& record_at(join_records(records), first, end) == records[i]
            },
    decreases records.len(),
{
    let buffer = join_records(records);
    if records.len() == 0 {
        assert(false);
    } else {
        let init = records.drop_last();
        let last = records.last();
        let shorter = join_records(init);
        let at = records.len() - 1;
        lemma_record_in_buffer(records, at);
        assert(records.subrange(0, at) =~= init);
        assert(start_of(records, at) == shorter.len());
        assert(terminator_free(last));
        assert forall|k: int| shorter.len() <= k < buffer.len() - 1 implies buffer[k]
            != TERMINATOR by {
            assert(buffer[k] == last[k - shorter.len()]);
        }
        if end <= shorter.len() {
            assert(valid_records(init)) by {
                assert forall|k: int| 0 <= k < init.len() implies terminator_free(
                    #[trigger] init[k],
                ) by {
                    assert(init[k] == records[k]);
                }
            }
            assert(is_line(shorter, first, end)) by {
                assert(buffer[end - 1] == shorter[end - 1]);
                if first > 0 {
                    assert(buffer[first - 1] == shorter[first - 1]);
                }
                assert forall|k: int| first <= k < end - 1 implies shorter[k] != TERMINATOR by {
                    assert(buffer[k] == shorter[k]);
                }
            }
            lemma_line_is_record(init, first, end);
            let i = choose|i: int|
                {
                    &&& 0 <= i < init.len()
                    &&& first == start_of(init, i)
                    &&& end == #[trigger] start_of(init, i + 1)
                    &&& record_at(shorter, first, end) == init[i]
                };
            assert(records.subrange(0, i) =~= init.subrange(0, i));
            assert(records.subrange(0, i + 1) =~= init.subrange(0, i + 1));
            assert(buffer.subrange(first, end - 1) =~= shorter.subrange(first, end - 1));
            assert(buffer.subrange(first, end) =~= shorter.subrange(first, end));
            assert(end == start_of(records, i + 1));
        } else {
            if first < shorter.len() {
                // The records before the last end with a terminator, which
                // a line cannot hold before its end.
                lemma_record_in_buffer(init, init.len() - 1);
                assert(init.subrange(0, init.len() as int) =~= init);
                assert(buffer[shorter.len() - 1] == shorter[shorter.len() - 1]);
                assert(false);
            }
            if first > shorter.len() {
                assert(buffer[first - 1] == TERMINATOR);
                assert(false);
            }
            if end < buffer.len() {
                assert(buffer[end - 1] == TERMINATOR);
                assert(false);
            }
            assert(records.subrange(0, at + 1) =~= records);
            assert(end == start_of(records, at + 1));
            assert(buffer.subrange(first, end - 1) =~= last);
        }
    }
}

/// In the buffer of a block, the first package record from the start of
/// record `i` on is the first package record among the records from `i`
/// on.
pub proof fn lemma_marker_is_package_record(records: Seq<Seq<u8>>, i: int)
    requires
        valid_records(records),
        0 <= i <= records.len(),
    ensures
        match next_package(records, i) {
            Some(j) => {
                &&& i <= j < records.len()
                &&& is_package_record(records[j])
                &&& next_marker(join_records(records), start_of(records, i)) == Some(
                    (start_of(records, j), start_of(records, j + 1)),
                )
                &&& record_at(
                    join_records(records),
                    start_of(records, j),
                    start_of(records, j + 1),
                ) == records[j]
            },
            None => next_marker(join_records(records), start_of(records, i)) is None,
        },
    decreases records.len() - i,
{
    let buffer = join_records(records);
    if i == records.len() {
        assert(records.subrange(0, i) =~= records);
    } else {
        lemma_record_in_buffer(records, i);
        let from = start_of(records, i);
        let record = records[i];
        let stop = from + record.len();
        assert(terminator_free(record));
        assert forall|k: int| from <= k < stop implies buffer[k] != TERMINATOR by {
            assert(buffer.subrange(from, stop)[k - from] == record[k - from]);
        }
        lemma_suffix_len(buffer, from, record.len() as int);
        assert(line_end(buffer, from) == start_of(records, i + 1));
        if record.len() >= 2 {
            assert(buffer.subrange(from, stop)[0] == record[0]);
            assert(buffer.subrange(from, stop)[1] == record[1]);
        } else if record.len() == 1 {
            assert(buffer[from + 1] == TERMINATOR);
        } else {
            assert(buffer[from] == TERMINATOR);
        }
        assert(is_marker(buffer, from) == is_package_record(record));
        if is_package_record(record) {
            assert(buffer.subrange(from, stop + 1 - 1) =~= record);
        } else {
            lemma_marker_is_package_record(records, i + 1);
        }
    }
}

/// An index among the records moved behind `by` records.
pub open spec fn shifted(found: Option<int>, by: int) -> Option<int> {
    match found {
        Some(j) => Some(j + by),
        None => None,
    }
}

/// The first package record from record `i` of `later` on is the same
/// where records stand before `later`, counted from there.
pub proof fn lemma_next_package_in_suffix(earlier: Seq<Seq<u8>>, later: Seq<Seq<u8>>, i: int)
    requires
        0 <= i <= later.len(),
    ensures
        next_package(earlier + later, earlier.len() + i) == shifted(
            next_package(later, i),
            earlier.len() as int,
        ),
    decreases later.len() - i,
{
    let all = earlier + later;
    if i < later.len() {
        assert(all[earlier.len() + i] == later[i]);
        if !is_package_record(later[i]) {
            lemma_next_package_in_suffix(earlier, later, i + 1);
        }
    }
}

/// The first package record from record `i` of `earlier` on is still the
/// first when records are added behind `earlier`; where `earlier` holds
/// none, it is the first package record among those added.
pub proof fn lemma_next_package_in_prefix(earlier: Seq<Seq<u8>>, later: Seq<Seq<u8>>, i: int)
    requires
        0 <= i <= earlier.len(),
    ensures
        next_package(earlier + later, i) == match next_package(earlier, i) {
            Some(j) => Some(j),
            None => shifted(next_package(later, 0), earlier.len() as int),
        },
    decreases earlier.len() - i,
{
    let all = earlier + later;
    if i < earlier.len() {
        assert(all[i] == earlier[i]);
        if !is_package_record(earlier[i]) {
            lemma_next_package_in_prefix(earlier, later, i + 1);
        }
    } else {
        lemma_next_package_in_suffix(earlier, later, 0);
    }
}

/// The first package record from `from` on lies at or after `from`, and is
/// a package record.
pub proof fn lemma_next_package_bounds(records: Seq<Seq<u8>>, from: int)
    ensures
        match next_package(records, from) {
            Some(j) => 0 <= from <= j < records.len() && is_package_record(records[j]),
            None => true,
        },
    decreases records.len() - from,
{
    if 0 <= from < records.len() && !is_package_record(records[from]) {
        lemma_next_package_bounds(records, from + 1);
    }
}

/// Where a package record stands at or after record `from`, the first
/// package record from there on is found.
pub proof fn lemma_package_follows(records: Seq<Seq<u8>>, from: int, at: int)
    requires
        0 <= from <= at < records.len(),
        is_package_record(records[at]),
    ensures
        next_package(records, from) is Some,
    decreases at - from,
{
    if !is_package_record(records[from]) {
        lemma_package_follows(records, from + 1, at);
    }
}

/// Whether every record can be read: a package record holds the JSON text
/// of a store path, and any other record stands for a file.
pub open spec fn readable(records: Seq<Seq<u8>>) -> bool {
    forall|i: int|
        0 <= i < records.len() ==> if is_package_record(#[trigger] records[i]) {
            parsed_store_path(records[i].subrange(2, records[i].len() as int)) is Some
        } else {
            crate::files::decode_entry(records[i]) is Some
        }
}

/// Whether no file is left without its package: the last record, where
/// there is one, is a package record.
pub open spec fn complete(records: Seq<Seq<u8>>) -> bool {
    records.len() == 0 || is_package_record(records.last())
}

} // verus!
