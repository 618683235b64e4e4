//! Front coding of byte records.
//!
//! A record is a sequence of bytes that holds no terminator. The encoded
//! stream is a run of blocks. A block opens with one boundary byte; each
//! of its records is then stored as the number of leading bytes that it
//! shares with the record before it, the bytes that follow those, and a
//! terminator. The first record of a block shares nothing, so a block can
//! be decoded without what came before it.
//!
//! The shared length takes one byte when it is below [`WIDE`], and
//! otherwise the byte [`WIDE`] followed by two bytes, high byte first. It
//! never exceeds [`MAX_SHARED`]: a longer common prefix is cut there.

use vstd::prelude::*;

verus! {

/// The byte that ends every record.
pub const TERMINATOR: u8 = 0x0A;

/// The byte that opens every block.
pub const BOUNDARY: u8 = 0xFF;

/// The byte that announces a shared length of two bytes.
pub const WIDE: u8 = 0xFE;

/// The largest shared length that is ever written.
pub const MAX_SHARED: usize = 0xFFFF;

/// The encoded size from which a block accepts no further record.
pub const BLOCK_TARGET: usize = 0x8000;

/// What can be wrong with an encoded stream.
#[derive(Clone, Copy, Debug, PartialEq, Eq)]
pub enum Error {
    /// The input ends inside a record.
    Truncated,
    /// A record claims to share more bytes than the record before it has.
    PrefixTooLong,
    /// A block does not open with the boundary byte, or holds no record.
    BadBoundary,
}

/// Whether no byte of `record` is the record terminator.
pub open spec fn terminator_free(record: Seq<u8>) -> bool {
    forall|i: int| 0 <= i < record.len() ==> record[i] != TERMINATOR
}

/// Whether every record of `records` is free of terminators.
pub open spec fn valid_records(records: Seq<Seq<u8>>) -> bool {
    forall|i: int| 0 <= i < records.len() ==> terminator_free(#[trigger] records[i])
}

/// Whether every block holds at least one record and only valid records.
pub open spec fn valid_blocks(blocks: Seq<Seq<Seq<u8>>>) -> bool {
    forall|i: int|
        0 <= i < blocks.len() ==> (#[trigger] blocks[i]).len() > 0 && valid_records(blocks[i])
}

/// The first index at or after `i` at which `a` and `b` differ or one of
/// them ends, given that they agree before `i`.
pub open spec fn common_from(a: Seq<u8>, b: Seq<u8>, i: int) -> int
    decreases a.len() - i,
{
    if 0 <= i < a.len() && i < b.len() && a[i] == b[i] {
        common_from(a, b, i + 1)
    } else {
        i
    }
}

/// The number of leading bytes of `record` that are stored as shared with
/// `prev`: the length of their common prefix, cut at [`MAX_SHARED`].
pub open spec fn shared_len(prev: Seq<u8>, record: Seq<u8>) -> int {
    let n = common_from(prev, record, 0);
    if n < MAX_SHARED {
        n
    } else {
        MAX_SHARED as int
    }
}

/// The bytes that stand for the shared length `n`.
pub open spec fn encode_len(n: int) -> Seq<u8> {
    if n < WIDE {
        seq![n as u8]
    } else {
        seq![WIDE, (n / 256) as u8, (n % 256) as u8]
    }
}

/// The bytes that stand for `record` when it follows `prev`.
pub open spec fn encode_record(prev: Seq<u8>, record: Seq<u8>) -> Seq<u8> {
    let shared = shared_len(prev, record);
    encode_len(shared) + record.subrange(shared, record.len() as int) + seq![TERMINATOR]
}

/// The bytes that stand for `records` when they follow `prev`.
pub open spec fn encode_records(prev: Seq<u8>, records: Seq<Seq<u8>>) -> Seq<u8>
    decreases records.len(),
{
    if records.len() == 0 {
        Seq::empty()
    } else {
        encode_record(prev, records[0]) + encode_records(records[0], records.drop_first())
    }
}

/// The bytes that stand for one block.
pub open spec fn encode_block(records: Seq<Seq<u8>>) -> Seq<u8> {
    seq![BOUNDARY] + encode_records(Seq::empty(), records)
}

/// The bytes that stand for a run of blocks.
pub open spec fn encode_stream(blocks: Seq<Seq<Seq<u8>>>) -> Seq<u8>
    decreases blocks.len(),
{
    if blocks.len() == 0 {
        Seq::empty()
    } else {
        encode_block(blocks[0]) + encode_stream(blocks.drop_first())
    }
}

/// The records laid out one after the other, each followed by a terminator.
pub open spec fn join_records(records: Seq<Seq<u8>>) -> Seq<u8>
    decreases records.len(),
{
    if records.len() == 0 {
        Seq::empty()
    } else {
        join_records(records.drop_last()) + records.last() + seq![TERMINATOR]
    }
}

/// The shared length read at `pos`, with the index of the byte after it.
pub open spec fn decode_len(input: Seq<u8>, pos: int) -> Option<(int, int)> {
    if pos < 0 || pos >= input.len() {
        None
    } else if input[pos] < WIDE {
        Some((input[pos] as int, pos + 1))
    } else if input[pos] == WIDE && pos + 2 < input.len() {
        Some((input[pos + 1] * 256 + input[pos + 2], pos + 3))
    } else {
        None
    }
}

/// The number of bytes from `pos` up to the next terminator, or up to the
/// end of `input` when no terminator follows.
pub open spec fn suffix_len(input: Seq<u8>, pos: int) -> nat
    decreases input.len() - pos,
{
    if pos < 0 || pos >= input.len() || input[pos] == TERMINATOR {
        0
    } else {
        1 + suffix_len(input, pos + 1)
    }
}

/// The record read at `pos` after the record `prev`, with the index of the
/// byte after its terminator.
pub open spec fn decode_record(input: Seq<u8>, pos: int, prev: Seq<u8>) -> Result<
    (Seq<u8>, int),
    Error,
> {
    match decode_len(input, pos) {
        None => Err(Error::Truncated),
        Some((shared, start)) => {
            let end = start + suffix_len(input, start);
            if shared > prev.len() {
                Err(Error::PrefixTooLong)
            } else if end >= input.len() {
                Err(Error::Truncated)
            } else {
                Ok((prev.subrange(0, shared) + input.subrange(start, end), end + 1))
            }
        },
    }
}

/// The records read from `pos`, after the record `prev`, up to the end of
/// the block: the next boundary byte or the end of `input`.
pub open spec fn decode_records(input: Seq<u8>, pos: int, prev: Seq<u8>) -> Result<
    (Seq<Seq<u8>>, int),
    Error,
>
    decreases input.len() - pos,
{
    if pos < 0 || pos >= input.len() || input[pos] == BOUNDARY {
        Ok((Seq::empty(), pos))
    } else {
        match decode_record(input, pos, prev) {
            Err(e) => Err(e),
            Ok((record, next)) => match decode_records(input, next, record) {
                Err(e) => Err(e),
                Ok((rest, end)) => Ok((seq![record] + rest, end)),
            },
        }
    }
}

/// The block read at `pos`, with the index of the byte after it.
pub open spec fn decode_block(input: Seq<u8>, pos: int) -> Result<(Seq<Seq<u8>>, int), Error> {
    if pos < 0 || pos >= input.len() || input[pos] != BOUNDARY {
        Err(Error::BadBoundary)
    } else {
        match decode_records(input, pos + 1, Seq::empty()) {
            Err(e) => Err(e),
            Ok((records, next)) => if records.len() == 0 {
                Err(Error::BadBoundary)
            } else {
                Ok((records, next))
            },
        }
    }
}

/// The blocks read from `pos` to the end of `input`.
pub open spec fn decode_stream(input: Seq<u8>, pos: int) -> Result<Seq<Seq<Seq<u8>>>, Error>
    decreases input.len() - pos,
    via decode_stream_decreases
{
    if pos < 0 || pos >= input.len() {
        Ok(Seq::empty())
    } else {
        match decode_block(input, pos) {
            Err(e) => Err(e),
            Ok((records, next)) => {
                match decode_stream(input, next) {
                    Err(e) => Err(e),
                    Ok(rest) => Ok(seq![records] + rest),
                }
            },
        }
    }
}

#[via_fn]
proof fn decode_stream_decreases(input: Seq<u8>, pos: int) {
    lemma_records_end(input, pos + 1, Seq::empty());
}

/// What one call of [`Decoder::decode`] at `pos` gives: the buffer of the
/// next block and the index after it, or nothing at the end of `input`.
pub open spec fn next_buffer(input: Seq<u8>, pos: int) -> Result<(Seq<u8>, int), Error> {
    if pos >= input.len() {
        Ok((Seq::empty(), pos))
    } else {
        match decode_block(input, pos) {
            Err(e) => Err(e),
            Ok((records, next)) => Ok((join_records(records), next)),
        }
    }
}

/// Decoding a run of records ends at or after the index where it began.
pub proof fn lemma_records_end(input: Seq<u8>, pos: int, prev: Seq<u8>)
    ensures
        match decode_records(input, pos, prev) {
            Ok((records, end)) => {
                &&& pos <= end
                &&& records.len() > 0 ==> pos < end
                &&& pos <= input.len() ==> end <= input.len()
            },
            Err(_) => true,
        },
    decreases input.len() - pos,
{
    if pos < 0 || pos >= input.len() || input[pos] == BOUNDARY {
    } else {
        match decode_record(input, pos, prev) {
            Err(_) => {},
            Ok((record, next)) => {
                lemma_records_end(input, next, record);
            },
        }
    }
}

/// Where `a` and `b` first differ lies between the index from which they
/// are compared and the end of the shorter of the two.
pub proof fn lemma_common_from_bounds(a: Seq<u8>, b: Seq<u8>, i: int)
    requires
        0 <= i <= a.len(),
        i <= b.len(),
    ensures
        i <= common_from(a, b, i) <= a.len(),
        common_from(a, b, i) <= b.len(),
    decreases a.len() - i,
{
    if i < a.len() && i < b.len() && a[i] == b[i] {
        lemma_common_from_bounds(a, b, i + 1);
    }
}

/// Two sequences that agree before `i` agree before the index where they
/// first differ from `i` on.
pub proof fn lemma_common_from_agrees(a: Seq<u8>, b: Seq<u8>, i: int)
    requires
        0 <= i <= a.len(),
        i <= b.len(),
        forall|k: int| 0 <= k < i ==> a[k] == b[k],
    ensures
        forall|k: int| 0 <= k < common_from(a, b, i) ==> a[k] == b[k],
    decreases a.len() - i,
{
    if i < a.len() && i < b.len() && a[i] == b[i] {
        lemma_common_from_agrees(a, b, i + 1);
    }
}

/// A record added at the end is encoded after the others, against the
/// record that was last before.
pub proof fn lemma_encode_records_push(prev: Seq<u8>, records: Seq<Seq<u8>>, record: Seq<u8>)
    ensures
        encode_records(prev, records.push(record)) == encode_records(prev, records)
            + encode_record(
            if records.len() == 0 {
                prev
            } else {
                records.last()
            },
            record,
        ),
    decreases records.len(),
{
    let longer = records.push(record);
    if records.len() == 0 {
        assert(longer.drop_first() =~= Seq::<Seq<u8>>::empty());
        assert(encode_records(record, longer.drop_first()) =~= Seq::<u8>::empty());
        assert(encode_records(prev, longer) =~= encode_record(prev, record));
    } else {
        let rest = records.drop_first();
        assert(longer.drop_first() =~= rest.push(record));
        lemma_encode_records_push(records[0], rest, record);
        assert(encode_records(prev, longer) =~= encode_records(prev, records) + encode_record(
            records.last(),
            record,
        ));
    }
}

/// A block added at the end is encoded after the others.
pub proof fn lemma_encode_stream_push(blocks: Seq<Seq<Seq<u8>>>, block: Seq<Seq<u8>>)
    ensures
        encode_stream(blocks.push(block)) == encode_stream(blocks) + encode_block(block),
    decreases blocks.len(),
{
    let longer = blocks.push(block);
    if blocks.len() == 0 {
        assert(longer.drop_first() =~= Seq::<Seq<Seq<u8>>>::empty());
        assert(encode_stream(longer.drop_first()) =~= Seq::<u8>::empty());
        assert(encode_stream(longer) =~= encode_block(block));
    } else {
        let rest = blocks.drop_first();
        assert(longer.drop_first() =~= rest.push(block));
        lemma_encode_stream_push(rest, block);
        assert(encode_stream(longer) =~= encode_stream(blocks) + encode_block(block));
    }
}

/// The blocks after one more record: it joins the last block when `extend`
/// holds, and opens a block of its own otherwise.
pub open spec fn with_record(
    blocks: Seq<Seq<Seq<u8>>>,
    extend: bool,
    record: Seq<u8>,
) -> Seq<Seq<Seq<u8>>> {
    if extend && blocks.len() > 0 {
        blocks.drop_last().push(blocks.last().push(record))
    } else {
        blocks.push(seq![record])
    }
}

/// Whether the last block is still shorter than [`BLOCK_TARGET`].
pub open spec fn has_room(blocks: Seq<Seq<Seq<u8>>>) -> bool {
    blocks.len() > 0 && encode_block(blocks.last()).len() < BLOCK_TARGET
}

/// The blocks after `records` were written one by one, where `open` says
/// whether the first of them may join the last block.
pub open spec fn with_records(
    blocks: Seq<Seq<Seq<u8>>>,
    open: bool,
    records: Seq<Seq<u8>>,
) -> Seq<Seq<Seq<u8>>>
    decreases records.len(),
{
    if records.len() == 0 {
        blocks
    } else {
        with_records(
            with_record(blocks, open && has_room(blocks), records[0]),
            true,
            records.drop_first(),
        )
    }
}

/// Tests whether a record holds no terminator.
pub fn is_terminator_free(record: &[u8]) -> (ok: bool)
    ensures
        ok == terminator_free(record@),
{
    let mut i: usize = 0;
    while i < record.len()
        invariant
            i <= record@.len(),
            forall|j: int| 0 <= j < i ==> record@[j] != TERMINATOR,
        decreases record.len() - i,
    {
        if record[i] == TERMINATOR {
            return false;
        }
        i += 1;
    }
    true
}

/// Computes how many leading bytes of `record` are stored as shared with
/// `prev`.
pub fn shared_prefix(prev: &[u8], record: &[u8]) -> (n: usize)
    ensures
        n == shared_len(prev@, record@),
        n <= prev@.len(),
        n <= record@.len(),
        n <= MAX_SHARED,
{
    let mut i: usize = 0;
    while i < MAX_SHARED && i < prev.len() && i < record.len() && prev[i] == record[i]
        invariant
            i <= MAX_SHARED,
            i <= prev@.len(),
            i <= record@.len(),
            common_from(prev@, record@, i as int) == common_from(prev@, record@, 0),
        decreases MAX_SHARED - i,
    {
        i += 1;
    }
    proof {
        lemma_common_from_bounds(prev@, record@, i as int);
    }
    i
}

/// Appends to `out` the bytes that stand for `record` when it follows `prev`.
fn append_record(out: &mut Vec<u8>, prev: &[u8], record: &[u8])
    ensures
        final(out)@ == old(out)@ + encode_record(prev@, record@),
{
    let shared = shared_prefix(prev, record);
    if shared < 0xFE {
        out.push(shared as u8);
    } else {
        out.push(WIDE);
        out.push((shared / 256) as u8);
        out.push((shared % 256) as u8);
    }
    assert(out@ =~= old(out)@ + encode_len(shared as int));
    let mut i: usize = shared;
    while i < record.len()
        invariant
            shared <= i <= record@.len(),
            out@ == old(out)@ + encode_len(shared as int) + record@.subrange(
                shared as int,
                i as int,
            ),
        decreases record.len() - i,
    {
        out.push(record[i]);
        assert(record@.subrange(shared as int, i as int).push(record@[i as int])
            =~= record@.subrange(shared as int, i + 1));
        i += 1;
    }
    out.push(TERMINATOR);
}

/// Writes records as a front-coded stream.
pub struct Encoder {
    out: Vec<u8>,
    prev: Vec<u8>,
    block_start: usize,
    open: bool,
    blocks: Ghost<Seq<Seq<Seq<u8>>>>,
}

impl Encoder {
    /// The blocks written so far, each with its records.
    pub closed spec fn blocks(&self) -> Seq<Seq<Seq<u8>>> {
        self.blocks@
    }

    /// Whether a block is open, so that the next record may join it.
    pub closed spec fn is_open(&self) -> bool {
        self.open
    }

    /// Whether the encoder's state is consistent.
    pub closed spec fn wf(&self) -> bool {
        &&& valid_blocks(self.blocks@)
        &&& self.out@ == encode_stream(self.blocks@)
        &&& self.open ==> {
            &&& self.blocks@.len() > 0
            &&& self.prev@ == self.blocks@.last().last()
            &&& self.block_start <= self.out@.len()
            &&& self.out@.len() - self.block_start == encode_block(self.blocks@.last()).len()
        }
    }

    /// Whether the next record joins the last block: a block is open and
    /// its encoding is still shorter than [`BLOCK_TARGET`].
    pub open spec fn accepts(&self) -> bool {
        self.is_open() && has_room(self.blocks())
    }

    /// Starts an empty stream.
    pub fn new() -> (e: Encoder)
        ensures
            e.wf(),
            !e.is_open(),
            e.blocks() == Seq::<Seq<Seq<u8>>>::empty(),
    {
        Encoder {
            out: Vec::new(),
            prev: Vec::new(),
            block_start: 0,
            open: false,
            blocks: Ghost(Seq::empty()),
        }
    }

    /// Writes one record. It joins the open block unless that block has
    /// reached its target size; otherwise a new block begins with it.
    pub fn write_record(&mut self, record: &[u8])
        requires
            old(self).wf(),
            terminator_free(record@),
        ensures
            final(self).wf(),
            final(self).is_open(),
            final(self).blocks() == with_record(
                old(self).blocks(),
                old(self).accepts(),
                record@,
            ),
    {
        let extend = self.open && self.out.len() - self.block_start < BLOCK_TARGET;
        let ghost old_blocks = self.blocks@;
        let ghost old_out = self.out@;
        if !extend {
            self.block_start = self.out.len();
            self.out.push(BOUNDARY);
            self.prev.clear();
        }
        append_record(&mut self.out, self.prev.as_slice(), record);
        proof {
            if extend {
                let init = old_blocks.drop_last();
                let last = old_blocks.last();
                assert(old_blocks =~= init.push(last));
                lemma_encode_stream_push(init, last);
                lemma_encode_stream_push(init, last.push(record@));
                lemma_encode_records_push(Seq::empty(), last, record@);
                assert(self.out@ =~= encode_stream(init.push(last.push(record@))));
            } else {
                lemma_encode_stream_push(old_blocks, seq![record@]);
                let single = seq![record@];
                let none = Seq::<Seq<u8>>::empty();
                assert(single =~= none.push(record@));
                lemma_encode_records_push(Seq::empty(), none, record@);
                assert(encode_records(Seq::empty(), none) =~= Seq::<u8>::empty());
                assert(self.out@ =~= encode_stream(old_blocks.push(single)));
            }
        }
        self.prev = vstd::slice::slice_to_vec(record);
        self.open = true;
        self.blocks = Ghost(with_record(old_blocks, extend, record@));
    }

    /// Ends the open block: the next record begins a new one.
    pub fn start_block(&mut self)
        requires
            old(self).wf(),
        ensures
            final(self).wf(),
            !final(self).is_open(),
            final(self).blocks() == old(self).blocks(),
    {
        self.open = false;
    }

    /// Ends the stream and returns its bytes.
    pub fn finish(self) -> (out: Vec<u8>)
        requires
            self.wf(),
        ensures
            out@ == encode_stream(self.blocks()),
            valid_blocks(self.blocks()),
    {
        self.out
    }
}

/// The records `head` followed by what `tail` holds, when it holds any.
pub open spec fn prepend_records(
    head: Seq<Seq<u8>>,
    tail: Result<(Seq<Seq<u8>>, int), Error>,
) -> Result<(Seq<Seq<u8>>, int), Error> {
    match tail {
        Ok((rest, end)) => Ok((head + rest, end)),
        Err(e) => Err(e),
    }
}

/// Reads a front-coded stream block by block.
pub struct Decoder {
    input: Vec<u8>,
    pos: usize,
}

impl Decoder {
    /// The encoded stream.
    pub closed spec fn input(&self) -> Seq<u8> {
        self.input@
    }

    /// The index of the first byte that has not been decoded.
    pub closed spec fn position(&self) -> nat {
        self.pos as nat
    }

    /// Starts at the beginning of `input`.
    pub fn new(input: Vec<u8>) -> (d: Decoder)
        ensures
            d.input() == input@,
            d.position() == 0,
    {
        Decoder { input, pos: 0 }
    }

    /// The index of the first byte that has not been decoded.
    pub fn offset(&self) -> (pos: usize)
        ensures
            pos == self.position(),
    {
        self.pos
    }

    /// Gives the encoded stream back.
    pub fn into_input(self) -> (input: Vec<u8>)
        ensures
            input@ == self.input(),
    {
        self.input
    }

    /// Decodes the next block and returns its records, each followed by a
    /// terminator. The result is empty exactly at the end of the input. On
    /// an error the decoder stays where it was.
    #[verifier::rlimit(60)]
    #[verifier::spinoff_prover]
    pub fn decode(&mut self) -> (r: Result<Vec<u8>, Error>)
        ensures
            final(self).input() == old(self).input(),
            match next_buffer(old(self).input(), old(self).position() as int) {
                Ok((buffer, next)) => r is Ok && r->Ok_0@ == buffer && final(self).position()
                    == next,
                Err(e) => r == Err::<Vec<u8>, Error>(e) && final(self).position() == old(
                    self,
                ).position(),
            },
    {
        let n = self.input.len();
        let first = self.pos;
        if first >= n {
            return Ok(Vec::new());
        }
        if self.input[first] != BOUNDARY {
            return Err(Error::BadBoundary);
        }
        let ghost input = self.input@;
        let mut p: usize = first + 1;
        let mut buf: Vec<u8> = Vec::new();
        let mut prev_start: usize = 0;
        let mut prev_len: usize = 0;
        let ghost mut records: Seq<Seq<u8>> = Seq::empty();
        let ghost mut prev: Seq<u8> = Seq::empty();
        assert(decode_records(input, first + 1, Seq::empty()) == prepend_records(
            records,
            decode_records(input, p as int, prev),
        )) by {
            let tail = decode_records(input, p as int, prev);
            if let Ok((rest, end)) = tail {
                assert(records + rest =~= rest);
            }
        }
        while p < n && self.input[p] != BOUNDARY
            invariant
                self.input@ == input,
                self.pos == first,
                old(self).input@ == input,
                old(self).pos == first,
                n == input.len(),
                first < p <= n,
                input[first as int] == BOUNDARY,
                prev.len() == prev_len,
                decode_records(input, first + 1, Seq::empty()) == prepend_records(
                    records,
                    decode_records(input, p as int, prev),
                ),
                buf@ == join_records(records),
                records.len() == 0 <==> buf@.len() == 0,
                prev_start + prev_len <= buf@.len(),
                prev == buf@.subrange(prev_start as int, prev_start + prev_len),
            decreases n - p,
        {
            let lead = self.input[p];
            let shared: usize;
            let start: usize;
            if lead < WIDE {
                shared = lead as usize;
                start = p + 1;
            } else {
                if n - p <= 2 {
                    assert(decode_len(input, p as int) is None);
                    assert(decode_records(input, p as int, prev) == Err::<
                        (Seq<Seq<u8>>, int),
                        Error,
                    >(Error::Truncated));
                    return Err(Error::Truncated);
                }
                shared = (self.input[p + 1] as usize) * 256 + (self.input[p + 2] as usize);
                start = p + 3;
            }
            assert(decode_len(input, p as int) == Some((shared as int, start as int)));
            if shared > prev_len {
                return Err(Error::PrefixTooLong);
            }
            let ghost base = buf@;
            let limit = buf.len();
            let mut k: usize = 0;
            while k < shared
                invariant
                    k <= shared <= prev_len,
                    prev.len() == prev_len,
                    prev_start + prev_len <= base.len(),
                    base.len() == limit,
                    prev == base.subrange(prev_start as int, prev_start + prev_len),
                    buf@ == base + prev.subrange(0, k as int),
                decreases shared - k,
            {
                let byte = buf[prev_start + k];
                buf.push(byte);
                assert(prev.subrange(0, k as int).push(prev[k as int]) =~= prev.subrange(
                    0,
                    k + 1,
                ));
                k += 1;
            }
            let mut q: usize = start;
            while q < n && self.input[q] != TERMINATOR
                invariant
                    self.input@ == input,
                    n == input.len(),
                    start <= q <= n,
                    shared <= prev.len(),
                    buf@ == base + prev.subrange(0, shared as int) + input.subrange(
                        start as int,
                        q as int,
                    ),
                    q - start + suffix_len(input, q as int) == suffix_len(input, start as int),
                decreases n - q,
            {
                buf.push(self.input[q]);
                assert(input.subrange(start as int, q as int).push(input[q as int])
                    =~= input.subrange(start as int, q + 1));
                q += 1;
            }
            if q >= n {
                assert(start + suffix_len(input, start as int) >= input.len());
                assert(decode_records(input, p as int, prev) == Err::<
                    (Seq<Seq<u8>>, int),
                    Error,
                >(Error::Truncated));
                return Err(Error::Truncated);
            }
            buf.push(TERMINATOR);
            proof {
                let record = prev.subrange(0, shared as int) + input.subrange(
                    start as int,
                    q as int,
                );
                assert(decode_record(input, p as int, prev) == Ok::<(Seq<u8>, int), Error>(
                    (record, q + 1),
                ));
                let longer = records.push(record);
                assert(longer.drop_last() =~= records);
                assert(buf@ =~= join_records(longer));
                let tail = decode_records(input, q + 1, record);
                if let Ok((rest, end)) = tail {
                    assert(records + (seq![record] + rest) =~= longer + rest);
                }
                assert(buf@.subrange(base.len() as int, (base.len() + record.len()) as int) =~= record);
                records = longer;
                prev = record;
            }
            prev_start = buf.len() - 1 - (shared + (q - start));
            prev_len = shared + (q - start);
            p = q + 1;
        }
        proof {
            assert(records + Seq::<Seq<u8>>::empty() =~= records);
        }
        if buf.len() == 0 {
            return Err(Error::BadBoundary);
        }
        self.pos = p;
        Ok(buf)
    }
}

/// Whether the bytes of `part` stand in `input` from `pos` on.
pub open spec fn occurs_at(input: Seq<u8>, pos: int, part: Seq<u8>) -> bool {
    &&& 0 <= pos
    &&& pos + part.len() <= input.len()
    &&& forall|i: int| 0 <= i < part.len() ==> input[pos + i] == #[trigger] part[i]
}

/// The suffix of a record ends at the first terminator.
pub proof fn lemma_suffix_len(input: Seq<u8>, pos: int, count: int)
    requires
        0 <= pos,
        0 <= count,
        pos + count < input.len(),
        input[pos + count] == TERMINATOR,
        forall|j: int| pos <= j < pos + count ==> input[j] != TERMINATOR,
    ensures
        suffix_len(input, pos) == count,
    decreases count,
{
    if count > 0 {
        lemma_suffix_len(input, pos + 1, count - 1);
    }
}

/// A shared length is read back from its encoding.
proof fn lemma_decode_len(input: Seq<u8>, pos: int, n: int)
    requires
        0 <= n <= MAX_SHARED,
        occurs_at(input, pos, encode_len(n)),
    ensures
        decode_len(input, pos) == Some((n, pos + encode_len(n).len())),
        input[pos] != BOUNDARY,
{
    let enc = encode_len(n);
    assert(input[pos + 0] == enc[0]);
    if n >= WIDE {
        assert(input[pos + 1] == enc[1]);
        assert(input[pos + 2] == enc[2]);
        assert(n / 256 <= 255 && (n / 256) * 256 + n % 256 == n) by (nonlinear_arith)
            requires
                0 <= n <= 0xFFFF,
        ;
    }
}

/// A record is read back from its encoding.
proof fn lemma_decode_record(input: Seq<u8>, pos: int, prev: Seq<u8>, record: Seq<u8>)
    requires
        terminator_free(record),
        occurs_at(input, pos, encode_record(prev, record)),
    ensures
        decode_record(input, pos, prev) == Ok::<(Seq<u8>, int), Error>(
            (record, pos + encode_record(prev, record).len()),
        ),
        input[pos] != BOUNDARY,
        pos < input.len(),
{
    let shared = shared_len(prev, record);
    lemma_common_from_bounds(prev, record, 0);
    lemma_common_from_agrees(prev, record, 0);
    let head = encode_len(shared);
    let suffix = record.subrange(shared, record.len() as int);
    let enc = encode_record(prev, record);
    assert(occurs_at(input, pos, head)) by {
        assert forall|i: int| 0 <= i < head.len() implies input[pos + i] == #[trigger] head[i] by {
            assert(enc[i] == head[i]);
        }
    }
    lemma_decode_len(input, pos, shared);
    let start = pos + head.len();
    assert forall|j: int| start <= j < start + suffix.len() implies input[j] == suffix[j
        - start] by {
        assert(enc[j - pos] == suffix[j - start]);
        assert(input[pos + (j - pos)] == enc[j - pos]);
    }
    let last = (head.len() + suffix.len()) as int;
    assert(input[start + suffix.len()] == TERMINATOR) by {
        assert(enc[last] == TERMINATOR);
        assert(input[pos + last] == enc[last]);
    }
    assert forall|j: int| start <= j < start + suffix.len() implies input[j] != TERMINATOR by {
        assert(suffix[j - start] == record[shared + (j - start)]);
    }
    lemma_suffix_len(input, start, suffix.len() as int);
    let end = start + suffix.len();
    assert(prev.subrange(0, shared) + input.subrange(start, end) =~= record);
}

/// The records of a block are read back from their encoding, provided
/// that the block ends where the encoding ends.
proof fn lemma_decode_records(
    input: Seq<u8>,
    pos: int,
    prev: Seq<u8>,
    records: Seq<Seq<u8>>,
)
    requires
        valid_records(records),
        occurs_at(input, pos, encode_records(prev, records)),
        pos + encode_records(prev, records).len() == input.len() || input[pos + encode_records(
            prev,
            records,
        ).len()] == BOUNDARY,
    ensures
        decode_records(input, pos, prev) == Ok::<(Seq<Seq<u8>>, int), Error>(
            (records, pos + encode_records(prev, records).len()),
        ),
    decreases records.len(),
{
    if records.len() == 0 {
        assert(records =~= Seq::<Seq<u8>>::empty());
    } else {
        let first = records[0];
        let rest = records.drop_first();
        let head = encode_record(prev, first);
        let tail = encode_records(first, rest);
        let enc = encode_records(prev, records);
        assert(terminator_free(first));
        assert(occurs_at(input, pos, head)) by {
            assert forall|i: int| 0 <= i < head.len() implies input[pos + i]
                == #[trigger] head[i] by {
                assert(enc[i] == head[i]);
            }
        }
        assert(occurs_at(input, pos + head.len(), tail)) by {
            assert forall|i: int| 0 <= i < tail.len() implies input[pos + head.len() + i]
                == #[trigger] tail[i] by {
                assert(enc[head.len() + i] == tail[i]);
                assert(input[pos + (head.len() + i)] == enc[head.len() + i]);
            }
        }
        lemma_decode_record(input, pos, prev, first);
        assert(valid_records(rest)) by {
            assert forall|i: int| 0 <= i < rest.len() implies terminator_free(
                #[trigger] rest[i],
            ) by {
                assert(rest[i] == records[i + 1]);
            }
        }
        lemma_decode_records(input, pos + head.len(), first, rest);
        assert(seq![first] + rest =~= records);
    }
}

/// The blocks of a stream are read back from their encoding, wherever in
/// `input` it stands, provided that it runs to the end.
proof fn lemma_decode_stream_at(input: Seq<u8>, pos: int, blocks: Seq<Seq<Seq<u8>>>)
    requires
        valid_blocks(blocks),
        occurs_at(input, pos, encode_stream(blocks)),
        pos + encode_stream(blocks).len() == input.len(),
    ensures
        decode_stream(input, pos) == Ok::<Seq<Seq<Seq<u8>>>, Error>(blocks),
    decreases blocks.len(),
{
    if blocks.len() == 0 {
        assert(blocks =~= Seq::<Seq<Seq<u8>>>::empty());
    } else {
        let first = blocks[0];
        let rest = blocks.drop_first();
        let body = encode_records(Seq::empty(), first);
        let head = encode_block(first);
        let tail = encode_stream(rest);
        let enc = encode_stream(blocks);
        assert(first.len() > 0 && valid_records(first));
        assert(input[pos + 0] == enc[0]);
        assert(occurs_at(input, pos + 1, body)) by {
            assert forall|i: int| 0 <= i < body.len() implies input[pos + 1 + i]
                == #[trigger] body[i] by {
                assert(enc[1 + i] == body[i]);
                assert(input[pos + (1 + i)] == enc[1 + i]);
            }
        }
        assert(occurs_at(input, pos + head.len(), tail)) by {
            assert forall|i: int| 0 <= i < tail.len() implies input[pos + head.len() + i]
                == #[trigger] tail[i] by {
                assert(enc[head.len() + i] == tail[i]);
                assert(input[pos + (head.len() + i)] == enc[head.len() + i]);
            }
        }
        let end = pos + head.len();
        if rest.len() > 0 {
            assert(tail[0] == BOUNDARY);
            assert(input[end + 0] == tail[0]);
        }
        lemma_decode_records(input, pos + 1, Seq::empty(), first);
        assert(valid_blocks(rest)) by {
            assert forall|i: int| 0 <= i < rest.len() implies (#[trigger] rest[i]).len() > 0
                && valid_records(rest[i]) by {
                assert(rest[i] == blocks[i + 1]);
            }
        }
        lemma_decode_stream_at(input, end, rest);
        assert(seq![first] + rest =~= blocks);
    }
}

/// Decoding inverts encoding: a stream that was encoded from blocks that
/// each hold a record, of records free of terminators, decodes to those
/// blocks.
pub proof fn lemma_decode_inverts_encode(blocks: Seq<Seq<Seq<u8>>>)
    requires
        valid_blocks(blocks),
    ensures
        decode_stream(encode_stream(blocks), 0) == Ok::<Seq<Seq<Seq<u8>>>, Error>(blocks),
{
    lemma_decode_stream_at(encode_stream(blocks), 0, blocks);
}

/// Where the block boundaries fall does not change the records that come
/// back: two streams that hold the same records in the same order decode
/// to the same records, however each was cut into blocks.
pub proof fn lemma_boundaries_keep_records(a: Seq<Seq<Seq<u8>>>, b: Seq<Seq<Seq<u8>>>)
    requires
        valid_blocks(a),
        valid_blocks(b),
        a.flatten() == b.flatten(),
    ensures
        match (decode_stream(encode_stream(a), 0), decode_stream(encode_stream(b), 0)) {
            (Ok(x), Ok(y)) => x.flatten() == y.flatten() && x.flatten() == a.flatten(),
            _ => false,
        },
{
    lemma_decode_inverts_encode(a);
    lemma_decode_inverts_encode(b);
}

/// A buffer that holds a record is not empty, so an empty buffer is only
/// returned at the end of the input.
pub proof fn lemma_empty_buffer_is_end(input: Seq<u8>, pos: int)
    requires
        0 <= pos,
    ensures
        match next_buffer(input, pos) {
            Ok((buffer, next)) => buffer.len() == 0 <==> pos >= input.len(),
            Err(_) => true,
        },
{
    if pos < input.len() {
        if let Ok((records, next)) = decode_block(input, pos) {
            assert(join_records(records).len() > 0);
        }
    }
}

/// The decoder hands out the blocks of a stream in their order: where the
/// stream from `pos` on holds blocks, the next buffer holds the records of
/// the first of them, and the others follow it; where it holds none, the
/// stream ends at `pos`.
pub proof fn lemma_decoder_walks_blocks(input: Seq<u8>, pos: int)
    requires
        0 <= pos,
    ensures
        match decode_stream(input, pos) {
            Ok(blocks) => if blocks.len() == 0 {
                pos >= input.len()
            } else {
                match next_buffer(input, pos) {
                    Ok((buffer, next)) => {
                        &&& buffer == join_records(blocks[0])
                        &&& blocks[0].len() > 0
                        &&& pos < next <= input.len()
                        &&& decode_stream(input, next) == Ok::<Seq<Seq<Seq<u8>>>, Error>(
                            blocks.drop_first(),
                        )
                    },
                    Err(_) => false,
                }
            },
            Err(_) => true,
        },
{
    if pos < input.len() {
        lemma_records_end(input, pos + 1, Seq::empty());
        if let Ok((records, next)) = decode_block(input, pos) {
            if let Ok(rest) = decode_stream(input, next) {
                let blocks = seq![records] + rest;
                assert(blocks.drop_first() =~= rest);
            }
        }
    }
}

/// Writing a record adds it to the records of the stream, whether it
/// joins the last block or opens a new one.
pub proof fn lemma_with_record_flatten(
    blocks: Seq<Seq<Seq<u8>>>,
    extend: bool,
    record: Seq<u8>,
)
    ensures
        with_record(blocks, extend, record).flatten() == blocks.flatten().push(record),
{
    if extend && blocks.len() > 0 {
        let init = blocks.drop_last();
        let last = blocks.last();
        assert(blocks =~= init.push(last));
        init.lemma_flatten_push(last);
        init.lemma_flatten_push(last.push(record));
        assert(init.flatten() + last.push(record) =~= (init.flatten() + last).push(record));
    } else {
        blocks.lemma_flatten_push(seq![record]);
        assert(blocks.flatten() + seq![record] =~= blocks.flatten().push(record));
    }
}

/// Writing records adds them, in their order, to the records of the
/// stream, wherever the boundaries fall.
pub proof fn lemma_with_records_flatten(
    blocks: Seq<Seq<Seq<u8>>>,
    open: bool,
    records: Seq<Seq<u8>>,
)
    ensures
        with_records(blocks, open, records).flatten() == blocks.flatten() + records,
    decreases records.len(),
{
    if records.len() == 0 {
        assert(blocks.flatten() + records =~= blocks.flatten());
    } else {
        let next = with_record(blocks, open && has_room(blocks), records[0]);
        lemma_with_record_flatten(blocks, open && has_room(blocks), records[0]);
        lemma_with_records_flatten(next, true, records.drop_first());
        assert(blocks.flatten().push(records[0]) + records.drop_first() =~= blocks.flatten()
            + records);
    }
}

/// The index in the buffer of a block at which its record `i` begins; for
/// the number of records, the length of the buffer.
pub open spec fn start_of(records: Seq<Seq<u8>>, i: int) -> int {
    join_records(records.subrange(0, i)).len() as int
}

/// Where a record lies in the buffer of its block: it begins where the
/// records before it end, a terminator follows it, and the next record
/// begins after that.
pub proof fn lemma_record_in_buffer(records: Seq<Seq<u8>>, i: int)
    requires
        0 <= i < records.len(),
    ensures
        0 <= start_of(records, i),
        start_of(records, i + 1) == start_of(records, i) + records[i].len() + 1,
        start_of(records, i + 1) <= join_records(records).len(),
        start_of(records, records.len() as int) == join_records(records).len(),
        join_records(records).subrange(
            start_of(records, i),
            start_of(records, i) + records[i].len(),
        ) == records[i],
        join_records(records)[start_of(records, i) + records[i].len()] == TERMINATOR,
    decreases records.len(),
{
    let init = records.drop_last();
    let last = records.last();
    let buffer = join_records(records);
    assert(records.subrange(0, records.len() as int) =~= records);
    assert(records.subrange(0, records.len() - 1) =~= init);
    if i == records.len() - 1 {
        assert(buffer.subrange(start_of(records, i), start_of(records, i) + last.len()) =~= last);
    } else {
        lemma_record_in_buffer(init, i);
        assert(records.subrange(0, i) =~= init.subrange(0, i));
        assert(records.subrange(0, i + 1) =~= init.subrange(0, i + 1));
        assert(init[i] == records[i]);
        let from = start_of(records, i);
        assert(buffer.subrange(from, from + records[i].len()) =~= join_records(init).subrange(
            from,
            from + records[i].len(),
        ));
    }
}

/// No terminator stands before the end of the suffix, and one stands at
/// its end unless the block ends there.
pub proof fn lemma_suffix_is_free(block: Seq<u8>, pos: int)
    requires
        0 <= pos <= block.len(),
    ensures
        pos + suffix_len(block, pos) <= block.len(),
        forall|i: int| pos <= i < pos + suffix_len(block, pos) ==> block[i] != TERMINATOR,
        pos + suffix_len(block, pos) < block.len() ==> block[pos + suffix_len(block, pos)]
            == TERMINATOR,
    decreases block.len() - pos,
{
    if pos < block.len() && block[pos] != TERMINATOR {
        lemma_suffix_is_free(block, pos + 1);
    }
}

/// The records that are decoded hold no terminator.
pub proof fn lemma_decoded_records_valid(input: Seq<u8>, pos: int, prev: Seq<u8>)
    requires
        terminator_free(prev),
    ensures
        match decode_records(input, pos, prev) {
            Ok((records, _)) => valid_records(records),
            Err(_) => true,
        },
    decreases input.len() - pos,
{
    if pos < 0 || pos >= input.len() || input[pos] == BOUNDARY {
    } else {
        match decode_record(input, pos, prev) {
            Err(_) => {},
            Ok((record, next)) => {
                let (shared, start) = decode_len(input, pos)->0;
                lemma_suffix_is_free(input, start);
                assert(terminator_free(record)) by {
                    let end = start + suffix_len(input, start);
                    assert forall|i: int| 0 <= i < record.len() implies record[i]
                        != TERMINATOR by {
                        if i < shared {
                            assert(record[i] == prev[i]);
                        } else {
                            assert(record[i] == input[start + (i - shared)]);
                        }
                    }
                }
                lemma_decoded_records_valid(input, next, record);
                if let Ok((rest, _)) = decode_records(input, next, record) {
                    let records = seq![record] + rest;
                    assert forall|i: int| 0 <= i < records.len() implies terminator_free(
                        #[trigger] records[i],
                    ) by {
                        if i > 0 {
                            assert(records[i] == rest[i - 1]);
                        }
                    }
                }
            },
        }
    }
}

/// The records of the blocks that are decoded from `pos` up to `next`, in
/// their order.
pub open spec fn records_between(input: Seq<u8>, pos: int, next: int) -> Seq<Seq<u8>>
    decreases input.len() - pos,
    via records_between_decreases
{
    if pos < 0 || pos >= next || pos >= input.len() {
        Seq::empty()
    } else {
        match decode_block(input, pos) {
            Ok((records, after)) => records + records_between(input, after, next),
            Err(_) => Seq::empty(),
        }
    }
}

#[via_fn]
proof fn records_between_decreases(input: Seq<u8>, pos: int, next: int) {
    lemma_records_end(input, pos + 1, Seq::empty());
}

/// The records of the blocks that are decoded up to some index are the
/// first of the records of the stream.
pub proof fn lemma_records_between_is_prefix(input: Seq<u8>, pos: int, next: int)
    requires
        0 <= pos,
        decode_stream(input, pos) is Ok,
    ensures
        exists|rest: Seq<Seq<u8>>|
            #[trigger] (records_between(input, pos, next) + rest) == decode_stream(
                input,
                pos,
            )->Ok_0.flatten(),
    decreases input.len() - pos,
{
    let blocks = decode_stream(input, pos)->Ok_0;
    if pos >= next || pos >= input.len() {
        let rest = blocks.flatten();
        assert(records_between(input, pos, next) + rest =~= rest);
    } else {
        lemma_records_end(input, pos + 1, Seq::empty());
        let (records, after) = decode_block(input, pos)->Ok_0;
        let others = decode_stream(input, after)->Ok_0;
        lemma_records_between_is_prefix(input, after, next);
        let rest = choose|rest: Seq<Seq<u8>>|
            #[trigger] (records_between(input, after, next) + rest) == others.flatten();
        assert(blocks =~= seq![records] + others);
        assert(blocks.drop_first() =~= others);
        assert(blocks.flatten() == records + others.flatten());
        assert(records_between(input, pos, next) + rest =~= blocks.flatten());
    }
}

/// What can be taken from the start of a stream of which only the bytes
/// of `buffer` have arrived, where `ended` says that no more will come:
/// the buffer of the first block and the number of bytes that it took, or
/// nothing where the block may go on in bytes that have not arrived.
///
/// A block is whole when another block begins behind it in `buffer`, or
/// when the stream has ended. An error that more bytes cannot mend is
/// given at once; the end of the bytes inside a record, or behind a lone
/// boundary, is an error only when the stream has ended.
pub open spec fn chunk_block(buffer: Seq<u8>, ended: bool) -> Result<Option<(Seq<u8>, int)>, Error> {
    if buffer.len() == 0 {
        Ok(None)
    } else {
        match decode_block(buffer, 0) {
            Ok((records, next)) => if next < buffer.len() || ended {
                Ok(Some((join_records(records), next)))
            } else {
                Ok(None)
            },
            Err(Error::Truncated) => if ended {
                Err(Error::Truncated)
            } else {
                Ok(None)
            },
            Err(Error::BadBoundary) => if buffer[0] != BOUNDARY || ended || buffer.len() > 1 {
                Err(Error::BadBoundary)
            } else {
                Ok(None)
            },
            Err(Error::PrefixTooLong) => Err(Error::PrefixTooLong),
        }
    }
}

/// Takes the first block from the bytes of a stream that have arrived so
/// far, if it is whole, and leaves the bytes behind it.
pub fn take_block(buffer: &mut Vec<u8>, ended: bool) -> (r: Result<Option<Vec<u8>>, Error>)
    ensures
        match chunk_block(old(buffer)@, ended) {
            Ok(Some((block, next))) => {
                &&& r is Ok && r->Ok_0 is Some && r->Ok_0->0@ == block
                &&& 0 < next <= old(buffer)@.len()
                &&& final(buffer)@ == old(buffer)@.subrange(next, old(buffer)@.len() as int)
            },
            Ok(None) => r is Ok && r->Ok_0 is None && final(buffer)@ == old(buffer)@,
            Err(e) => r == Err::<Option<Vec<u8>>, Error>(e) && final(buffer)@ == old(buffer)@,
        },
{
    if buffer.len() == 0 {
        return Ok(None);
    }
    let first = buffer[0];
    let mut input: Vec<u8> = Vec::new();
    core::mem::swap(buffer, &mut input);
    let n = input.len();
    let ghost all = input@;
    proof {
        lemma_records_end(all, 1, Seq::empty());
        lemma_empty_buffer_is_end(all, 0);
    }
    let mut decoder = Decoder::new(input);
    let result = decoder.decode();
    let next = decoder.offset();
    let mut input = decoder.into_input();
    match result {
        Ok(block) => {
            if next < n || ended {
                let rest = input.split_off(next);
                *buffer = rest;
                Ok(Some(block))
            } else {
                *buffer = input;
                Ok(None)
            }
        },
        Err(e) => {
            *buffer = input;
            match e {
                Error::Truncated => if ended {
                    Err(Error::Truncated)
                } else {
                    Ok(None)
                },
                Error::BadBoundary => if first != BOUNDARY || ended || n > 1 {
                    Err(Error::BadBoundary)
                } else {
                    Ok(None)
                },
                Error::PrefixTooLong => Err(Error::PrefixTooLong),
            }
        },
    }
}

/// A record that was decoded is decoded the same when bytes are added at
/// the end of the input.
proof fn lemma_record_is_stable(input: Seq<u8>, more: Seq<u8>, pos: int, prev: Seq<u8>)
    requires
        0 <= pos,
        decode_record(input, pos, prev) is Ok,
    ensures
        decode_record(input + more, pos, prev) == decode_record(input, pos, prev),
{
    let longer = input + more;
    let (shared, start) = decode_len(input, pos)->0;
    assert(longer[pos] == input[pos]);
    if input[pos] == WIDE {
        assert(longer[pos + 1] == input[pos + 1]);
        assert(longer[pos + 2] == input[pos + 2]);
    }
    assert(decode_len(longer, pos) == decode_len(input, pos));
    lemma_suffix_is_free(input, start);
    let count = suffix_len(input, start) as int;
    assert(longer[start + count] == input[start + count]);
    assert forall|j: int| start <= j < start + count implies longer[j] != TERMINATOR by {
        assert(longer[j] == input[j]);
    }
    lemma_suffix_len(longer, start, count);
    assert(longer.subrange(start, start + count) =~= input.subrange(start, start + count));
}

/// Records that were decoded up to a boundary are decoded the same when
/// bytes are added at the end of the input.
proof fn lemma_records_are_stable(input: Seq<u8>, more: Seq<u8>, pos: int, prev: Seq<u8>)
    requires
        0 <= pos,
        match decode_records(input, pos, prev) {
            Ok((_, end)) => end < input.len(),
            Err(_) => false,
        },
    ensures
        decode_records(input + more, pos, prev) == decode_records(input, pos, prev),
    decreases input.len() - pos,
{
    let longer = input + more;
    assert(pos < input.len());
    assert(longer[pos] == input[pos]);
    if input[pos] != BOUNDARY {
        lemma_record_is_stable(input, more, pos, prev);
        let (record, next) = decode_record(input, pos, prev)->Ok_0;
        lemma_records_are_stable(input, more, next, record);
    }
}

/// A block that is taken from the bytes that have arrived is the first
/// block of the stream, whatever bytes follow: what is taken chunk by
/// chunk is what the whole stream decodes to.
pub proof fn lemma_taken_block_is_first(buffer: Seq<u8>, more: Seq<u8>)
    ensures
        match chunk_block(buffer, false) {
            Ok(Some((block, next))) => next_buffer(buffer + more, 0) == Ok::<
                (Seq<u8>, int),
                Error,
            >((block, next)),
            _ => true,
        },
        buffer.len() > 0 ==> match chunk_block(buffer, true) {
            Ok(Some(taken)) => next_buffer(buffer, 0) == Ok::<(Seq<u8>, int), Error>(taken),
            Ok(None) => false,
            Err(e) => next_buffer(buffer, 0) == Err::<(Seq<u8>, int), Error>(e),
        },
{
    if buffer.len() > 0 {
        let longer = buffer + more;
        assert(longer[0] == buffer[0]);
        if let Ok((records, next)) = decode_block(buffer, 0) {
            if next < buffer.len() {
                lemma_records_are_stable(buffer, more, 1, Seq::empty());
            }
        }
    }
}

} // verus!
