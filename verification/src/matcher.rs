//! Regular expressions over bytes, as the `regex` and `grep` crates
//! provide them.
//!
//! A pattern is compiled once and then used many times. The two types of
//! this module hold a compiled pattern together with its text, and what a
//! compiled pattern answers is named by that text: the same pattern gives
//! the same answer on the same bytes. None of these answers is proved
//! here: each function that asks for one says what the library takes from
//! the crate that gives it.

use crate::frcode::TERMINATOR;
use grep::{Grep, GrepBuilder, Match};
use regex::bytes::Regex;
use vstd::prelude::*;

verus! {

/// A compiled regular expression of the `regex` crate.
#[verifier::external_type_specification]
#[verifier::external_body]
pub struct ExRegex(Regex);

/// A line searcher of the `grep` crate.
#[verifier::external_type_specification]
#[verifier::external_body]
pub struct ExGrep(Grep);

/// A pattern for the path of a file or the name of a package, compiled by
/// the `regex` crate.
pub struct PathPattern {
    source: String,
    compiled: Regex,
}

impl View for PathPattern {
    type V = Seq<char>;

    /// The text of the pattern.
    closed spec fn view(&self) -> Seq<char> {
        self.source@
    }
}

/// A pattern for the records of a block, built into a line searcher by
/// the `grep` crate.
pub struct LineSearcher {
    pattern: String,
    searcher: Grep,
}

impl View for LineSearcher {
    type V = Seq<char>;

    /// The text of the pattern.
    closed spec fn view(&self) -> Seq<char> {
        self.pattern@
    }
}

/// Whether the `regex` crate compiles the pattern `source`.
pub uninterp spec fn compiles(source: Seq<char>) -> bool;

/// Whether the pattern `source` matches somewhere in `text`.
pub uninterp spec fn regex_matches(source: Seq<char>, text: Seq<u8>) -> bool;

/// The matches of the pattern `source` in `text` that do not overlap, in
/// their order: for each the index of its first byte and the index after
/// its last.
pub uninterp spec fn all_match_spans(source: Seq<char>, text: Seq<u8>) -> Seq<(usize, usize)>;

/// Whether the `grep` crate builds a line searcher from `pattern`.
pub uninterp spec fn grep_builds(pattern: Seq<char>) -> bool;

/// The first line of `buf` that the line searcher for `pattern` names
/// when it starts at `start`: the index of its first byte and the index
/// after its last.
pub uninterp spec fn grep_line(pattern: Seq<char>, buf: Seq<u8>, start: int) -> Option<(int, int)>;

/// Whether a line begins at `pos`: at the start of `buf` or right after a
/// terminator.
pub open spec fn line_start(buf: Seq<u8>, pos: int) -> bool {
    pos == 0 || (0 < pos <= buf.len() && buf[pos - 1] == TERMINATOR)
}

/// Whether `found` is a line of `buf` that ends after `start`: it begins
/// where a line begins, holds no terminator but possibly as its last byte,
/// and ends with a terminator or with `buf`.
pub open spec fn is_line_after(buf: Seq<u8>, start: int, found: Option<(int, int)>) -> bool {
    match found {
        None => true,
        Some((first, end)) => {
            &&& 0 <= first <= end <= buf.len()
            &&& start < end
            &&& line_start(buf, first)
            &&& end == buf.len() || buf[end - 1] == TERMINATOR
            &&& forall|i: int| first <= i < end - 1 ==> buf[i] != TERMINATOR
        },
    }
}

/// A pair of indices as mathematical integers.
pub open spec fn span(found: Option<(usize, usize)>) -> Option<(int, int)> {
    match found {
        Some((first, end)) => Some((first as int, end as int)),
        None => None,
    }
}

/// Calls `Regex::new` and keeps the text with what it returns. The same
/// text is always compiled, or always refused.
#[verifier::external_body]
fn compile(source: &str) -> (r: Option<PathPattern>)
    ensures
        r is Some <==> compiles(source@),
        r is Some ==> r->0@ == source@,
{
    Regex::new(source).ok().map(|compiled| PathPattern { source: source.to_string(), compiled })
}

/// Calls `Regex::is_match`. The same pattern gives the same answer on the
/// same text.
#[verifier::external_body]
pub(crate) fn is_match(pattern: &PathPattern, text: &[u8]) -> (matched: bool)
    ensures
        matched == regex_matches(pattern@, text@),
{
    pattern.compiled.is_match(text)
}

/// Whether every one of `spans` lies in a text of the length `len`.
pub open spec fn spans_within(spans: Seq<(usize, usize)>, len: nat) -> bool {
    forall|i: int| 0 <= i < spans.len() ==> (#[trigger] spans[i]).0 <= spans[i].1 <= len
}

/// Calls `Regex::find_iter` and takes the start and the end of each match
/// that it gives. The same pattern gives the same matches on the same
/// text. A match lies in the text.
#[verifier::external_body]
pub(crate) fn match_spans(pattern: &PathPattern, text: &[u8]) -> (spans: Vec<(usize, usize)>)
    ensures
        spans@ == all_match_spans(pattern@, text@),
        spans_within(spans@, text@.len()),
{
    pattern.compiled.find_iter(text).map(|m| (m.start(), m.end())).collect()
}

/// Calls `GrepBuilder::new(pattern).build()` and keeps the text with the
/// searcher that it returns, a searcher for lines that end with a line
/// feed; or gives the message of the error that the pattern gave. The
/// same pattern is always built, or always refused.
#[verifier::external_body]
fn build_grep(pattern: String) -> (built: Result<LineSearcher, String>)
    ensures
        built is Ok <==> grep_builds(pattern@),
        built is Ok ==> built->Ok_0@ == pattern@,
{
    match GrepBuilder::new(&pattern).build() {
        Ok(searcher) => Ok(LineSearcher { pattern, searcher }),
        Err(e) => Err(e.to_string()),
    }
}

/// Calls `Grep::read_match`. The same pattern gives the same answer on
/// the same buffer and start. A line that it names runs from the byte
/// after the last line feed before the match, or from the start of the
/// buffer, to the first line feed at or after the end of the match, or to
/// the end of the buffer; and it ends after `start`. For a start at or
/// after the end of the buffer it names nothing.
#[verifier::external_body]
pub(crate) fn next_line(searcher: &LineSearcher, buf: &[u8], start: usize) -> (found: Option<
    (usize, usize),
>)
    ensures
        span(found) == grep_line(searcher@, buf@, start as int),
        is_line_after(buf@, start as int, span(found)),
{
    let mut line = Match::new();
    if searcher.searcher.read_match(&mut line, buf, start) {
        Some((line.start(), line.end()))
    } else {
        None
    }
}

impl PathPattern {
    /// Compiles a pattern. Gives nothing exactly when the `regex` crate
    /// does not accept it.
    pub fn new(source: &str) -> (r: Option<PathPattern>)
        ensures
            r is Some <==> compiles(source@),
            r is Some ==> r->0@ == source@,
    {
        compile(source)
    }

    /// The text of the pattern.
    pub fn source(&self) -> (source: &str)
        ensures
            source@ == self@,
    {
        self.source.as_str()
    }

    /// The expression that was compiled from the text of the pattern, and
    /// that [`PathPattern::is_match`] asks.
    pub closed spec fn compiled(&self) -> Regex {
        self.compiled
    }

    /// Gives the compiled expression of the pattern, for what this library
    /// does not offer: the places of the matches in a text.
    pub fn regex(&self) -> (compiled: &Regex)
        ensures
            *compiled == self.compiled(),
    {
        &self.compiled
    }

    /// Tests whether the pattern matches somewhere in `text`.
    pub fn is_match(&self, text: &[u8]) -> (matched: bool)
        ensures
            matched == regex_matches(self@, text@),
    {
        is_match(self, text)
    }
}

impl LineSearcher {
    /// Builds the line searcher for a pattern, or gives the message of the
    /// error where the `grep` crate refuses the pattern.
    pub fn new(pattern: String) -> (built: Result<LineSearcher, String>)
        ensures
            built is Ok <==> grep_builds(pattern@),
            built is Ok ==> built->Ok_0@ == pattern@,
    {
        build_grep(pattern)
    }

    /// The text of the pattern.
    pub fn pattern(&self) -> (pattern: &str)
        ensures
            pattern@ == self@,
    {
        self.pattern.as_str()
    }
}

} // verus!
