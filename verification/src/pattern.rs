//! The pattern with which the records of a block are searched.
//!
//! The caller's pattern is written for the path of a file alone. In a
//! record the path follows a zero byte, so the pattern for records is the
//! caller's pattern with every anchor at the start of the text replaced by
//! a literal zero byte. The syntax tree comes from `regex_syntax`, and is
//! held here in a form that says what the replacement reads: the anchor,
//! the expressions that hold other expressions, and everything else.

use regex_syntax::{Expr, Repeater};
use vstd::prelude::*;

verus! {

/// A syntax tree of the `regex_syntax` crate.
#[verifier::external_type_specification]
#[verifier::external_body]
pub struct ExExpr(Expr);

/// A repetition operator of the `regex_syntax` crate.
#[verifier::external_type_specification]
#[verifier::external_body]
pub struct ExRepeater(Repeater);

/// A syntax tree, as far as the replacement looks into it.
pub enum Pattern {
    /// The anchor at the start of the text.
    StartText,
    /// A run of literal bytes.
    LiteralBytes { bytes: Vec<u8>, casei: bool },
    /// A group around an expression.
    Group { inner: Box<Pattern>, index: Option<usize>, name: Option<String> },
    /// A repeated expression.
    Repeat { inner: Box<Pattern>, repeater: Repeater, greedy: bool },
    /// Expressions that match one after the other.
    Concat(Vec<Pattern>),
    /// Expressions of which one matches.
    Alternate(Vec<Pattern>),
    /// Any other expression.
    Other(Expr),
}

/// A syntax tree as a mathematical value.
pub enum PatternView {
    StartText,
    LiteralBytes { bytes: Seq<u8>, casei: bool },
    Group { inner: Box<PatternView>, index: Option<usize>, name: Option<Seq<char>> },
    Repeat { inner: Box<PatternView>, repeater: Repeater, greedy: bool },
    Concat(Seq<PatternView>),
    Alternate(Seq<PatternView>),
    Other(Expr),
}

/// The views of a list of syntax trees.
pub open spec fn pattern_views(patterns: Seq<Pattern>) -> Seq<PatternView>
    decreases patterns,
{
    Seq::new(
        patterns.len(),
        |i: int|
            if 0 <= i < patterns.len() {
                pattern_view(patterns[i])
            } else {
                PatternView::StartText
            },
    )
}

/// The view of a syntax tree.
pub open spec fn pattern_view(pattern: Pattern) -> PatternView
    decreases pattern,
{
    match pattern {
        Pattern::StartText => PatternView::StartText,
        Pattern::LiteralBytes { bytes, casei } => PatternView::LiteralBytes { bytes: bytes@, casei },
        Pattern::Group { inner, index, name } => PatternView::Group {
            inner: Box::new(pattern_view(*inner)),
            index,
            name: match name {
                Some(name) => Some(name@),
                None => None,
            },
        },
        Pattern::Repeat { inner, repeater, greedy } => PatternView::Repeat {
            inner: Box::new(pattern_view(*inner)),
            repeater,
            greedy,
        },
        Pattern::Concat(parts) => PatternView::Concat(pattern_views(parts@)),
        Pattern::Alternate(parts) => PatternView::Alternate(pattern_views(parts@)),
        Pattern::Other(e) => PatternView::Other(e),
    }
}

impl View for Pattern {
    type V = PatternView;

    open spec fn view(&self) -> PatternView {
        pattern_view(*self)
    }
}

/// Each of `patterns` with its start anchors replaced.
pub open spec fn all_without_start_text(patterns: Seq<PatternView>) -> Seq<PatternView>
    decreases patterns,
{
    Seq::new(
        patterns.len(),
        |i: int|
            if 0 <= i < patterns.len() {
                without_start_text(patterns[i])
            } else {
                PatternView::StartText
            },
    )
}

/// The syntax tree with every anchor at the start of the text replaced by
/// the literal zero byte, and nothing else changed.
pub open spec fn without_start_text(pattern: PatternView) -> PatternView
    decreases pattern,
{
    match pattern {
        PatternView::StartText => PatternView::LiteralBytes { bytes: seq![0u8], casei: false },
        PatternView::Group { inner, index, name } => PatternView::Group {
            inner: Box::new(without_start_text(*inner)),
            index,
            name,
        },
        PatternView::Repeat { inner, repeater, greedy } => PatternView::Repeat {
            inner: Box::new(without_start_text(*inner)),
            repeater,
            greedy,
        },
        PatternView::Concat(parts) => PatternView::Concat(all_without_start_text(parts)),
        PatternView::Alternate(parts) => PatternView::Alternate(all_without_start_text(parts)),
        other => other,
    }
}

/// The syntax tree that `regex_syntax` parses a pattern to, if it is one.
pub uninterp spec fn parsed_pattern(source: Seq<char>) -> Option<PatternView>;

/// The pattern that `regex_syntax` writes for a syntax tree.
pub uninterp spec fn printed_pattern(pattern: PatternView) -> Seq<char>;

/// Takes a syntax tree of `regex_syntax` apart, variant by variant: the
/// anchor, literal bytes, groups, repetitions, concatenations and
/// alternations keep their fields, and any other expression is kept whole.
#[verifier::external_body]
fn from_expr(e: Expr) -> Pattern {
    match e {
        Expr::StartText => Pattern::StartText,
        Expr::LiteralBytes { bytes, casei } => Pattern::LiteralBytes { bytes, casei },
        Expr::Group { e, i, name } => Pattern::Group { inner: Box::new(from_expr(*e)), index: i, name },
        Expr::Repeat { e, r, greedy } => Pattern::Repeat { inner: Box::new(from_expr(*e)), repeater: r, greedy },
        Expr::Concat(es) => Pattern::Concat(es.into_iter().map(from_expr).collect()),
        Expr::Alternate(es) => Pattern::Alternate(es.into_iter().map(from_expr).collect()),
        other => Pattern::Other(other),
    }
}

/// Puts a syntax tree of `regex_syntax` together again, variant by variant.
#[verifier::external_body]
fn to_expr(pattern: Pattern) -> Expr {
    match pattern {
        Pattern::StartText => Expr::StartText,
        Pattern::LiteralBytes { bytes, casei } => Expr::LiteralBytes { bytes, casei },
        Pattern::Group { inner, index, name } => Expr::Group { e: Box::new(to_expr(*inner)), i: index, name },
        Pattern::Repeat { inner, repeater, greedy } => Expr::Repeat { e: Box::new(to_expr(*inner)), r: repeater, greedy },
        Pattern::Concat(parts) => Expr::Concat(parts.into_iter().map(to_expr).collect()),
        Pattern::Alternate(parts) => Expr::Alternate(parts.into_iter().map(to_expr).collect()),
        Pattern::Other(e) => e,
    }
}

/// Calls `Expr::parse` and takes the syntax tree apart: the tree of the
/// pattern, or nothing when `regex_syntax` does not accept the pattern.
#[verifier::external_body]
fn parse_pattern(source: &str) -> (r: Option<Pattern>)
    ensures
        match r {
            Some(pattern) => parsed_pattern(source@) == Some(pattern@),
            None => parsed_pattern(source@) is None,
        },
{
    Expr::parse(source).ok().map(from_expr)
}

/// Puts the syntax tree together and calls the `Display` of `Expr`, which
/// writes a pattern for the tree.
#[verifier::external_body]
fn print_pattern(pattern: Pattern) -> (text: String)
    ensures
        text@ == printed_pattern(pattern@),
{
    to_expr(pattern).to_string()
}

/// Replaces the start anchors in each of `parts`.
fn replace_all(parts: Vec<Pattern>) -> (r: Vec<Pattern>)
    ensures
        pattern_views(r@) == all_without_start_text(pattern_views(parts@)),
    decreases parts,
{
    let ghost all = parts@;
    let n = parts.len();
    let mut rest = parts;
    let mut reversed: Vec<Pattern> = Vec::new();
    while rest.len() > 0
        invariant
            n == all.len(),
            rest@.len() + reversed@.len() == n,
            rest@ == all.subrange(0, rest@.len() as int),
            forall|k: int| 0 <= k < reversed@.len() ==> reversed@[k] == all[n - 1 - k],
        decreases rest.len(),
    {
        let part = rest.pop().unwrap();
        reversed.push(part);
    }
    let mut out: Vec<Pattern> = Vec::new();
    while reversed.len() > 0
        invariant
            all == parts@,
            n == all.len(),
            out@.len() + reversed@.len() == n,
            forall|k: int| 0 <= k < reversed@.len() ==> reversed@[k] == all[n - 1 - k],
            forall|k: int|
                0 <= k < out@.len() ==> (#[trigger] out@[k])@ == without_start_text(all[k]@),
        decreases reversed.len(),
    {
        let ghost at = out@.len() as int;
        let part = reversed.pop().unwrap();
        assert(part == parts[at]);
        let replaced = replace_start_text(part);
        out.push(replaced);
    }
    proof {
        let views = pattern_views(parts@);
        assert(pattern_views(out@) =~= all_without_start_text(views));
    }
    out
}

/// Replaces every anchor at the start of the text by the literal zero
/// byte.
pub fn replace_start_text(pattern: Pattern) -> (r: Pattern)
    ensures
        r@ == without_start_text(pattern@),
    decreases pattern,
{
    match pattern {
        Pattern::StartText => {
            let mut bytes: Vec<u8> = Vec::new();
            bytes.push(0u8);
            assert(bytes@ =~= seq![0u8]);
            Pattern::LiteralBytes { bytes, casei: false }
        },
        Pattern::Group { inner, index, name } => Pattern::Group {
            inner: Box::new(replace_start_text(*inner)),
            index,
            name,
        },
        Pattern::Repeat { inner, repeater, greedy } => Pattern::Repeat {
            inner: Box::new(replace_start_text(*inner)),
            repeater,
            greedy,
        },
        Pattern::Concat(parts) => Pattern::Concat(replace_all(parts)),
        Pattern::Alternate(parts) => Pattern::Alternate(replace_all(parts)),
        other => other,
    }
}

/// The pattern for records that belongs to a pattern for paths, if
/// `regex_syntax` accepts that pattern: its syntax tree is parsed, the
/// start anchors are replaced, and the tree is written out again.
pub open spec fn scan_pattern(source: Seq<char>) -> Option<Seq<char>> {
    match parsed_pattern(source) {
        Some(pattern) => Some(printed_pattern(without_start_text(pattern))),
        None => None,
    }
}

/// Builds the pattern for records from a pattern for paths.
pub fn rewrite(source: &str) -> (r: Option<String>)
    ensures
        match r {
            Some(text) => scan_pattern(source@) == Some(text@),
            None => scan_pattern(source@) is None,
        },
{
    match parse_pattern(source) {
        Some(pattern) => Some(print_pattern(replace_start_text(pattern))),
        None => None,
    }
}

} // verus!
