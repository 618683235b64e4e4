//! Bytes without a line feed.
//!
//! A path may hold a line feed, and a record may not. So a path is stored
//! escaped: a line feed as the escape byte and the letter `n`, the escape
//! byte itself twice, and every other byte as it is.

use crate::files::NUL;
use crate::frcode::TERMINATOR;
use vstd::prelude::*;

verus! {

/// The byte that begins an escape.
pub const ESCAPE: u8 = 0x1B;

/// The byte that follows the escape byte for a line feed.
pub const FEED: u8 = 0x6E;

/// The bytes that stand for one byte.
pub open spec fn escaped_byte(b: u8) -> Seq<u8> {
    if b == TERMINATOR {
        seq![ESCAPE, FEED]
    } else if b == ESCAPE {
        seq![ESCAPE, ESCAPE]
    } else {
        seq![b]
    }
}

/// The bytes that stand for `s`.
pub open spec fn escaped(s: Seq<u8>) -> Seq<u8>
    decreases s.len(),
{
    if s.len() == 0 {
        Seq::empty()
    } else {
        escaped_byte(s[0]) + escaped(s.drop_first())
    }
}

/// `b` before the bytes of `rest`, if there are any.
pub open spec fn prepend(b: u8, rest: Option<Seq<u8>>) -> Option<Seq<u8>> {
    match rest {
        Some(rest) => Some(seq![b] + rest),
        None => None,
    }
}

/// The bytes that `s` stands for, if every escape byte in it begins an
/// escape.
pub open spec fn unescaped(s: Seq<u8>) -> Option<Seq<u8>>
    decreases s.len(),
{
    if s.len() == 0 {
        Some(Seq::empty())
    } else if s[0] != ESCAPE {
        prepend(s[0], unescaped(s.drop_first()))
    } else if s.len() < 2 {
        None
    } else if s[1] == FEED {
        prepend(TERMINATOR, unescaped(s.subrange(2, s.len() as int)))
    } else if s[1] == ESCAPE {
        prepend(ESCAPE, unescaped(s.subrange(2, s.len() as int)))
    } else {
        None
    }
}

/// Whether `s` holds no zero byte.
pub open spec fn nul_free(s: Seq<u8>) -> bool {
    forall|i: int| 0 <= i < s.len() ==> s[i] != NUL
}

/// A byte added at the end is escaped after the others.
pub proof fn lemma_escaped_push(s: Seq<u8>, b: u8)
    ensures
        escaped(s.push(b)) == escaped(s) + escaped_byte(b),
    decreases s.len(),
{
    let longer = s.push(b);
    if s.len() == 0 {
        assert(longer.drop_first() =~= Seq::<u8>::empty());
        assert(longer[0] == b);
        assert(escaped(longer.drop_first()) =~= Seq::<u8>::empty());
        assert(escaped(longer) =~= escaped_byte(b));
        assert(escaped(s) + escaped_byte(b) =~= escaped_byte(b));
    } else {
        assert(longer.drop_first() =~= s.drop_first().push(b));
        lemma_escaped_push(s.drop_first(), b);
        assert(escaped(longer) =~= escaped(s) + escaped_byte(b));
    }
}

/// Escaped bytes hold no line feed, and no zero byte where the bytes that
/// they stand for hold none.
pub proof fn lemma_escaped_is_free(s: Seq<u8>)
    ensures
        forall|i: int| 0 <= i < escaped(s).len() ==> escaped(s)[i] != TERMINATOR,
        nul_free(s) ==> nul_free(escaped(s)),
    decreases s.len(),
{
    if s.len() > 0 {
        lemma_escaped_is_free(s.drop_first());
        let head = escaped_byte(s[0]);
        let tail = escaped(s.drop_first());
        assert forall|i: int| 0 <= i < escaped(s).len() implies escaped(s)[i] != TERMINATOR by {
            if i >= head.len() {
                assert(escaped(s)[i] == tail[i - head.len()]);
            }
        }
        if nul_free(s) {
            assert(nul_free(s.drop_first())) by {
                assert forall|i: int| 0 <= i < s.drop_first().len() implies s.drop_first()[i]
                    != NUL by {
                    assert(s.drop_first()[i] == s[i + 1]);
                }
            }
            assert forall|i: int| 0 <= i < escaped(s).len() implies escaped(s)[i] != NUL by {
                if i >= head.len() {
                    assert(escaped(s)[i] == tail[i - head.len()]);
                } else {
                    assert(s[0] != NUL);
                }
            }
        }
    }
}

/// Escaped bytes stand for the bytes that were escaped.
pub proof fn lemma_unescape_inverts(s: Seq<u8>)
    ensures
        unescaped(escaped(s)) == Some(s),
    decreases s.len(),
{
    if s.len() == 0 {
        assert(s =~= Seq::<u8>::empty());
    } else {
        let head = escaped_byte(s[0]);
        let tail = escaped(s.drop_first());
        let all = escaped(s);
        lemma_unescape_inverts(s.drop_first());
        assert(all[0] == head[0]);
        if s[0] == TERMINATOR || s[0] == ESCAPE {
            assert(all[1] == head[1]);
            assert(all.subrange(2, all.len() as int) =~= tail);
        } else {
            assert(all.drop_first() =~= tail);
        }
        assert(seq![s[0]] + s.drop_first() =~= s);
    }
}

/// Tests whether `s` holds no zero byte.
pub fn is_nul_free(s: &[u8]) -> (ok: bool)
    ensures
        ok == nul_free(s@),
{
    let mut i: usize = 0;
    while i < s.len()
        invariant
            i <= s@.len(),
            forall|j: int| 0 <= j < i ==> s@[j] != NUL,
        decreases s.len() - i,
    {
        if s[i] == NUL {
            return false;
        }
        i += 1;
    }
    true
}

/// Appends to `out` the bytes that stand for `s`.
pub fn push_escaped(out: &mut Vec<u8>, s: &[u8])
    ensures
        final(out)@ == old(out)@ + escaped(s@),
{
    let mut i: usize = 0;
    assert(old(out)@ + escaped(s@.subrange(0, 0)) =~= old(out)@);
    while i < s.len()
        invariant
            i <= s@.len(),
            out@ == old(out)@ + escaped(s@.subrange(0, i as int)),
        decreases s.len() - i,
    {
        let b = s[i];
        proof {
            assert(s@.subrange(0, i as int).push(b) =~= s@.subrange(0, i + 1));
            lemma_escaped_push(s@.subrange(0, i as int), b);
        }
        let ghost before = out@;
        if b == TERMINATOR {
            out.push(ESCAPE);
            out.push(FEED);
        } else if b == ESCAPE {
            out.push(ESCAPE);
            out.push(ESCAPE);
        } else {
            out.push(b);
        }
        assert(out@ =~= before + escaped_byte(b));
        assert(out@ =~= old(out)@ + escaped(s@.subrange(0, i + 1)));
        i += 1;
    }
    assert(s@.subrange(0, i as int) =~= s@);
}

/// `head` before the bytes of `rest`, if there are any.
pub open spec fn prepend_all(head: Seq<u8>, rest: Option<Seq<u8>>) -> Option<Seq<u8>> {
    match rest {
        Some(rest) => Some(head + rest),
        None => None,
    }
}

/// Reads the bytes that `s` stands for. Gives nothing exactly when an
/// escape byte in `s` begins no escape.
pub fn unescape(s: &[u8]) -> (r: Option<Vec<u8>>)
    ensures
        match unescaped(s@) {
            Some(bytes) => r is Some && r->0@ == bytes,
            None => r is None,
        },
{
    let n = s.len();
    let mut out: Vec<u8> = Vec::new();
    let mut i: usize = 0;
    proof {
        assert(s@.subrange(0, n as int) =~= s@);
        if let Some(rest) = unescaped(s@) {
            assert(out@ + rest =~= rest);
        }
    }
    while i < n
        invariant
            n == s@.len(),
            i <= n,
            unescaped(s@) == prepend_all(out@, unescaped(s@.subrange(i as int, n as int))),
        decreases n - i,
    {
        let ghost rest = s@.subrange(i as int, n as int);
        let ghost before = out@;
        let b = s[i];
        assert(rest[0] == b);
        if b != ESCAPE {
            out.push(b);
            proof {
                assert(rest.drop_first() =~= s@.subrange(i + 1, n as int));
                if let Some(tail) = unescaped(rest.drop_first()) {
                    assert(before + (seq![b] + tail) =~= out@ + tail);
                }
            }
            i += 1;
        } else {
            if n - i < 2 {
                return None;
            }
            let c = s[i + 1];
            assert(rest[1] == c);
            if c == FEED {
                out.push(TERMINATOR);
            } else if c == ESCAPE {
                out.push(ESCAPE);
            } else {
                return None;
            }
            proof {
                assert(rest.subrange(2, rest.len() as int) =~= s@.subrange(i + 2, n as int));
                if let Some(tail) = unescaped(rest.subrange(2, rest.len() as int)) {
                    assert(before + (seq![out@.last()] + tail) =~= out@ + tail);
                }
            }
            i += 2;
        }
    }
    proof {
        assert(s@.subrange(i as int, n as int) =~= Seq::<u8>::empty());
        assert(out@ + Seq::<u8>::empty() =~= out@);
    }
    Some(out)
}

} // verus!
