//! Reduction of a grapheme cluster to a single character.

use vstd::prelude::*;

verus! {

/// What `unicode_normalization::char::compose(first, second)` returns: the
/// character that canonically composes `first` followed by `second`, if any.
pub uninterp spec fn composition(first: char, second: char) -> Option<char>;

/// `unicode_normalization::char::compose`: the canonical composition of two
/// characters, if Unicode defines one. Its result is named, not described.
#[verifier::external_body]
fn compose(first: char, second: char) -> (c: Option<char>)
    ensures
        c == composition(first, second),
{
    unicode_normalization::char::compose(first, second)
}

/// The character that a grapheme is reduced to: `'\n'` for `"\r\n"`, the
/// composition of a two-character grapheme where there is one, and otherwise
/// its first character.
pub open spec fn canonical_char(grapheme: Seq<char>) -> char
    recommends
        grapheme.len() > 0,
{
    if grapheme == seq!['\r', '\n'] {
        '\n'
    } else if grapheme.len() == 2 {
        composed_or_first(grapheme[0], composition(grapheme[0], grapheme[1]))
    } else {
        grapheme[0]
    }
}

/// The composed character where there is one, else the first character.
pub open spec fn composed_or_first(first: char, composed: Option<char>) -> char {
    match composed {
        Some(c) => c,
        None => first,
    }
}

/// The character that a two-character grapheme starting with `first` reduces
/// to, given what composing its two characters gave.
pub fn compose_or_first(first: char, composed: Option<char>) -> (c: char)
    ensures
        c == composed_or_first(first, composed),
{
    match composed {
        Some(c) => c,
        None => first,
    }
}

/// Canonicalize a grapheme to a single char.
///
/// For the most part, this is simply the first `char` of a grapheme. The two exceptions are:
///
/// - The windows-style newline `\r\n`, which is normalized to the char `'\n'`.
/// - A two-codepoint grapheme which has a canonical Unicode composition, which is normalized to
///   the composed character.
///
/// The input string is not checked to actually correspond to a grapheme.
pub fn canonicalize_latin(grapheme: &str) -> (c: char)
    requires
        grapheme@.len() > 0,
    ensures
        c == canonical_char(grapheme@),
        grapheme@.len() != 2 ==> c == grapheme@[0],
{
    proof {
        lemma_canonical_char_cases(grapheme@);
    }
    let len = grapheme.unicode_len();
    let first = grapheme.get_char(0);
    if len != 2 {
        return first;
    }
    let second = grapheme.get_char(1);
    if first == '\r' && second == '\n' {
        proof {
            assert(grapheme@ =~= seq!['\r', '\n']);
        }
        return '\n';
    }
    proof {
        if grapheme@ == seq!['\r', '\n'] {
            assert(grapheme@[0] == '\r');
        }
    }
    compose_or_first(first, compose(first, second))
}

/// How a grapheme is reduced: a grapheme that is not exactly two characters
/// long reduces to its first character; `"\r\n"` reduces to `'\n'`; any other
/// two-character grapheme reduces to the canonical composition of its two
/// characters where there is one, and to its first character where there is none.
pub proof fn lemma_canonical_char_cases(g: Seq<char>)
    requires
        g.len() > 0,
    ensures
        g.len() != 2 ==> canonical_char(g) == g[0],
        g.len() == 2 && g[0] == '\r' && g[1] == '\n' ==> canonical_char(g) == '\n',
        g.len() == 2 && !(g[0] == '\r' && g[1] == '\n') ==> match composition(g[0], g[1]) {
            Some(composed) => canonical_char(g) == composed,
            None => canonical_char(g) == g[0],
        },
{
    if g.len() == 2 && g[0] == '\r' && g[1] == '\n' {
        assert(g =~= seq!['\r', '\n']);
    }
    if g == seq!['\r', '\n'] {
        assert(g.len() == 2 && g[0] == '\r' && g[1] == '\n');
    }
}

} // verus!
