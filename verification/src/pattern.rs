//! Parsing of search patterns into atoms.
//!
//! A pattern is split into atoms at whitespace that no backslash escapes. Each
//! atom may start with `!` (the atom must not match), then with `^` (a prefix) or
//! `'` (a substring), and may end with `$` (a postfix, or an exact match together
//! with `^`); a backslash before any of these makes it a literal character.

use vstd::prelude::*;
use crate::canonicalize::{canonical_char, canonicalize_latin};
use crate::utf32::{Utf32String, string_from_chars};

verus! {

/// How an atom treats upper and lower case.
#[derive(Debug, PartialEq, Eq, Clone, Copy, Structural)]
pub enum CaseMatching {
    /// Case is respected.
    Respect,
    /// Case is ignored: the needle is lowercased.
    Ignore,
    /// Case is ignored unless the needle holds an uppercase character.
    Smart,
}

/// Whether an atom matches characters with diacritics against their base letters.
#[derive(Debug, PartialEq, Eq, Clone, Copy, Structural)]
pub enum Normalization {
    /// Characters are compared as they are.
    Never,
    /// Characters are normalized unless the needle holds a character that decomposes.
    Smart,
}

/// How an atom's needle is matched against a haystack.
#[derive(Debug, PartialEq, Eq, Clone, Copy, Structural)]
pub enum AtomKind {
    /// The needle's characters appear in order.
    Fuzzy,
    /// The needle appears as a contiguous substring.
    Substring,
    /// The haystack starts with the needle.
    Prefix,
    /// The haystack ends with the needle.
    Postfix,
    /// The haystack is the needle.
    Exact,
}

/// Whether `c` has the Unicode `White_Space` property, which `char::is_whitespace`
/// reports: the ASCII tab, line feed, vertical tab, form feed, carriage return
/// and space, U+0085, U+00A0, U+1680, U+2000 to U+200A, U+2028, U+2029, U+202F,
/// U+205F and U+3000.
pub open spec fn white_space(c: char) -> bool {
    let u = c as u32;
    ||| 0x09 <= u <= 0x0D
    ||| u == 0x20
    ||| u == 0x85
    ||| u == 0xA0
    ||| u == 0x1680
    ||| 0x2000 <= u <= 0x200A
    ||| u == 0x2028
    ||| u == 0x2029
    ||| u == 0x202F
    ||| u == 0x205F
    ||| u == 0x3000
}

/// What `char::is_uppercase` returns for `c`: whether `c` has the Unicode
/// `Uppercase` property.
pub uninterp spec fn uppercase(c: char) -> bool;

/// The characters that `char::to_lowercase` yields for `c`.
pub uninterp spec fn lowercase_chars(c: char) -> Seq<char>;

/// The lowercase form of `c` that a needle keeps, one character per character:
/// the first character that `char::to_lowercase` yields.
pub open spec fn lowercase(c: char) -> char {
    if lowercase_chars(c).len() > 0 {
        lowercase_chars(c)[0]
    } else {
        c
    }
}

/// The characters that `unicode_normalization`'s `nfd` yields for `c`: its
/// canonical decomposition.
pub uninterp spec fn canonical_decomposition(c: char) -> Seq<char>;

/// The grapheme clusters that `unicode_segmentation`'s extended `graphemes`
/// splits a string into.
pub uninterp spec fn grapheme_clusters(s: Seq<char>) -> Seq<Seq<char>>;

/// Whether `c` has the Unicode `White_Space` property.
fn is_white_space(c: char) -> (b: bool)
    ensures
        b == white_space(c),
{
    let u = c as u32;
    (0x09 <= u && u <= 0x0D) || u == 0x20 || u == 0x85 || u == 0xA0 || u == 0x1680 || (0x2000 <= u
        && u <= 0x200A) || u == 0x2028 || u == 0x2029 || u == 0x202F || u == 0x205F || u == 0x3000
}

/// `char::is_uppercase`. Its result is named, not described.
#[verifier::external_body]
fn is_uppercase(c: char) -> (b: bool)
    ensures
        b == uppercase(c),
{
    c.is_uppercase()
}

/// `char::to_lowercase`: the characters it yields, collected. Its result is
/// named, not described.
#[verifier::external_body]
fn to_lowercase(c: char) -> (l: std::vec::Vec<char>)
    ensures
        l@ == lowercase_chars(c),
{
    c.to_lowercase().collect()
}

/// `unicode_normalization::UnicodeNormalization::nfd` on one character: the
/// characters it yields, collected. Its result is named, not described.
#[verifier::external_body]
fn nfd(c: char) -> (d: std::vec::Vec<char>)
    ensures
        d@ == canonical_decomposition(c),
{
    unicode_normalization::UnicodeNormalization::nfd(c).collect()
}

/// `unicode_segmentation::UnicodeSegmentation::graphemes` (extended clusters):
/// the clusters are named, not described, except that none is empty (the
/// iterator hands out the text between two distinct boundaries).
#[verifier::external_body]
fn graphemes(s: &str) -> (gs: std::vec::Vec<String>)
    ensures
        gs@.len() == grapheme_clusters(s@).len(),
        forall|i: int| 0 <= i < gs@.len() ==> (#[trigger] gs@[i])@ == grapheme_clusters(s@)[i],
        forall|i: int| 0 <= i < gs@.len() ==> (#[trigger] gs@[i])@.len() > 0,
{
    unicode_segmentation::UnicodeSegmentation::graphemes(s, true).map(|g| g.to_owned()).collect()
}

/// The characters a needle text is read as: its characters where it is ASCII,
/// else its grapheme clusters, each reduced to one character.
pub open spec fn needle_base(text: Seq<char>) -> Seq<char> {
    if vstd::utf8::is_ascii_chars(text) {
        text
    } else {
        Seq::new(grapheme_clusters(text).len(), |i: int| canonical_char(grapheme_clusters(text)[i]))
    }
}

/// The text with each backslash that stands directly before a whitespace
/// character removed; every other character is kept.
pub open spec fn unescape_whitespace(s: Seq<char>) -> Seq<char>
    decreases s.len(),
{
    if s.len() == 0 {
        Seq::empty()
    } else if s.len() >= 2 && s[s.len() - 2] == '\\' && white_space(s.last()) {
        unescape_whitespace(s.take(s.len() - 2)).push(s.last())
    } else {
        unescape_whitespace(s.drop_last()).push(s.last())
    }
}

/// The characters of `s`, in order.
pub fn chars_of(s: &str) -> (v: std::vec::Vec<char>)
    ensures
        v@ == s@,
{
    let n = s.unicode_len();
    let mut v: std::vec::Vec<char> = std::vec::Vec::with_capacity(n);
    let mut i: usize = 0;
    while i < n
        invariant
            n == s@.len(),
            i <= n,
            v@ == s@.subrange(0, i as int),
        decreases n - i,
    {
        v.push(s.get_char(i));
        i = i + 1;
    }
    v
}

/// `unescape_whitespace` of `s`.
fn unescape(s: &std::vec::Vec<char>) -> (out: std::vec::Vec<char>)
    ensures
        out@ == unescape_whitespace(s@),
{
    let mut out: std::vec::Vec<char> = std::vec::Vec::with_capacity(s.len());
    let mut saw_backslash = false;
    let mut i: usize = 0;
    while i < s.len()
        invariant
            i <= s@.len(),
            saw_backslash == (i > 0 && s@[i - 1] == '\\'),
            saw_backslash ==> out@.push('\\') == unescape_whitespace(s@.subrange(0, i as int)),
            !saw_backslash ==> out@ == unescape_whitespace(s@.subrange(0, i as int)),
        decreases s@.len() - i,
    {
        let c = s[i];
        let ghost prefix = s@.subrange(0, i as int);
        let ghost next = s@.subrange(0, i + 1);
        assert(next.drop_last() =~= prefix);
        assert(i > 0 ==> next.take(i - 1) =~= prefix.drop_last());
        if saw_backslash {
            proof {
                assert(!white_space('\\'));
                assert(prefix.drop_last().push('\\') =~= prefix);
                assert(unescape_whitespace(prefix) == unescape_whitespace(prefix.drop_last()).push('\\'));
                assert(out@ =~= out@.push('\\').drop_last());
                assert(out@ =~= unescape_whitespace(prefix.drop_last()));
            }
            if is_white_space(c) {
                out.push(c);
                saw_backslash = false;
                i = i + 1;
                continue;
            } else {
                out.push('\\');
            }
        }
        saw_backslash = c == '\\';
        if !saw_backslash {
            out.push(c);
        }
        i = i + 1;
    }
    if saw_backslash {
        out.push('\\');
    }
    proof {
        assert(s@.subrange(0, s@.len() as int) =~= s@);
    }
    out
}


/// The needle text before case handling: the base characters, with escaped
/// whitespace unescaped where asked for.
pub open spec fn needle_text(text: Seq<char>, escape_whitespace: bool) -> Seq<char> {
    if escape_whitespace {
        unescape_whitespace(needle_base(text))
    } else {
        needle_base(text)
    }
}

/// The characters lowercased where case is ignored outright.
pub open spec fn cased(s: Seq<char>, case: CaseMatching) -> Seq<char> {
    if case == CaseMatching::Ignore {
        s.map_values(|c: char| lowercase(c))
    } else {
        s
    }
}

/// The needle an atom built from `text` holds.
pub open spec fn needle_chars(
    text: Seq<char>,
    case: CaseMatching,
    escape_whitespace: bool,
    append_dollar: bool,
) -> Seq<char> {
    let s = cased(needle_text(text, escape_whitespace), case);
    if append_dollar {
        s.push('$')
    } else {
        s
    }
}

/// Whether an atom with needle text `s` ignores case.
pub open spec fn ignores_case(s: Seq<char>, case: CaseMatching) -> bool {
    match case {
        CaseMatching::Respect => false,
        CaseMatching::Ignore => true,
        CaseMatching::Smart => forall|i: int| 0 <= i < s.len() ==> !uppercase(#[trigger] s[i]),
    }
}

/// The character is its own canonical decomposition's head.
pub open spec fn undecomposed(c: char) -> bool {
    canonical_decomposition(c).len() == 0 || canonical_decomposition(c)[0] == c
}

/// Whether an atom with needle text `s` normalizes the characters it is matched against.
pub open spec fn normalizes(s: Seq<char>, normalization: Normalization) -> bool {
    normalization == Normalization::Smart && forall|i: int| 0 <= i < s.len() ==> undecomposed(#[trigger] s[i])
}

/// `atom` is the atom built from `text` with the given settings.
pub open spec fn built_from(
    atom: Atom,
    text: Seq<char>,
    case: CaseMatching,
    normalization: Normalization,
    kind: AtomKind,
    escape_whitespace: bool,
    append_dollar: bool,
) -> bool {
    let s = needle_text(text, escape_whitespace);
    &&& atom.kind == kind
    &&& atom.needle@ == needle_chars(text, case, escape_whitespace, append_dollar)
    &&& atom.ignore_case == ignores_case(s, case)
    &&& atom.normalize == normalizes(s, normalization)
}

/// A single search term.
#[derive(Debug, PartialEq, Eq, Clone)]
pub struct Atom {
    /// The atom matches where its needle does not.
    pub negative: bool,
    /// How the needle is matched.
    pub kind: AtomKind,
    /// What is searched for.
    pub needle: Utf32String,
    /// Case is ignored when matching.
    pub ignore_case: bool,
    /// Characters with diacritics match their base letters.
    pub normalize: bool,
}

impl Atom {
    /// An atom with needle `needle`; `escape_whitespace` makes a backslash before
    /// whitespace escape it.
    pub fn new(
        needle: &str,
        case: CaseMatching,
        normalization: Normalization,
        kind: AtomKind,
        escape_whitespace: bool,
    ) -> (atom: Atom)
        ensures
            !atom.negative,
            built_from(atom, needle@, case, normalization, kind, escape_whitespace, false),
    {
        Atom::new_inner(needle, case, normalization, kind, escape_whitespace, false)
    }

    fn new_inner(
        needle: &str,
        case: CaseMatching,
        normalization: Normalization,
        kind: AtomKind,
        escape_whitespace: bool,
        append_dollar: bool,
    ) -> (atom: Atom)
        ensures
            !atom.negative,
            built_from(atom, needle@, case, normalization, kind, escape_whitespace, append_dollar),
    {
        let base = needle_base_chars(needle);
        let text = if escape_whitespace {
            unescape(&base)
        } else {
            base
        };
        let ignore_case = match case {
            CaseMatching::Ignore => true,
            CaseMatching::Respect => false,
            CaseMatching::Smart => !any_uppercase(&text),
        };
        let normalize = match normalization {
            Normalization::Smart => all_undecomposed(&text),
            Normalization::Never => false,
        };
        let mut chars = match case {
            CaseMatching::Ignore => lowercase_all(&text),
            _ => text,
        };
        if append_dollar {
            chars.push('$');
        }
        Atom { negative: false, kind, needle: Utf32String::from_chars(chars), ignore_case, normalize }
    }
}

/// `needle_base` of the text.
fn needle_base_chars(needle: &str) -> (base: std::vec::Vec<char>)
    ensures
        base@ == needle_base(needle@),
{
    if needle.is_ascii() {
        chars_of(needle)
    } else {
        let gs = graphemes(needle);
        let mut base: std::vec::Vec<char> = std::vec::Vec::with_capacity(gs.len());
        let mut i: usize = 0;
        while i < gs.len()
            invariant
                i <= gs@.len(),
                gs@.len() == grapheme_clusters(needle@).len(),
                forall|j: int| 0 <= j < gs@.len() ==> (#[trigger] gs@[j])@ == grapheme_clusters(needle@)[j],
                forall|j: int| 0 <= j < gs@.len() ==> (#[trigger] gs@[j])@.len() > 0,
                base@.len() == i,
                forall|j: int| 0 <= j < i ==> base@[j] == canonical_char(#[trigger] grapheme_clusters(needle@)[j]),
            decreases gs@.len() - i,
        {
            let c = canonicalize_latin(gs[i].as_str());
            base.push(c);
            i = i + 1;
        }
        proof {
            assert(base@ =~= needle_base(needle@));
        }
        base
    }
}

/// Whether some character is uppercase.
fn any_uppercase(s: &std::vec::Vec<char>) -> (b: bool)
    ensures
        b == exists|i: int| 0 <= i < s@.len() && uppercase(#[trigger] s@[i]),
{
    let mut i: usize = 0;
    while i < s.len()
        invariant
            i <= s@.len(),
            forall|j: int| 0 <= j < i ==> !uppercase(#[trigger] s@[j]),
        decreases s@.len() - i,
    {
        if is_uppercase(s[i]) {
            return true;
        }
        i = i + 1;
    }
    false
}

/// Whether every character is its own canonical decomposition's head.
fn all_undecomposed(s: &std::vec::Vec<char>) -> (b: bool)
    ensures
        b == forall|i: int| 0 <= i < s@.len() ==> undecomposed(#[trigger] s@[i]),
{
    let mut i: usize = 0;
    while i < s.len()
        invariant
            i <= s@.len(),
            forall|j: int| 0 <= j < i ==> undecomposed(#[trigger] s@[j]),
        decreases s@.len() - i,
    {
        let c = s[i];
        let decomposition = nfd(c);
        let undecomposed = decomposition.len() == 0 || decomposition[0] == c;
        if !undecomposed {
            return false;
        }
        i = i + 1;
    }
    true
}

/// Every character lowercased.
fn lowercase_all(s: &std::vec::Vec<char>) -> (out: std::vec::Vec<char>)
    ensures
        out@ == s@.map_values(|c: char| lowercase(c)),
{
    let mut out: std::vec::Vec<char> = std::vec::Vec::with_capacity(s.len());
    let mut i: usize = 0;
    while i < s.len()
        invariant
            i <= s@.len(),
            out@.len() == i,
            forall|j: int| 0 <= j < i ==> out@[j] == lowercase(#[trigger] s@[j]),
        decreases s@.len() - i,
    {
        let c = s[i];
        let lowered = to_lowercase(c);
        let lower = if lowered.len() > 0 {
            lowered[0]
        } else {
            c
        };
        out.push(lower);
        i = i + 1;
    }
    proof {
        assert(out@ =~= s@.map_values(|c: char| lowercase(c)));
    }
    out
}


/// A leading `!` negates the atom; a backslash before it makes it literal.
/// Gives whether the atom is negated and the rest of the text.
pub open spec fn split_negation(raw: Seq<char>) -> (bool, Seq<char>) {
    if raw.len() >= 1 && raw[0] == '!' {
        (true, raw.skip(1))
    } else if raw.len() >= 2 && raw[0] == '\\' && raw[1] == '!' {
        (false, raw.skip(1))
    } else {
        (false, raw)
    }
}

/// A leading `^` makes a prefix atom and a leading `'` a substring atom; a
/// backslash before either makes it literal. Gives the kind and the rest of the text.
pub open spec fn split_anchor(s: Seq<char>) -> (AtomKind, Seq<char>) {
    if s.len() >= 1 && s[0] == '^' {
        (AtomKind::Prefix, s.skip(1))
    } else if s.len() >= 1 && s[0] == '\'' {
        (AtomKind::Substring, s.skip(1))
    } else if s.len() >= 2 && s[0] == '\\' && (s[1] == '^' || s[1] == '\'') {
        (AtomKind::Fuzzy, s.skip(1))
    } else {
        (AtomKind::Fuzzy, s)
    }
}

/// A trailing `$` anchors the atom at the end; an escaped `\$` is kept as a
/// literal `$` at the end of the needle. Gives the kind, the rest of the text and
/// whether a literal `$` is appended to the needle.
pub open spec fn split_end(kind: AtomKind, s: Seq<char>) -> (AtomKind, Seq<char>, bool) {
    if s.len() >= 2 && s[s.len() - 2] == '\\' && s[s.len() - 1] == '$' {
        (kind, s.take(s.len() - 2), true)
    } else if s.len() >= 1 && s[s.len() - 1] == '$' {
        (if kind == AtomKind::Fuzzy {
            AtomKind::Postfix
        } else {
            AtomKind::Exact
        }, s.take(s.len() - 1), false)
    } else {
        (kind, s, false)
    }
}

/// Whether the atom written as `raw` is negated.
pub open spec fn parsed_negative(raw: Seq<char>) -> bool {
    split_negation(raw).0
}

/// The kind of the atom written as `raw`: a negated fuzzy atom is a substring atom.
pub open spec fn parsed_kind(raw: Seq<char>) -> AtomKind {
    let negative = split_negation(raw).0;
    let (kind, rest) = split_anchor(split_negation(raw).1);
    let kind = split_end(kind, rest).0;
    if negative && kind == AtomKind::Fuzzy {
        AtomKind::Substring
    } else {
        kind
    }
}

/// The needle text of the atom written as `raw`, with its markers removed.
pub open spec fn parsed_text(raw: Seq<char>) -> Seq<char> {
    let (kind, rest) = split_anchor(split_negation(raw).1);
    split_end(kind, rest).1
}

/// Whether the atom written as `raw` ends in an escaped `$`.
pub open spec fn parsed_dollar(raw: Seq<char>) -> bool {
    let (kind, rest) = split_anchor(split_negation(raw).1);
    split_end(kind, rest).2
}

/// `atom` is the atom written as `raw`.
pub open spec fn parsed_from(atom: Atom, raw: Seq<char>, case: CaseMatching, normalization: Normalization) -> bool {
    &&& atom.negative == parsed_negative(raw)
    &&& built_from(atom, parsed_text(raw), case, normalization, parsed_kind(raw), true, parsed_dollar(raw))
}

/// The needle of the atom written as `raw`.
pub open spec fn parsed_needle(raw: Seq<char>, case: CaseMatching) -> Seq<char> {
    needle_chars(parsed_text(raw), case, true, parsed_dollar(raw))
}

impl Atom {
    /// The atom written as `raw`, with its markers (`!`, `^`, `'`, `$`) read and
    /// escaped whitespace unescaped.
    #[verifier::rlimit(40)]
    pub fn parse(raw: &str, case: CaseMatching, normalize: Normalization) -> (atom: Atom)
        ensures
            parsed_from(atom, raw@, case, normalize),
    {
        let cs = chars_of(raw);
        let n = cs.len();
        let mut lo: usize = 0;
        let invert = if n >= 1 && cs[0] == '!' {
            lo = 1;
            true
        } else if n >= 2 && cs[0] == '\\' && cs[1] == '!' {
            lo = 1;
            false
        } else {
            false
        };
        let ghost after_negation = cs@.subrange(lo as int, n as int);
        proof {
            assert(after_negation =~= split_negation(raw@).1);
        }
        let mut kind = if lo < n && cs[lo] == '^' {
            lo = lo + 1;
            AtomKind::Prefix
        } else if lo < n && cs[lo] == '\'' {
            lo = lo + 1;
            AtomKind::Substring
        } else if lo + 1 < n && cs[lo] == '\\' && (cs[lo + 1] == '^' || cs[lo + 1] == '\'') {
            lo = lo + 1;
            AtomKind::Fuzzy
        } else {
            AtomKind::Fuzzy
        };
        let ghost after_anchor = cs@.subrange(lo as int, n as int);
        proof {
            assert(after_anchor =~= split_anchor(after_negation).1);
            assert(kind == split_anchor(after_negation).0);
        }
        let mut hi: usize = n;
        let mut append_dollar = false;
        if hi - lo >= 2 && cs[hi - 2] == '\\' && cs[hi - 1] == '$' {
            append_dollar = true;
            hi = hi - 2;
        } else if hi - lo >= 1 && cs[hi - 1] == '$' {
            kind = if kind == AtomKind::Fuzzy {
                AtomKind::Postfix
            } else {
                AtomKind::Exact
            };
            hi = hi - 1;
        }
        proof {
            assert(cs@.subrange(lo as int, hi as int) =~= split_end(split_anchor(after_negation).0, after_anchor).1);
        }
        if invert && kind == AtomKind::Fuzzy {
            kind = AtomKind::Substring;
        }
        let text = raw.substring_char(lo, hi);
        let mut atom = Atom::new_inner(text, case, normalize, kind, true, append_dollar);
        atom.negative = invert;
        atom
    }
}


/// The pattern text split at each whitespace character that does not stand
/// directly after a backslash; the pieces may be empty.
pub open spec fn pattern_pieces(s: Seq<char>) -> Seq<Seq<char>>
    decreases s.len(),
{
    if s.len() == 0 {
        seq![Seq::empty()]
    } else {
        let pieces = pattern_pieces(s.drop_last());
        let c = s.last();
        if white_space(c) && !(s.len() >= 2 && s[s.len() - 2] == '\\') {
            pieces.push(Seq::empty())
        } else {
            pieces.update(pieces.len() - 1, pieces.last().push(c))
        }
    }
}

/// `atoms` are the atoms of those `pieces` whose needle is not empty, in order.
pub open spec fn atoms_of_pieces(
    atoms: Seq<Atom>,
    pieces: Seq<Seq<char>>,
    case: CaseMatching,
    normalization: Normalization,
) -> bool
    decreases pieces.len(),
{
    if pieces.len() == 0 {
        atoms.len() == 0
    } else if parsed_needle(pieces.last(), case).len() > 0 {
        &&& atoms.len() > 0
        &&& parsed_from(atoms.last(), pieces.last(), case, normalization)
        &&& atoms_of_pieces(atoms.drop_last(), pieces.drop_last(), case, normalization)
    } else {
        atoms_of_pieces(atoms, pieces.drop_last(), case, normalization)
    }
}

/// A search pattern: the atoms that must all match.
#[derive(Debug, PartialEq, Eq, Clone)]
pub struct Pattern {
    pub atoms: std::vec::Vec<Atom>,
}

impl Pattern {
    /// The pattern written as `pattern`: its text split at unescaped whitespace,
    /// each piece parsed as an atom, and the atoms with an empty needle dropped.
    pub fn parse(pattern: &str, case_matching: CaseMatching, normalize: Normalization) -> (p: Pattern)
        ensures
            atoms_of_pieces(p.atoms@, pattern_pieces(pattern@), case_matching, normalize),
    {
        let cs = chars_of(pattern);
        let mut atoms: std::vec::Vec<Atom> = std::vec::Vec::new();
        let mut current: std::vec::Vec<char> = std::vec::Vec::new();
        let mut saw_backslash = false;
        let mut i: usize = 0;
        while i < cs.len()
            invariant
                i <= cs@.len(),
                cs@ == pattern@,
                pattern_pieces(cs@.subrange(0, i as int)).len() > 0,
                current@ == pattern_pieces(cs@.subrange(0, i as int)).last(),
                saw_backslash == (i > 0 && cs@[i - 1] == '\\'),
                atoms_of_pieces(
                    atoms@,
                    pattern_pieces(cs@.subrange(0, i as int)).drop_last(),
                    case_matching,
                    normalize,
                ),
            decreases cs@.len() - i,
        {
            let c = cs[i];
            let ghost prefix = cs@.subrange(0, i as int);
            let ghost pieces = pattern_pieces(prefix);
            assert(cs@.subrange(0, i + 1).drop_last() =~= prefix);
            if is_white_space(c) && !saw_backslash {
                let ghost before = atoms@;
                push_atom(&mut atoms, &current, case_matching, normalize);
                current = std::vec::Vec::new();
                proof {
                    assert(pattern_pieces(cs@.subrange(0, i + 1)).drop_last() =~= pieces);
                    assert(pieces == pieces.drop_last().push(pieces.last()));
                }
            } else {
                saw_backslash = c == '\\';
                current.push(c);
                proof {
                    assert(pattern_pieces(cs@.subrange(0, i + 1)).drop_last() =~= pieces.drop_last());
                }
            }
            i = i + 1;
        }
        let ghost pieces = pattern_pieces(cs@);
        assert(cs@.subrange(0, cs@.len() as int) =~= cs@);
        push_atom(&mut atoms, &current, case_matching, normalize);
        proof {
            assert(pieces == pieces.drop_last().push(pieces.last()));
        }
        Pattern { atoms }
    }
}

/// Parses `piece` and appends its atom where the needle is not empty.
fn push_atom(
    atoms: &mut std::vec::Vec<Atom>,
    piece: &std::vec::Vec<char>,
    case: CaseMatching,
    normalize: Normalization,
)
    ensures
        parsed_needle(piece@, case).len() > 0 ==> {
            &&& final(atoms)@.len() > 0
            &&& parsed_from(final(atoms)@.last(), piece@, case, normalize)
            &&& final(atoms)@.drop_last() == old(atoms)@
        },
        parsed_needle(piece@, case).len() == 0 ==> final(atoms)@ == old(atoms)@,
{
    let text = string_from_chars(piece.as_slice());
    let atom = Atom::parse(text.as_str(), case, normalize);
    if !atom.needle.is_empty() {
        atoms.push(atom);
        proof {
            assert(atoms@.drop_last() =~= old(atoms)@);
        }
    }
}


/// Escapes only impact whitespace: a text without whitespace is unescaped to itself.
pub proof fn lemma_escapes_only_impact_whitespace(s: Seq<char>)
    requires
        forall|i: int| 0 <= i < s.len() ==> !white_space(#[trigger] s[i]),
    ensures
        unescape_whitespace(s) == s,
    decreases s.len(),
{
    if s.len() > 0 {
        let p = s.drop_last();
        assert forall|i: int| 0 <= i < p.len() implies !white_space(#[trigger] p[i]) by {
            assert(p[i] == s[i]);
        }
        lemma_escapes_only_impact_whitespace(p);
        assert(!white_space(s[s.len() - 1]));
        assert(p.push(s.last()) =~= s);
    }
}

/// A text without backslashes is unescaped to itself.
pub proof fn lemma_unescape_without_backslash(s: Seq<char>)
    requires
        forall|i: int| 0 <= i < s.len() ==> #[trigger] s[i] != '\\',
    ensures
        unescape_whitespace(s) == s,
    decreases s.len(),
{
    if s.len() > 0 {
        let p = s.drop_last();
        assert forall|i: int| 0 <= i < p.len() implies #[trigger] p[i] != '\\' by {
            assert(p[i] == s[i]);
        }
        lemma_unescape_without_backslash(p);
        if s.len() >= 2 {
            assert(s[s.len() - 2] != '\\');
        }
        assert(p.push(s.last()) =~= s);
    }
}

/// The characters that separate atoms are exactly the code points with the
/// Unicode `White_Space` property, which `char::is_whitespace` reports: the tab,
/// line feed, vertical tab, form feed, carriage return, space, next line,
/// no-break space, ogham space mark, the spaces from en quad to hair space, the
/// line and paragraph separators, narrow no-break space, medium mathematical
/// space and ideographic space.
pub proof fn lemma_white_space_code_points(c: char)
    ensures
        white_space(c) <==> {
            ||| c == '\t' || c == '\n' || c == '\u{0B}' || c == '\u{0C}' || c == '\r' || c == ' '
            ||| c == '\u{85}' || c == '\u{A0}' || c == '\u{1680}'
            ||| c == '\u{2000}' || c == '\u{2001}' || c == '\u{2002}' || c == '\u{2003}'
            ||| c == '\u{2004}' || c == '\u{2005}' || c == '\u{2006}' || c == '\u{2007}'
            ||| c == '\u{2008}' || c == '\u{2009}' || c == '\u{200A}'
            ||| c == '\u{2028}' || c == '\u{2029}' || c == '\u{202F}' || c == '\u{205F}'
            ||| c == '\u{3000}'
        },
{
}

/// A pattern without whitespace is a single piece: it parses to at most one
/// atom, the atom written as the whole pattern.
pub proof fn lemma_pattern_without_whitespace(
    s: Seq<char>,
    atoms: Seq<Atom>,
    case: CaseMatching,
    normalization: Normalization,
)
    requires
        forall|i: int| 0 <= i < s.len() ==> !white_space(#[trigger] s[i]),
        atoms_of_pieces(atoms, pattern_pieces(s), case, normalization),
    ensures
        pattern_pieces(s) == seq![s],
        atoms.len() <= 1,
        atoms.len() == 1 ==> parsed_from(atoms[0], s, case, normalization),
{
    lemma_pieces_without_whitespace(s);
    let pieces = pattern_pieces(s);
    assert(pieces.last() == s);
    assert(pieces.drop_last() =~= Seq::<Seq<char>>::empty());
    reveal_with_fuel(atoms_of_pieces, 2);
    if parsed_needle(s, case).len() > 0 {
        assert(atoms_of_pieces(atoms.drop_last(), pieces.drop_last(), case, normalization));
        assert(atoms.drop_last().len() == 0);
    } else {
        assert(atoms_of_pieces(atoms, pieces.drop_last(), case, normalization));
    }
}

/// Splitting a text without whitespace gives the text itself as the one piece.
proof fn lemma_pieces_without_whitespace(s: Seq<char>)
    requires
        forall|i: int| 0 <= i < s.len() ==> !white_space(#[trigger] s[i]),
    ensures
        pattern_pieces(s) == seq![s],
    decreases s.len(),
{
    if s.len() > 0 {
        let p = s.drop_last();
        assert forall|i: int| 0 <= i < p.len() implies !white_space(#[trigger] p[i]) by {
            assert(p[i] == s[i]);
        }
        lemma_pieces_without_whitespace(p);
        assert(!white_space(s[s.len() - 1]));
        assert(p.push(s.last()) =~= s);
        assert(seq![p].update(0, p.push(s.last())) =~= seq![s]);
    } else {
        assert(s =~= Seq::<char>::empty());
    }
}

/// Splitting a pattern drops exactly the separators: no piece holds a
/// whitespace character unless a backslash stands directly before it, and the
/// characters of the pieces together with one separator between each two
/// neighbouring pieces are as many as the pattern's characters.
pub proof fn lemma_pattern_pieces_split(s: Seq<char>)
    ensures
        pattern_pieces(s).len() >= 1,
        pattern_pieces(s).flatten().len() + pattern_pieces(s).len() - 1 == s.len(),
        forall|k: int, j: int|
            #![trigger pattern_pieces(s)[k][j]]
            0 <= k < pattern_pieces(s).len() && 0 <= j < pattern_pieces(s)[k].len() && white_space(
                pattern_pieces(s)[k][j],
            ) ==> j > 0 && pattern_pieces(s)[k][j - 1] == '\\',
    decreases s.len(),
{
    if s.len() == 0 {
        assert(seq![Seq::<char>::empty()].flatten() =~= Seq::<char>::empty()) by {
            seq![Seq::<char>::empty()].lemma_flatten_one_element();
        }
    } else {
        let p = s.drop_last();
        let c = s.last();
        lemma_pattern_pieces_split(p);
        let pieces = pattern_pieces(p);
        let d = pieces.drop_last();
        let l = pieces.last();
        assert(d.push(l) =~= pieces);
        d.lemma_flatten_push(l);
        if white_space(c) && !(s.len() >= 2 && s[s.len() - 2] == '\\') {
            pieces.lemma_flatten_push(Seq::<char>::empty());
            assert(pieces.flatten() + Seq::<char>::empty() =~= pieces.flatten());
            let next = pieces.push(Seq::<char>::empty());
            assert forall|k: int, j: int|
                #![trigger next[k][j]]
                0 <= k < next.len() && 0 <= j < next[k].len() && white_space(next[k][j])
                    implies j > 0 && next[k][j - 1] == '\\' by {
                assert(k < pieces.len());
                assert(next[k] == pieces[k]);
            }
        } else {
            let next = pieces.update(pieces.len() - 1, l.push(c));
            assert(d.push(l.push(c)) =~= next);
            d.lemma_flatten_push(l.push(c));
            assert(d.flatten() + l.push(c) =~= d.flatten() + l + seq![c]);
            if p.len() > 0 {
                assert(p.last() == s[s.len() - 2]);
            }
            assert forall|k: int, j: int|
                #![trigger next[k][j]]
                0 <= k < next.len() && 0 <= j < next[k].len() && white_space(next[k][j])
                    implies j > 0 && next[k][j - 1] == '\\' by {
                if k < pieces.len() - 1 {
                    assert(next[k] == pieces[k]);
                } else if j < l.len() {
                    assert(next[k][j] == pieces[k][j]);
                    assert(next[k][j - 1] == pieces[k][j - 1]);
                } else {
                    assert(next[k][j] == c);
                    lemma_piece_ends_where_text_does(p);
                    assert(j > 0);
                    assert(next[k][j - 1] == l[l.len() - 1]);
                }
            }
        }
    }
}

/// The last piece of a split text ends with the text's last character, unless
/// that character was a separator and the last piece is empty.
proof fn lemma_piece_ends_where_text_does(s: Seq<char>)
    requires
        s.len() > 0,
    ensures
        pattern_pieces(s).len() >= 1,
        pattern_pieces(s).last().len() > 0 ==> pattern_pieces(s).last().last() == s.last(),
        pattern_pieces(s).last().len() == 0 ==> white_space(s.last()),
        s.last() == '\\' ==> pattern_pieces(s).last().len() > 0,
    decreases s.len(),
{
    let p = s.drop_last();
    if p.len() > 0 {
        lemma_piece_ends_where_text_does(p);
    } else {
        assert(pattern_pieces(p) == seq![Seq::<char>::empty()]);
    }
    let pieces = pattern_pieces(p);
    assert(pieces.len() >= 1);
    assert(!white_space('\\'));
    if !(white_space(s.last()) && !(s.len() >= 2 && s[s.len() - 2] == '\\')) {
        let next = pieces.update(pieces.len() - 1, pieces.last().push(s.last()));
        assert(next.last() == pieces.last().push(s.last()));
    }
}

/// How an atom treats case, whatever its text: with `Respect` it never ignores
/// case and with `Ignore` it always does; with `Smart` it ignores case exactly
/// when no character of its needle (before a literal `$` that was appended) is
/// uppercase, so a single uppercase character anywhere makes it case-sensitive.
/// Only `Ignore` changes the needle's characters: otherwise the needle is the
/// needle text itself.
pub proof fn lemma_atom_case(
    atom: Atom,
    text: Seq<char>,
    case: CaseMatching,
    normalization: Normalization,
    kind: AtomKind,
    escape_whitespace: bool,
    append_dollar: bool,
)
    requires
        built_from(atom, text, case, normalization, kind, escape_whitespace, append_dollar),
    ensures
        case == CaseMatching::Respect ==> !atom.ignore_case,
        case == CaseMatching::Ignore ==> atom.ignore_case,
        case != CaseMatching::Ignore ==> atom.needle@ == (if append_dollar {
            needle_text(text, escape_whitespace).push('$')
        } else {
            needle_text(text, escape_whitespace)
        }),
        case == CaseMatching::Smart ==> (atom.ignore_case <==> forall|i: int|
            0 <= i < atom.needle@.len() - (if append_dollar { 1int } else { 0int })
                ==> !uppercase(#[trigger] atom.needle@[i])),
{
    let s = needle_text(text, escape_whitespace);
    if case == CaseMatching::Smart {
        let n = atom.needle@;
        assert(n.len() - (if append_dollar { 1int } else { 0int }) == s.len());
        assert forall|i: int| 0 <= i < s.len() implies n[i] == s[i] by {
            if append_dollar {
                assert(n == s.push('$'));
            }
        }
        if atom.ignore_case {
            assert forall|i: int| 0 <= i < n.len() - (if append_dollar { 1int } else { 0int })
                implies !uppercase(#[trigger] n[i]) by {
                assert(n[i] == s[i]);
            }
        }
        if forall|i: int| 0 <= i < n.len() - (if append_dollar { 1int } else { 0int })
            ==> !uppercase(#[trigger] n[i]) {
            assert forall|i: int| 0 <= i < s.len() implies !uppercase(#[trigger] s[i]) by {
                assert(n[i] == s[i]);
            }
        }
    }
}

/// Whether an atom normalizes, whatever its text: never with `Never`; with
/// `Smart` exactly when every character of its needle text is the first
/// character of its own canonical decomposition, so a single character anywhere
/// that decomposes into another turns normalization off.
pub proof fn lemma_atom_normalization(
    atom: Atom,
    text: Seq<char>,
    case: CaseMatching,
    normalization: Normalization,
    kind: AtomKind,
    escape_whitespace: bool,
    append_dollar: bool,
)
    requires
        built_from(atom, text, case, normalization, kind, escape_whitespace, append_dollar),
    ensures
        normalization == Normalization::Never ==> !atom.normalize,
        normalization == Normalization::Smart ==> (atom.normalize <==> forall|i: int|
            0 <= i < needle_text(text, escape_whitespace).len() ==> {
                let c = #[trigger] needle_text(text, escape_whitespace)[i];
                canonical_decomposition(c).len() == 0 || canonical_decomposition(c)[0] == c
            }),
{
}

/// The atoms of a parsed pattern all have a needle.
pub proof fn lemma_pattern_atoms_have_needles(
    atoms: Seq<Atom>,
    pieces: Seq<Seq<char>>,
    case: CaseMatching,
    normalization: Normalization,
)
    requires
        atoms_of_pieces(atoms, pieces, case, normalization),
    ensures
        forall|k: int| 0 <= k < atoms.len() ==> (#[trigger] atoms[k]).needle@.len() > 0,
    decreases pieces.len(),
{
    if pieces.len() > 0 {
        if parsed_needle(pieces.last(), case).len() > 0 {
            lemma_pattern_atoms_have_needles(atoms.drop_last(), pieces.drop_last(), case, normalization);
            assert forall|k: int| 0 <= k < atoms.len() implies (#[trigger] atoms[k]).needle@.len() > 0 by {
                if k < atoms.len() - 1 {
                    assert(atoms.drop_last()[k] == atoms[k]);
                }
            }
        } else {
            lemma_pattern_atoms_have_needles(atoms, pieces.drop_last(), case, normalization);
        }
    }
}

} // verus!
