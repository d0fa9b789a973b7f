//! A string stored as one `char` per position, so that positions can be indexed directly.

use vstd::prelude::*;

verus! {

/// A string of `char`s, indexable by position.
#[derive(Debug, Clone, PartialEq, Eq)]
pub struct Utf32String {
    chars: std::vec::Vec<char>,
}

/// `String::push`: appends `c` to the end of the string.
#[verifier::external_body]
fn push_char(s: &mut String, c: char)
    ensures
        final(s)@ == old(s)@.push(c),
{
    s.push(c)
}

/// The string made of `chars`, in order.
pub(crate) fn string_from_chars(chars: &[char]) -> (s: String)
    ensures
        s@ == chars@,
{
    let mut s = String::new();
    let mut i: usize = 0;
    while i < chars.len()
        invariant
            i <= chars@.len(),
            s@ == chars@.subrange(0, i as int),
        decreases chars@.len() - i,
    {
        push_char(&mut s, chars[i]);
        i = i + 1;
        proof {
            assert(s@ =~= chars@.subrange(0, i as int));
        }
    }
    proof {
        assert(chars@.subrange(0, chars@.len() as int) =~= chars@);
    }
    s
}

impl View for Utf32String {
    type V = Seq<char>;

    closed spec fn view(&self) -> Seq<char> {
        self.chars@
    }
}

impl Utf32String {
    /// The string holding `chars`.
    pub fn from_chars(chars: std::vec::Vec<char>) -> (s: Utf32String)
        ensures
            s@ == chars@,
    {
        Utf32String { chars }
    }

    /// The number of characters.
    pub fn len(&self) -> (n: usize)
        ensures
            n == self@.len(),
    {
        self.chars.len()
    }

    /// Whether the string holds no character.
    pub fn is_empty(&self) -> (b: bool)
        ensures
            b == (self@.len() == 0),
    {
        self.chars.len() == 0
    }

    /// The characters, in order.
    pub fn chars(&self) -> (s: &[char])
        ensures
            s@ == self@,
    {
        self.chars.as_slice()
    }

    /// The string as a `String` (the same characters, in order).
    pub fn to_string(&self) -> (s: String)
        ensures
            s@ == self@,
    {
        string_from_chars(self.chars.as_slice())
    }
}

impl Default for Utf32String {
    fn default() -> (s: Utf32String)
        ensures
            s@ == Seq::<char>::empty(),
    {
        Utf32String { chars: std::vec::Vec::new() }
    }
}

} // verus!
