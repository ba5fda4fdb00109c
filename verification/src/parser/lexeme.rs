//! Stretches of a source text.

use vstd::prelude::*;

verus! {

/// A stretch of the source: `len` characters from character `start` on.
#[derive(Debug, Clone, Copy, PartialEq, Eq)]
pub struct Lexeme {
    pub start: usize,
    pub len: usize,
}

impl Lexeme {
    /// The characters of the lexeme in the source.
    pub open spec fn text_in(&self, source: Seq<char>) -> Seq<char> {
        source.subrange(self.start as int, self.start + self.len)
    }

    /// Whether the lexeme lies within the source.
    pub open spec fn within(&self, source: Seq<char>) -> bool {
        self.start + self.len <= source.len()
    }

    /// Whether the lexeme has no character.
    pub fn is_empty(&self) -> (out: bool)
        ensures
            out == (self.len == 0),
    {
        self.len == 0
    }

    /// The lexeme of `len` characters from character `start` on.
    pub fn new(start: usize, len: usize) -> (out: Self)
        ensures
            out == (Lexeme { start, len }),
    {
        Lexeme { start, len }
    }

    /// The empty lexeme at character `start`.
    pub fn new_empty(start: usize) -> (out: Self)
        ensures
            out == (Lexeme { start, len: 0 }),
    {
        Lexeme { start, len: 0 }
    }

    /// The text of the lexeme in the source.
    pub fn str_from<'a>(&self, source: &'a str) -> (out: &'a str)
        requires
            self.within(source@),
        ensures
            out@ == self.text_in(source@),
    {
        let total = source.unicode_len();
        assert(self.start + self.len <= total);
        source.substring_char(self.start, self.start + self.len)
    }
}

} // verus!
