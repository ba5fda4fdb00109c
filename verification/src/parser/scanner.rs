//! The scanner, which cuts a source text into lexemes.

use crate::parser::lexeme::Lexeme;
use crate::text::{
    char_is_alphabetic, char_is_numeric, char_is_whitespace, chars_of, is_alphabetic_char,
    is_numeric_char, is_whitespace_char, push_char, texts,
};
use vstd::prelude::*;

verus! {

/// What a character is to the scanner when a lexeme begins with it.
#[derive(Debug, Clone, Copy, PartialEq, Eq, Structural)]
pub enum CharKind {
    /// An operator, a bracket, or one of the digits 0 and 1: a lexeme of its own.
    Single,
    /// A numeric character other than 0 and 1: reported and passed over.
    BadDigit,
    /// White space: passed over.
    Space,
    /// Nothing of the above and no letter: reported and passed over.
    Stray,
    /// A letter: the beginning of an identifier.
    Letter,
}

/// Whether a character is one of the operators and brackets.
pub open spec fn is_symbol(c: char) -> bool {
    c == '~' || c == '&' || c == '|' || c == '^' || c == '[' || c == ']' || c == '(' || c == ')'
}

/// What a character is to the scanner, given what the classes of characters
/// say of it.
pub open spec fn kind_of(c: char, numeric: bool, whitespace: bool, alphabetic: bool) -> CharKind {
    if is_symbol(c) {
        CharKind::Single
    } else if numeric {
        if c == '0' || c == '1' {
            CharKind::Single
        } else {
            CharKind::BadDigit
        }
    } else if whitespace {
        CharKind::Space
    } else if !alphabetic {
        CharKind::Stray
    } else {
        CharKind::Letter
    }
}

/// What a character is to the scanner.
pub open spec fn kind_at(c: char) -> CharKind {
    kind_of(c, is_numeric_char(c), is_whitespace_char(c), is_alphabetic_char(c))
}

/// The number of numeric characters in a row from position `from` on.
pub open spec fn numeric_run(chars: Seq<char>, from: int) -> nat
    decreases chars.len() - from,
{
    if 0 <= from < chars.len() && is_numeric_char(chars[from]) {
        1 + numeric_run(chars, from + 1)
    } else {
        0
    }
}

/// The length of the lexeme that begins at position `pos`: 0 where the
/// character there is passed over.
pub open spec fn lexeme_len(chars: Seq<char>, pos: int) -> nat {
    match kind_at(chars[pos]) {
        CharKind::Single => 1,
        CharKind::Letter => 1 + numeric_run(chars, pos + 1),
        _ => 0,
    }
}

/// The position at which the scanner goes on after the lexeme at `pos`.
pub open spec fn next_position(chars: Seq<char>, pos: int) -> int {
    match kind_at(chars[pos]) {
        CharKind::Letter => pos + 1 + numeric_run(chars, pos + 1),
        _ => pos + 1,
    }
}

/// The message for a numeric character that is not allowed.
pub open spec fn bad_digit_text(c: char) -> Seq<char> {
    "Numerical character '"@.push(c) + "' is not allowed!"@
}

/// The message for a character that is nothing the scanner knows.
pub open spec fn stray_text(c: char) -> Seq<char> {
    "Character '"@.push(c) + "' is neither whitespace, nor numeric!"@
}

/// What the scanner reports of the character at position `pos`.
pub open spec fn faults_at(chars: Seq<char>, pos: int) -> Seq<Seq<char>> {
    match kind_at(chars[pos]) {
        CharKind::BadDigit => seq![bad_digit_text(chars[pos])],
        CharKind::Stray => seq![stray_text(chars[pos])],
        _ => Seq::empty(),
    }
}

/// The lexemes from position `pos` to the end, without the empty ones.
pub open spec fn lexemes_from(chars: Seq<char>, pos: int) -> Seq<Lexeme>
    decreases chars.len() - pos,
{
    if pos < 0 || pos >= chars.len() {
        Seq::empty()
    } else {
        proof {
            lemma_numeric_run(chars, pos + 1);
        }
        if lexeme_len(chars, pos) == 0 {
            lexemes_from(chars, next_position(chars, pos))
        } else {
            seq![Lexeme { start: pos as usize, len: lexeme_len(chars, pos) as usize }]
                + lexemes_from(chars, next_position(chars, pos))
        }
    }
}

/// What the scanner reports from position `pos` to the end.
pub open spec fn faults_from(chars: Seq<char>, pos: int) -> Seq<Seq<char>>
    decreases chars.len() - pos,
{
    if pos < 0 || pos >= chars.len() {
        Seq::empty()
    } else {
        proof {
            lemma_numeric_run(chars, pos + 1);
        }
        faults_at(chars, pos) + faults_from(chars, next_position(chars, pos))
    }
}

/// A run of numeric characters ends within the text.
pub proof fn lemma_numeric_run(chars: Seq<char>, from: int)
    requires
        0 <= from <= chars.len(),
    ensures
        from + numeric_run(chars, from) <= chars.len(),
    decreases chars.len() - from,
{
    if from < chars.len() && is_numeric_char(chars[from]) {
        lemma_numeric_run(chars, from + 1);
    }
}

/// Every lexeme of a text lies within it.
pub proof fn lemma_lexemes_within(chars: Seq<char>, pos: int)
    requires
        0 <= pos,
        chars.len() <= usize::MAX,
    ensures
        forall|i: int|
            0 <= i < lexemes_from(chars, pos).len()
                ==> (#[trigger] lexemes_from(chars, pos)[i]).within(
                chars,
            ),
    decreases chars.len() - pos,
{
    if pos < chars.len() {
        lemma_numeric_run(chars, pos + 1);
        lemma_lexemes_within(chars, next_position(chars, pos));
        let rest = lexemes_from(chars, next_position(chars, pos));
        let all = lexemes_from(chars, pos);
        assert forall|i: int| 0 <= i < all.len() implies (#[trigger] all[i]).within(chars) by {
            if lexeme_len(chars, pos) == 0 {
                assert(all[i] == rest[i]);
            } else if i > 0 {
                assert(all[i] == rest[i - 1]);
            }
        }
    }
}

/// What a character is to the scanner, given what the classes of characters
/// say of it.
pub fn char_kind(c: char, numeric: bool, whitespace: bool, alphabetic: bool) -> (out: CharKind)
    ensures
        out == kind_of(c, numeric, whitespace, alphabetic),
{
    if c == '~' || c == '&' || c == '|' || c == '^' {
        // operators
        CharKind::Single
    } else if c == '[' || c == ']' || c == '(' || c == ')' {
        // brackets
        CharKind::Single
    } else if numeric {
        if c == '0' || c == '1' {
            CharKind::Single
        } else {
            CharKind::BadDigit
        }
    } else if whitespace {
        CharKind::Space
    } else if !alphabetic {
        CharKind::Stray
    } else {
        CharKind::Letter
    }
}

fn bad_digit_message(c: char) -> (out: String)
    ensures
        out@ == bad_digit_text(c),
{
    let mut out = String::from_str("Numerical character '");
    push_char(&mut out, c);
    out.append("' is not allowed!");
    out
}

fn stray_message(c: char) -> (out: String)
    ensures
        out@ == stray_text(c),
{
    let mut out = String::from_str("Character '");
    push_char(&mut out, c);
    out.append("' is neither whitespace, nor numeric!");
    out
}

/// Cuts a source text into lexemes and collects what it cannot read.
pub struct Scanner<'a> {
    input: &'a str,
    chars: Vec<char>,
    pos: usize,
    errors: Vec<String>,
}

impl<'a> Scanner<'a> {
    #[verifier::type_invariant]
    spec fn in_step(self) -> bool {
        self.chars@ == self.input@ && self.pos <= self.chars@.len()
    }

    /// The source text.
    pub closed spec fn source(&self) -> Seq<char> {
        self.chars@
    }

    /// The position in the source at which the scanner stands.
    pub closed spec fn position(&self) -> int {
        self.pos as int
    }

    /// The messages collected so far.
    pub closed spec fn faults(&self) -> Seq<Seq<char>> {
        texts(self.errors@)
    }

    /// A scanner at the beginning of a source, with no message.
    pub fn new(input: &'a str) -> (out: Scanner<'a>)
        ensures
            out.source() == input@,
            out.position() == 0,
            out.faults() == Seq::<Seq<char>>::empty(),
    {
        let out = Scanner { input, chars: chars_of(input), pos: 0, errors: Vec::new() };
        assert(out.faults() =~= Seq::<Seq<char>>::empty());
        out
    }

    /// Scans the rest of the source. Returns its lexemes, without the empty
    /// ones, and adds what it cannot read to the messages.
    pub fn scan(&mut self) -> (out: Vec<Lexeme>)
        ensures
            out@ == lexemes_from(old(self).source(), old(self).position()),
            final(self).faults() == old(self).faults() + faults_from(
                old(self).source(),
                old(self).position(),
            ),
            final(self).source() == old(self).source(),
            final(self).position() == final(self).source().len(),
            forall|i: int| 0 <= i < out@.len() ==> (#[trigger] out@[i]).within(old(self).source()),
    {
        let ghost chars = self.source();
        let ghost start = self.position();
        let ghost faults_before = self.faults();
        let total = self.chars.len();
        proof {
            use_type_invariant(&*self);
            lemma_lexemes_within(chars, start);
        }
        let mut lexemes: Vec<Lexeme> = Vec::new();
        assert(lexemes@ + lexemes_from(chars, start) =~= lexemes_from(chars, start));
        assert(faults_before + faults_from(chars, start) =~= faults_before + Seq::<
            Seq<char>,
        >::empty() + faults_from(chars, start));
        loop
            invariant
                self.source() == chars,
                0 <= start <= self.position() <= chars.len(),
                lexemes_from(chars, start) == lexemes@ + lexemes_from(chars, self.position()),
                exists|found: Seq<Seq<char>>|
                    self.faults() == faults_before + found && faults_from(chars, start) == found
                        + faults_from(chars, self.position()),
            ensures
                self.source() == chars,
                self.position() == chars.len(),
                lexemes_from(chars, start) == lexemes@,
                self.faults() == faults_before + faults_from(chars, start),
            decreases chars.len() - self.position(),
        {
            let ghost pos = self.position();
            let ghost found = choose|found: Seq<Seq<char>>|
                self.faults() == faults_before + found && faults_from(chars, start) == found
                    + faults_from(chars, pos);
            match self.next_lexeme() {
                None => {
                    assert(lexemes@ + Seq::<Lexeme>::empty() =~= lexemes@);
                    assert(found + Seq::<Seq<char>>::empty() =~= found);
                    break ;
                },
                Some(lex) => {
                    proof {
                        lemma_numeric_run(chars, pos + 1);
                        let more = found + faults_at(chars, pos);
                        assert(self.faults() =~= faults_before + more);
                        assert(faults_from(chars, start) =~= more + faults_from(
                            chars,
                            self.position(),
                        ));
                    }
                    if !lex.is_empty() {
                        proof {
                            assert(lexemes@.push(lex) + lexemes_from(chars, self.position())
                                =~= lexemes@ + (seq![lex] + lexemes_from(chars, self.position())));
                        }
                        lexemes.push(lex);
                    }
                },
            }
        }
        lexemes
    }

    /// The messages collected so far.
    pub fn get_errors(&self) -> (out: &[String])
        ensures
            texts(out@) == self.faults(),
    {
        self.errors.as_slice()
    }

    /// Whether a message has been collected.
    pub fn has_errors(&self) -> (out: bool)
        ensures
            out == (self.faults().len() > 0),
    {
        !self.errors.is_empty()
    }

    /// Takes the next character if there is one and the predicate holds of it.
    pub fn next_if<F>(&mut self, predicate: F) -> (out: Option<(usize, char)>) where
        F: FnOnce(char) -> bool,

        requires
            forall|c: char| predicate.requires((c,)),
        ensures
            final(self).source() == old(self).source(),
            final(self).faults() == old(self).faults(),
            match out {
                Some((at, c)) => {
                    &&& at == old(self).position()
                    &&& at < old(self).source().len()
                    &&& c == old(self).source()[at as int]
                    &&& predicate.ensures((c,), true)
                    &&& final(self).position() == at + 1
                },
                None => {
                    &&& final(self).position() == old(self).position()
                    &&& (old(self).position() >= old(self).source().len() || predicate.ensures(
                        (old(self).source()[old(self).position()],),
                        false,
                    ))
                },
            },
    {
        proof {
            use_type_invariant(&*self);
        }
        if self.pos < self.chars.len() {
            let next_char = self.chars[self.pos];
            if predicate(next_char) {
                let at = self.pos;
                self.pos = at + 1;
                return Some((at, next_char));  // Consume and return the item
            }
        }
        None  // Return None if it doesn't match

    }

    /// Adds a message.
    fn report(&mut self, message: String)
        ensures
            final(self).source() == old(self).source(),
            final(self).position() == old(self).position(),
            final(self).faults() == old(self).faults().push(message@),
    {
        proof {
            use_type_invariant(&*self);
        }
        // The list is taken out for the addition and put back after it.
        let mut errors: Vec<String> = Vec::new();
        std::mem::swap(&mut self.errors, &mut errors);
        errors.push(message);
        std::mem::swap(&mut self.errors, &mut errors);
        assert(self.faults() =~= old(self).faults().push(message@));
    }

    /// The lexeme at the position of the scanner, which moves on behind it;
    /// nothing at the end of the source. A character that is passed over
    /// gives an empty lexeme.
    fn next_lexeme(&mut self) -> (out: Option<Lexeme>)
        ensures
            final(self).source() == old(self).source(),
            old(self).position() >= old(self).source().len() ==> {
                &&& out is None
                &&& final(self).position() == old(self).position()
                &&& final(self).faults() == old(self).faults()
            },
            old(self).position() < old(self).source().len() ==> {
                &&& out == Some(
                    Lexeme {
                        start: old(self).position() as usize,
                        len: lexeme_len(old(self).source(), old(self).position()) as usize,
                    },
                )
                &&& final(self).position() == next_position(
                    old(self).source(),
                    old(self).position(),
                )
                &&& final(self).faults() == old(self).faults() + faults_at(
                    old(self).source(),
                    old(self).position(),
                )
            },
    {
        proof {
            use_type_invariant(&*self);
        }
        if self.pos >= self.chars.len() {
            return None;
        }
        let start = self.pos;
        let current = self.chars[start];
        self.pos = start + 1;
        let ghost chars = self.source();
        let kind = char_kind(
            current,
            char_is_numeric(current),
            char_is_whitespace(current),
            char_is_alphabetic(current),
        );
        match kind {
            CharKind::Single => {
                assert(self.faults() + Seq::<Seq<char>>::empty() =~= self.faults());
                Some(Lexeme::new(start, 1))
            },
            CharKind::BadDigit => {
                self.report(bad_digit_message(current));
                assert(old(self).faults().push(bad_digit_text(current)) =~= old(self).faults()
                    + seq![bad_digit_text(current)]);
                Some(Lexeme::new_empty(start))
            },
            CharKind::Space => {
                assert(self.faults() + Seq::<Seq<char>>::empty() =~= self.faults());
                Some(Lexeme::new_empty(start))
            },
            CharKind::Stray => {
                self.report(stray_message(current));
                assert(old(self).faults().push(stray_text(current)) =~= old(self).faults()
                    + seq![stray_text(current)]);
                Some(Lexeme::new_empty(start))
            },
            CharKind::Letter => {
                // must be alphabetic now
                let mut len: usize = 1;
                loop
                    invariant
                        self.source() == chars,
                        self.faults() == old(self).faults(),
                        self.position() == start + len,
                        start + len <= chars.len(),
                        numeric_run(chars, start + 1) == (len - 1) + numeric_run(
                            chars,
                            start + len,
                        ),
                    ensures
                        self.source() == chars,
                        self.faults() == old(self).faults(),
                        self.position() == start + len,
                        len == 1 + numeric_run(chars, start + 1),
                    decreases chars.len() - len,
                {
                    let numeric = |c: char| -> (out: bool)
                        ensures
                            out == is_numeric_char(c),
                        { char_is_numeric(c) };
                    match self.next_if(numeric) {
                        Some(_) => {
                            len += 1;
                        },
                        None => {
                            break ;
                        },
                    }
                }
                assert(self.faults() + Seq::<Seq<char>>::empty() =~= self.faults());
                Some(Lexeme::new(start, len))
            },
        }
    }
}

} // verus!
