//! The tokenizer, which turns lexemes into tokens.

use crate::parser::lexeme::Lexeme;
use crate::text::{
    char_is_alphabetic, decimal_digit, decimal_text, digit_value, is_alphabetic_char,
    push_decimal, texts,
};
use crate::types::var::VarName;
use vstd::prelude::*;

verus! {

/// Turns lexemes into tokens and collects what is no token.
pub struct Tokenizer {
    errors: Vec<String>,
}

#[derive(Debug, Clone, Copy, PartialEq, Eq, Structural)]
pub enum Token {
    ParenL,
    ParenR,
    BracketL,
    BracketR,
    // operators
    Tilde,
    Ampersand,
    Pipe,
    Caret,
    // constants
    C0,
    C1,
    // identifier
    Identifier(VarName),
}

/// What is wrong with a text that should be an identifier.
#[derive(Debug, Clone, Copy, PartialEq, Eq, Structural)]
pub enum Malformed {
    /// It does not begin with a letter.
    NoLetter,
    /// A character after the letter is no decimal digit.
    NoNumber,
    /// The number after the letter is above 255.
    TooLarge,
}

/// The token of a text that is a token by itself.
pub open spec fn symbol_token(text: Seq<char>) -> Option<Token> {
    if text.len() != 1 {
        None
    } else if text[0] == '(' {
        Some(Token::ParenL)
    } else if text[0] == ')' {
        Some(Token::ParenR)
    } else if text[0] == '[' {
        Some(Token::BracketL)
    } else if text[0] == ']' {
        Some(Token::BracketR)
    } else if text[0] == '~' {
        Some(Token::Tilde)
    } else if text[0] == '&' {
        Some(Token::Ampersand)
    } else if text[0] == '|' {
        Some(Token::Pipe)
    } else if text[0] == '^' {
        Some(Token::Caret)
    } else if text[0] == '0' {
        Some(Token::C0)
    } else if text[0] == '1' {
        Some(Token::C1)
    } else {
        None
    }
}

/// Whether the characters from position 1 up to, but without, `upto` are
/// decimal digits.
pub open spec fn digits_until(text: Seq<char>, upto: int) -> bool {
    forall|i: int| 1 <= i < upto ==> digit_value(#[trigger] text[i]) is Some
}

/// The number that the decimal digits from position 1 up to, but without,
/// `upto` write.
pub open spec fn number_until(text: Seq<char>, upto: int) -> nat
    decreases upto,
{
    if upto <= 1 {
        0
    } else {
        number_until(text, upto - 1) * 10 + digit_value(text[upto - 1]).unwrap_or(0)
    }
}

/// What a text that is not empty is as an identifier: a letter, and after it
/// either nothing or a number of at most 255 in decimal digits.
pub open spec fn identifier_of(text: Seq<char>) -> Result<VarName, Malformed> {
    identifier_with(text, is_alphabetic_char(text[0]))
}

/// What a text that is not empty is as an identifier, given whether its
/// first character is a letter.
pub open spec fn identifier_with(text: Seq<char>, alphabetic: bool) -> Result<VarName, Malformed> {
    let number = number_until(text, text.len() as int);
    if !alphabetic {
        Err(Malformed::NoLetter)
    } else if !digits_until(text, text.len() as int) {
        Err(Malformed::NoNumber)
    } else if number > 255 {
        Err(Malformed::TooLarge)
    } else {
        Ok(
            VarName {
                name: text[0],
                subscript: if text.len() == 1 {
                    None
                } else {
                    Some(number as u8)
                },
            },
        )
    }
}

/// How a lexeme is shown in a message.
pub open spec fn lexeme_text(lexeme: Lexeme) -> Seq<char> {
    "Lexeme { start: "@ + decimal_text(lexeme.start as nat) + ", len: "@ + decimal_text(
        lexeme.len as nat,
    ) + " }"@
}

/// The message for a lexeme whose text is no identifier.
pub open spec fn malformed_text(lexeme: Lexeme, text: Seq<char>, what: Malformed) -> Seq<char> {
    "Tokenizer error: Lexeme '"@ + lexeme_text(lexeme) + "' representing '"@ + text + (match what {
        Malformed::NoLetter => "' is not a valid identifier!"@,
        Malformed::NoNumber => "' does not have a valid number!"@,
        Malformed::TooLarge => "', an identifier has a subscript that can't fit into u8!"@,
    })
}

/// The token of a text, if it has one: none for the empty text, else the
/// token that it is by itself, else the identifier that it is.
pub open spec fn token_of(text: Seq<char>) -> Option<Token> {
    if text.len() == 0 {
        None
    } else if symbol_token(text) is Some {
        symbol_token(text)
    } else {
        match identifier_of(text) {
            Ok(name) => Some(Token::Identifier(name)),
            Err(_) => None,
        }
    }
}

/// The messages for a text: one if it is not empty, no token by itself and
/// no identifier.
pub open spec fn faults_of(lexeme: Lexeme, text: Seq<char>) -> Seq<Seq<char>> {
    if text.len() == 0 || symbol_token(text) is Some {
        Seq::empty()
    } else {
        match identifier_of(text) {
            Ok(_) => Seq::empty(),
            Err(what) => seq![malformed_text(lexeme, text, what)],
        }
    }
}

/// The tokens of the first `count` lexemes of a source.
pub open spec fn tokens_of(lexemes: Seq<Lexeme>, source: Seq<char>, count: int) -> Seq<Token>
    decreases count,
{
    if count <= 0 {
        Seq::empty()
    } else {
        match token_of(lexemes[count - 1].text_in(source)) {
            Some(token) => tokens_of(lexemes, source, count - 1).push(token),
            None => tokens_of(lexemes, source, count - 1),
        }
    }
}

/// The messages for the first `count` lexemes of a source.
pub open spec fn all_faults_of(lexemes: Seq<Lexeme>, source: Seq<char>, count: int) -> Seq<
    Seq<char>,
>
    decreases count,
{
    if count <= 0 {
        Seq::empty()
    } else {
        all_faults_of(lexemes, source, count - 1) + faults_of(
            lexemes[count - 1],
            lexemes[count - 1].text_in(source),
        )
    }
}

fn malformed_message(lexeme: &Lexeme, identifier: &str, what: Malformed) -> (out: String)
    ensures
        out@ == malformed_text(*lexeme, identifier@, what),
{
    let mut out = String::from_str("Tokenizer error: Lexeme '");
    out.append("Lexeme { start: ");
    push_decimal(&mut out, lexeme.start);
    out.append(", len: ");
    push_decimal(&mut out, lexeme.len);
    out.append(" }");
    out.append("' representing '");
    out.append(identifier);
    match what {
        Malformed::NoLetter => out.append("' is not a valid identifier!"),
        Malformed::NoNumber => out.append("' does not have a valid number!"),
        Malformed::TooLarge => out.append(
            "', an identifier has a subscript that can't fit into u8!",
        ),
    }
    assert(out@ =~= malformed_text(*lexeme, identifier@, what));
    out
}

/// What a text that is not empty is as an identifier, given whether its
/// first character is a letter.
pub fn read_identifier(identifier: &str, alphabetic: bool) -> (out: Result<VarName, Malformed>)
    requires
        identifier@.len() > 0,
    ensures
        out == identifier_with(identifier@, alphabetic),
{
    let count = identifier.unicode_len();
    let name = identifier.get_char(0);
    if !alphabetic {
        return Err(Malformed::NoLetter);
    }
    let mut has_any_digit = false;
    let mut number: u32 = 0;
    let mut at: usize = 1;
    while at < count
        invariant
            1 <= at <= count,
            count == identifier@.len(),
            alphabetic,
            has_any_digit == (at > 1),
            digits_until(identifier@, at as int),
            number <= 255 ==> number == number_until(identifier@, at as int),
            number > 255 ==> number_until(identifier@, at as int) > 255,
            number <= 2559,
        decreases count - at,
    {
        let digit = identifier.get_char(at);
        match decimal_digit(digit) {
            None => {
                assert(!digits_until(identifier@, count as int));
                return Err(Malformed::NoNumber);
            },
            Some(value) => {
                has_any_digit = true;
                if number <= 255 {
                    number = number * 10 + value;
                }
            },
        }
        at += 1;
    }
    if number <= 255 {
        let subscript = if has_any_digit {
            Some(number as u8)
        } else {
            None
        };
        return Ok(VarName::new(name, subscript));
    }
    Err(Malformed::TooLarge)
}

impl Tokenizer {
    /// The messages collected so far.
    pub closed spec fn faults(&self) -> Seq<Seq<char>> {
        texts(self.errors@)
    }

    /// A tokenizer that has collected no message.
    pub fn new() -> (out: Self)
        ensures
            out.faults() == Seq::<Seq<char>>::empty(),
    {
        let out = Self { errors: Vec::new() };
        assert(out.faults() =~= Seq::<Seq<char>>::empty());
        out
    }

    /// The tokens of the lexemes of a source, in their order. A lexeme that
    /// is no token is left out and adds a message.
    pub fn tokenize(&mut self, lexemes: Vec<Lexeme>, source: &str) -> (out: Vec<Token>)
        requires
            forall|i: int| 0 <= i < lexemes@.len() ==> (#[trigger] lexemes@[i]).within(source@),
        ensures
            out@ == tokens_of(lexemes@, source@, lexemes@.len() as int),
            final(self).faults() == old(self).faults() + all_faults_of(
                lexemes@,
                source@,
                lexemes@.len() as int,
            ),
    {
        let mut out: Vec<Token> = Vec::new();
        assert(self.faults() =~= old(self).faults() + all_faults_of(lexemes@, source@, 0));
        for k in 0..lexemes.len()
            invariant
                forall|i: int| 0 <= i < lexemes@.len() ==> (#[trigger] lexemes@[i]).within(source@),
                out@ == tokens_of(lexemes@, source@, k as int),
                self.faults() == old(self).faults() + all_faults_of(lexemes@, source@, k as int),
        {
            if let Some(token) = self.to_token(&lexemes[k], source) {
                out.push(token);
            }
            assert(self.faults() =~= old(self).faults() + all_faults_of(lexemes@, source@, k + 1));
        }
        out
    }

    /// The messages collected so far.
    pub fn get_errors(&self) -> (out: &[String])
        ensures
            texts(out@) == self.faults(),
    {
        self.errors.as_slice()
    }

    /// Whether a message has been collected.
    pub fn has_errors(&self) -> (out: bool)
        ensures
            out == (self.faults().len() > 0),
    {
        !self.errors.is_empty()
    }

    /// The token of a lexeme, if it has one; a message if it is no token.
    fn to_token(&mut self, lexeme: &Lexeme, source: &str) -> (out: Option<Token>)
        requires
            lexeme.within(source@),
        ensures
            out == token_of(lexeme.text_in(source@)),
            final(self).faults()
                == old(self).faults() + faults_of(*lexeme, lexeme.text_in(source@)),
    {
        let text = lexeme.str_from(source);
        let count = text.unicode_len();
        if count == 0 {
            assert(self.faults() + Seq::<Seq<char>>::empty() =~= self.faults());
            return None;
        }
        if count == 1 {
            let only = text.get_char(0);
            let symbol = if only == '(' {
                Some(Token::ParenL)
            } else if only == ')' {
                Some(Token::ParenR)
            } else if only == '[' {
                Some(Token::BracketL)
            } else if only == ']' {
                Some(Token::BracketR)
            } else if only == '~' {
                // operators
                Some(Token::Tilde)
            } else if only == '&' {
                Some(Token::Ampersand)
            } else if only == '|' {
                Some(Token::Pipe)
            } else if only == '^' {
                Some(Token::Caret)
            } else if only == '0' {
                // constants
                Some(Token::C0)
            } else if only == '1' {
                Some(Token::C1)
            } else {
                None
            };
            if symbol.is_some() {
                assert(self.faults() + Seq::<Seq<char>>::empty() =~= self.faults());
                return symbol;
            }
        }
        self.identifier_to_token(lexeme, text)
    }

    /// The token of a text that should be an identifier; a message if it is
    /// none.
    fn identifier_to_token(&mut self, lexeme: &Lexeme, identifier: &str) -> (out: Option<Token>)
        ensures
            identifier@.len() == 0 ==> out is None && final(self).faults() == old(self).faults(),
            identifier@.len() > 0 ==> match identifier_of(identifier@) {
                Ok(name) => out == Some(Token::Identifier(name)) && final(self).faults() == old(
                    self,
                ).faults(),
                Err(what) => out is None && final(self).faults() == old(self).faults().push(
                    malformed_text(*lexeme, identifier@, what),
                ),
            },
    {
        if identifier.unicode_len() == 0 {
            return None;
        }
        let name = identifier.get_char(0);
        match read_identifier(identifier, char_is_alphabetic(name)) {
            Ok(name) => Some(Token::Identifier(name)),
            Err(what) => {
                let message = malformed_message(lexeme, identifier, what);
                self.errors.push(message);
                assert(self.faults() =~= old(self).faults().push(
                    malformed_text(*lexeme, identifier@, what),
                ));
                None
            },
        }
    }
}

} // verus!
