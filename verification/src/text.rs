//! Characters and strings: the classes of characters, which the standard
//! library tells, and numbers written in decimal.

use vstd::prelude::*;

verus! {

/// Whether a character is numeric, as `char::is_numeric` tells.
pub uninterp spec fn is_numeric_char(c: char) -> bool;

/// Whether a character is white space, as `char::is_whitespace` tells.
pub uninterp spec fn is_whitespace_char(c: char) -> bool;

/// Whether a character is alphabetic, as `char::is_alphabetic` tells.
pub uninterp spec fn is_alphabetic_char(c: char) -> bool;

/// Appends one character to a string with `String::push`. The contract says
/// that the string afterwards is the string before followed by that character.
#[verifier::external_body]
pub(crate) fn push_char(text: &mut String, c: char)
    ensures
        final(text)@ == old(text)@.push(c),
{
    text.push(c)
}

/// Asks `char::is_numeric`, which goes by the Unicode tables of the standard
/// library. The contract only gives the answer its name.
#[verifier::external_body]
pub(crate) fn char_is_numeric(c: char) -> (out: bool)
    ensures
        out == is_numeric_char(c),
{
    c.is_numeric()
}

/// Asks `char::is_whitespace`, which goes by the Unicode tables of the
/// standard library. The contract only gives the answer its name.
#[verifier::external_body]
pub(crate) fn char_is_whitespace(c: char) -> (out: bool)
    ensures
        out == is_whitespace_char(c),
{
    c.is_whitespace()
}

/// Asks `char::is_alphabetic`, which goes by the Unicode tables of the
/// standard library. The contract only gives the answer its name.
#[verifier::external_body]
pub(crate) fn char_is_alphabetic(c: char) -> (out: bool)
    ensures
        out == is_alphabetic_char(c),
{
    c.is_alphabetic()
}

/// The character of one decimal digit.
pub open spec fn digit_glyph(digit: int) -> char {
    if digit == 0 {
        '0'
    } else if digit == 1 {
        '1'
    } else if digit == 2 {
        '2'
    } else if digit == 3 {
        '3'
    } else if digit == 4 {
        '4'
    } else if digit == 5 {
        '5'
    } else if digit == 6 {
        '6'
    } else if digit == 7 {
        '7'
    } else if digit == 8 {
        '8'
    } else {
        '9'
    }
}

/// A number written in decimal, most significant digit first.
pub open spec fn decimal_text(num: nat) -> Seq<char>
    decreases num,
{
    if num < 10 {
        seq![digit_glyph(num as int)]
    } else {
        decimal_text(num / 10).push(digit_glyph((num % 10) as int))
    }
}

/// The value of a decimal digit, if the character is one.
pub open spec fn digit_value(c: char) -> Option<nat> {
    if '0' <= c <= '9' {
        Some((c as u32 - '0' as u32) as nat)
    } else {
        None
    }
}

fn digit_char(digit: usize) -> (out: char)
    requires
        digit < 10,
    ensures
        out == digit_glyph(digit as int),
{
    if digit == 0 {
        '0'
    } else if digit == 1 {
        '1'
    } else if digit == 2 {
        '2'
    } else if digit == 3 {
        '3'
    } else if digit == 4 {
        '4'
    } else if digit == 5 {
        '5'
    } else if digit == 6 {
        '6'
    } else if digit == 7 {
        '7'
    } else if digit == 8 {
        '8'
    } else {
        '9'
    }
}

/// Appends a number in decimal.
pub fn push_decimal(out: &mut String, num: usize)
    ensures
        final(out)@ == old(out)@ + decimal_text(num as nat),
    decreases num,
{
    if num >= 10 {
        push_decimal(out, num / 10);
    }
    push_char(out, digit_char(num % 10));
}

/// The value of a decimal digit, if the character is one.
pub fn decimal_digit(c: char) -> (out: Option<u32>)
    ensures
        match digit_value(c) {
            Some(value) => out == Some(value as u32) && value < 10,
            None => out is None,
        },
{
    if '0' <= c && c <= '9' {
        Some(c as u32 - '0' as u32)
    } else {
        None
    }
}

/// The characters of a string.
pub fn chars_of(input: &str) -> (out: Vec<char>)
    ensures
        out@ == input@,
{
    let mut out: Vec<char> = Vec::new();
    for c in it: input.chars()
        invariant
            it.seq() == input@,
            out@ == input@.take(it.index() as int),
    {
        assert(input@.take(it.index() as int).push(c) =~= input@.take(it.index() + 1));
        out.push(c);
    }
    assert(input@.take(input@.len() as int) =~= input@);
    out
}

/// The texts of a list of strings.
pub open spec fn texts(list: Seq<String>) -> Seq<Seq<char>> {
    Seq::new(list.len(), |i: int| list[i]@)
}

} // verus!
