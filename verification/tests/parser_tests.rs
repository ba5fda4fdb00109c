use boolmin::parser::lexeme::Lexeme;
use boolmin::parser::scanner::{char_kind, CharKind, Scanner};
use boolmin::parser::tokenizer::{read_identifier, Malformed, Token, Tokenizer};
use boolmin::text::{chars_of, decimal_digit, push_decimal};
use boolmin::types::var::VarName;

fn lex(start: usize, len: usize) -> Lexeme {
    Lexeme::new(start, len)
}

#[test]
fn lexeme_basics() {
    assert!(Lexeme::new_empty(3).is_empty());
    assert!(!Lexeme::new(3, 1).is_empty());
    assert_eq!(Lexeme::new_empty(3), Lexeme { start: 3, len: 0 });
    assert_eq!(Lexeme::new(1, 3).str_from("ab12c"), "b12");
    assert_eq!(Lexeme::new(5, 0).str_from("ab12c"), "");
    assert_eq!(Lexeme::new(0, 5).str_from("ab12c"), "ab12c");
    // the positions count characters
    assert_eq!(Lexeme::new(1, 2).str_from("éa1|"), "a1");
}

#[test]
fn scan_cuts_operators_brackets_constants_and_identifiers() {
    let source = "~(a1 & b12) | [x ^ 1] 0";
    let mut scanner = Scanner::new(source);
    let lexemes = scanner.scan();
    assert!(!scanner.has_errors());
    assert!(scanner.get_errors().is_empty());
    let texts: Vec<&str> = lexemes.iter().map(|l| l.str_from(source)).collect();
    assert_eq!(
        texts,
        vec!["~", "(", "a1", "&", "b12", ")", "|", "[", "x", "^", "1", "]", "0"]
    );
    assert_eq!(lexemes[2], lex(2, 2));
    assert_eq!(lexemes[4], lex(7, 3));
    // a second scan finds nothing more
    assert!(scanner.scan().is_empty());
}

#[test]
fn scan_reports_what_it_cannot_read_and_goes_on() {
    let source = "a 7 # b2";
    let mut scanner = Scanner::new(source);
    let lexemes = scanner.scan();
    assert_eq!(lexemes, vec![lex(0, 1), lex(6, 2)]);
    assert!(scanner.has_errors());
    assert_eq!(
        scanner.get_errors(),
        &[
            String::from("Numerical character '7' is not allowed!"),
            String::from("Character '#' is neither whitespace, nor numeric!"),
        ]
    );
}

#[test]
fn scan_edges() {
    let mut empty = Scanner::new("");
    assert!(empty.scan().is_empty());
    assert!(!empty.has_errors());
    // an identifier takes every numeric character after its letter
    let mut scanner = Scanner::new("x907y");
    assert_eq!(scanner.scan(), vec![lex(0, 4), lex(4, 1)]);
    // 0 and 1 on their own are constants, one lexeme each
    let mut scanner = Scanner::new("10");
    assert_eq!(scanner.scan(), vec![lex(0, 1), lex(1, 1)]);
    // letters and white space beyond ASCII
    let mut scanner = Scanner::new("é1\u{2003}ß");
    assert_eq!(scanner.scan(), vec![lex(0, 2), lex(3, 1)]);
    assert!(!scanner.has_errors());
}

#[test]
fn next_if_takes_a_character_only_if_the_predicate_holds() {
    let mut scanner = Scanner::new("a1");
    assert_eq!(scanner.next_if(|c| c == 'b'), None);
    assert_eq!(scanner.next_if(|c| c == 'a'), Some((0, 'a')));
    assert_eq!(scanner.next_if(|c| c == 'a'), None);
    assert_eq!(scanner.next_if(|c| c.is_numeric()), Some((1, '1')));
    assert_eq!(scanner.next_if(|_| true), None);
    assert!(scanner.scan().is_empty());
}

#[test]
fn char_kind_goes_by_the_classes() {
    for c in ['~', '&', '|', '^', '[', ']', '(', ')'] {
        assert_eq!(char_kind(c, false, false, false), CharKind::Single);
        assert_eq!(char_kind(c, true, true, true), CharKind::Single);
    }
    assert_eq!(char_kind('0', true, false, false), CharKind::Single);
    assert_eq!(char_kind('1', true, false, false), CharKind::Single);
    assert_eq!(char_kind('2', true, false, false), CharKind::BadDigit);
    assert_eq!(char_kind('2', true, true, true), CharKind::BadDigit);
    assert_eq!(char_kind(' ', false, true, false), CharKind::Space);
    assert_eq!(char_kind(' ', false, true, true), CharKind::Space);
    assert_eq!(char_kind('#', false, false, false), CharKind::Stray);
    assert_eq!(char_kind('a', false, false, true), CharKind::Letter);
    // without the class of numeric characters 0 is nothing special
    assert_eq!(char_kind('0', false, false, false), CharKind::Stray);
}

#[test]
fn tokenize_a_scanned_source() {
    let source = "~(a1 & b) | [x255 ^ 1] 0";
    let mut scanner = Scanner::new(source);
    let lexemes = scanner.scan();
    let mut tokenizer = Tokenizer::new();
    let tokens = tokenizer.tokenize(lexemes, source);
    assert!(!tokenizer.has_errors());
    assert_eq!(
        tokens,
        vec![
            Token::Tilde,
            Token::ParenL,
            Token::Identifier(VarName::new('a', Some(1))),
            Token::Ampersand,
            Token::Identifier(VarName::new('b', None)),
            Token::ParenR,
            Token::Pipe,
            Token::BracketL,
            Token::Identifier(VarName::new('x', Some(255))),
            Token::Caret,
            Token::C1,
            Token::BracketR,
            Token::C0,
        ]
    );
}

#[test]
fn tokenize_collects_the_malformed_identifiers() {
    let source = "x256 a7z #1 y0 q99999999999 ";
    let lexemes = vec![lex(0, 4), lex(5, 3), lex(9, 2), lex(12, 2), lex(15, 12), lex(27, 0)];
    let mut tokenizer = Tokenizer::new();
    let tokens = tokenizer.tokenize(lexemes, source);
    assert_eq!(tokens, vec![Token::Identifier(VarName::new('y', Some(0)))]);
    assert!(tokenizer.has_errors());
    assert_eq!(
        tokenizer.get_errors(),
        &[
            String::from(
                "Tokenizer error: Lexeme 'Lexeme { start: 0, len: 4 }' representing 'x256', an identifier has a subscript that can't fit into u8!"
            ),
            String::from(
                "Tokenizer error: Lexeme 'Lexeme { start: 5, len: 3 }' representing 'a7z' does not have a valid number!"
            ),
            String::from(
                "Tokenizer error: Lexeme 'Lexeme { start: 9, len: 2 }' representing '#1' is not a valid identifier!"
            ),
            String::from(
                "Tokenizer error: Lexeme 'Lexeme { start: 15, len: 12 }' representing 'q99999999999', an identifier has a subscript that can't fit into u8!"
            ),
        ]
    );
}

#[test]
fn read_identifier_cases() {
    assert!(matches!(read_identifier("x", true), Ok(n) if n == VarName::new('x', None)));
    assert!(matches!(read_identifier("x0", true), Ok(n) if n == VarName::new('x', Some(0))));
    assert!(matches!(read_identifier("x007", true), Ok(n) if n == VarName::new('x', Some(7))));
    assert!(matches!(read_identifier("x255", true), Ok(n) if n == VarName::new('x', Some(255))));
    assert!(matches!(read_identifier("x256", true), Err(Malformed::TooLarge)));
    assert!(matches!(read_identifier("x4294967296", true), Err(Malformed::TooLarge)));
    assert!(matches!(read_identifier("x2a", true), Err(Malformed::NoNumber)));
    // a numeric character that is no decimal digit
    assert!(matches!(read_identifier("x\u{0663}", true), Err(Malformed::NoNumber)));
    assert!(matches!(read_identifier("x300a", true), Err(Malformed::NoNumber)));
    assert!(matches!(read_identifier("x1", false), Err(Malformed::NoLetter)));
}

#[test]
fn text_helpers() {
    assert_eq!(chars_of("aé1"), vec!['a', 'é', '1']);
    assert!(chars_of("").is_empty());
    assert_eq!(decimal_digit('0'), Some(0));
    assert_eq!(decimal_digit('9'), Some(9));
    assert_eq!(decimal_digit('a'), None);
    assert_eq!(decimal_digit('\u{0663}'), None);
    let mut out = String::from("n=");
    push_decimal(&mut out, 0);
    push_decimal(&mut out, 1203);
    push_decimal(&mut out, usize::MAX);
    assert_eq!(out, format!("n=01203{}", usize::MAX));
}
