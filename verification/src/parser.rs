//! The lexical front end: lexemes, the scanner and the tokenizer.

pub mod lexeme;
pub mod scanner;
pub mod tokenizer;
