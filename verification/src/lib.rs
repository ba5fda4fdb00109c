//! Boolean logic in two layers.
//!
//! The first layer minimizes a list of product terms: neighboring terms,
//! which differ in the sign of one literal, are merged round after round,
//! and terms that another term makes redundant are dropped
//! ([`algorithm::mintermmini`]). The second layer is an algebra of
//! expressions over literals, terms and the operations NOT, AND, OR and XOR,
//! which can be evaluated in a scope of variable values and simplified with
//! or without one ([`types`]). A scanner and a tokenizer cut a source text
//! into tokens ([`parser`]).
//!
//! The functions are verified against contracts over mathematical models:
//! a term is a sequence of literals, an expression a
//! [`types::formula::Formula`], a scope a map from variables to constants.
//! Only the four functions of [`text`] that hand a character to the standard
//! library are taken on trust. Beyond the contracts the library proves what
//! the functions mean: minimizing keeps the disjunction of the terms and is
//! idempotent ([`algorithm::truth`], [`algorithm::mintermmini`]), and
//! simplifying keeps the value of an expression ([`types::laws`]).

pub mod algorithm;
pub mod parser;
pub mod text;
pub mod types;
