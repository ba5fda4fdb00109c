//! Literals, terms, scopes and expressions, their mathematical models, and
//! the laws that hold of them.

pub mod constant;
pub mod decided;
pub mod expression;
pub mod folds;
pub mod formula;
pub mod laws;
pub mod meaning;
pub mod operation;
pub mod scope;
pub mod term;
pub mod traits;
pub mod var;
pub mod varset;
