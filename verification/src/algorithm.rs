//! The minimization of lists of terms.

pub mod mintermmini;
pub mod truth;
