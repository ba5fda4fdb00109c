//! What expressions and their parts have in common.

use crate::types::constant::Constant;
use crate::types::expression::Expression;
use crate::types::formula::{undefined_text, Formula, Outcome, Values};
use crate::types::scope::VarScope;
use crate::types::var::VarName;
use crate::types::varset::VarSet;
use vstd::prelude::*;

verus! {

/// What can be evaluated under the values of its variables.
pub trait Eval {
    /// The value of `self` under the values of its variables, or the variable
    /// that had none.
    spec fn value_under(&self, values: Values) -> Outcome;

    /// Given values of all variables, evaluate the expression.
    fn evaluate(&self, scope: &VarScope) -> (out: Result<Constant, String>)
        ensures
            match self.value_under(scope@) {
                Ok(constant) => out == Ok::<Constant, String>(constant),
                Err(name) => out is Err && out->Err_0@ == undefined_text(name),
            },
    ;
}

/// What can be simplified into an expression.
pub trait Simplify: Sized {
    /// `self` simplified: by the laws that hold of every variable where
    /// `values` is `None`, else with the known values put in first.
    spec fn simplified_under(&self, values: Option<Values>) -> Formula;

    /// Given values of SOME variables, simplify the expression
    fn simplify_with(self, scope: &VarScope) -> (out: Expression)
        ensures
            out@ == self.simplified_under(Some(scope@)),
    ;

    /// Simplify, using universal rules only
    fn simplify(self) -> (out: Expression)
        ensures
            out@ == self.simplified_under(None),
    ;
}

/// What can tell the variables that occur in it.
pub trait VarVisibility {
    /// The variables that occur in `self`.
    spec fn used_variables(&self) -> Set<VarName>;

    /// Adds the variables that occur in `self` to the set.
    fn get_used_variables(&self, varset: &mut VarSet)
        ensures
            final(varset)@ == old(varset)@.union(self.used_variables()),
    ;
}

/// An operation on expressions, and the laws that hold of it.
pub trait Operator: Eval + Simplify + VarVisibility {
    // a * b = b * a
    // Allows sorting of terms in expression, like based on tree depth to avoid long computations
    fn is_commutative(&self) -> bool;

    // (a * b) * c = a * (b * c)
    // Allows for converting Op(x1, x2, ..., Op(y1, y2, ...)) -> Op(x1, x2, ..., y1, y2, ...)
    fn is_associative(&self) -> bool;
}

} // verus!
