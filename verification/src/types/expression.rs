//! Expressions: trees of constants, literals, terms and operations.

use crate::types::constant::Constant;
use crate::types::formula::{simplified, value, variables, Formula, Outcome, Values};
use crate::types::operation::Operation;
use crate::types::scope::VarScope;
use crate::types::term::{in_order, lemma_in_order_of_ascending, Term};
use crate::types::traits::{Eval, Simplify, VarVisibility};
use crate::types::var::{Var, VarName};
use crate::types::varset::VarSet;
use vstd::prelude::*;

verus! {

/// A Boolean expression: a tree of constants, literals, terms and operations.
#[derive(Debug)]
pub enum Expression {
    Constant(Constant),
    Var(Var),
    Term(Term),
    Operation(Operation),
}

/// The formulas that a sequence of expressions stands for.
pub open spec fn expression_views(list: Seq<Expression>) -> Seq<Formula>
    decreases list, 0int,
{
    Seq::new(
        list.len(),
        |i: int|
            if 0 <= i < list.len() {
                list[i].view()
            } else {
                Formula::Constant(Constant::ZERO)
            },
    )
}

impl Expression {
    /// The formula that the expression stands for. A term stands for the
    /// conjunction of its literals in ascending order, which is the order
    /// that every term keeps them in.
    pub open spec fn view(&self) -> Formula
        decreases self, 1int,
    {
        match self {
            Expression::Constant(constant) => Formula::Constant(*constant),
            Expression::Var(var) => Formula::Var(*var),
            Expression::Term(term) => Formula::Term(in_order(term@)),
            Expression::Operation(operation) => operation.view(),
        }
    }
}

impl Simplify for Expression {
    open spec fn simplified_under(&self, values: Option<Values>) -> Formula {
        simplified(self@, values)
    }

    fn simplify(self) -> (out: Expression)
        decreases self, 0int,
    {
        match self {
            Expression::Var(data) => data.simplify(),
            Expression::Constant(data) => data.simplify(),
            Expression::Term(data) => {
                proof {
                    use_type_invariant(&data);
                    lemma_in_order_of_ascending(data@);
                }
                data.simplify()
            },
            Expression::Operation(data) => data.simplify(),
        }
    }

    fn simplify_with(self, scope: &VarScope) -> (out: Expression)
        decreases self, 0int,
    {
        match self {
            Expression::Var(data) => data.simplify_with(scope),
            Expression::Constant(data) => data.simplify_with(scope),
            Expression::Term(data) => {
                proof {
                    use_type_invariant(&data);
                    lemma_in_order_of_ascending(data@);
                }
                data.simplify_with(scope)
            },
            Expression::Operation(data) => data.simplify_with(scope),
        }
    }
}

impl VarVisibility for Expression {
    open spec fn used_variables(&self) -> Set<VarName> {
        variables(self@)
    }

    fn get_used_variables(&self, varset: &mut VarSet)
        decreases self, 0int,
    {
        match self {
            Expression::Var(data) => data.get_used_variables(varset),
            Expression::Constant(data) => data.get_used_variables(varset),
            Expression::Term(data) => {
                proof {
                    use_type_invariant(&data);
                    lemma_in_order_of_ascending(data@);
                }
                data.get_used_variables(varset)
            },
            Expression::Operation(data) => data.get_used_variables(varset),
        }
    }
}

impl Clone for Expression {
    fn clone(&self) -> (out: Self)
        ensures
            out@ == self@,
        decreases self, 0int,
    {
        match self {
            Expression::Var(data) => Expression::Var(*data),
            Expression::Constant(data) => Expression::Constant(*data),
            Expression::Term(data) => Expression::Term(data.clone()),
            Expression::Operation(data) => Expression::Operation(data.clone()),
        }
    }
}

impl Eval for Expression {
    open spec fn value_under(&self, values: Values) -> Outcome {
        value(self@, values)
    }

    fn evaluate(&self, scope: &VarScope) -> (out: Result<Constant, String>)
        decreases self, 0int,
    {
        match self {
            Expression::Var(data) => data.evaluate(scope),
            Expression::Constant(data) => data.evaluate(scope),
            Expression::Term(data) => {
                proof {
                    use_type_invariant(&data);
                    lemma_in_order_of_ascending(data@);
                }
                data.evaluate(scope)
            },
            Expression::Operation(data) => data.evaluate(scope),
        }
    }
}

} // verus!
