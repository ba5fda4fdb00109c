//! The laws of simplification, stated of expressions.

use crate::types::decided::lemma_value_is_simplified;
use crate::types::expression::{expression_views, Expression};
use crate::types::formula::{each_tidy, simplified, tidy, value, Formula, Values};
use crate::types::meaning::lemma_simplified_keeps_value;
use crate::types::operation::Operation;
use crate::types::term::lemma_in_order;
use vstd::prelude::*;

verus! {

/// The formula of every expression is tidy.
pub proof fn lemma_expression_tidy(expression: Expression)
    ensures
        tidy(expression@),
    decreases expression,
{
    match expression {
        Expression::Constant(_) => {},
        Expression::Var(_) => {},
        Expression::Term(term) => {
            lemma_in_order(term@);
        },
        Expression::Operation(operation) => {
            match operation {
                Operation::NOT(inner) => {
                    lemma_expression_tidy(*inner);
                },
                Operation::AND(parts) => {
                    lemma_expressions_tidy(parts);
                },
                Operation::OR(parts) => {
                    lemma_expressions_tidy(parts);
                },
                Operation::XOR(parts) => {
                    lemma_expressions_tidy(parts);
                },
            }
        },
    }
}

proof fn lemma_expressions_tidy(parts: Vec<Expression>)
    ensures
        each_tidy(expression_views(parts@)),
    decreases parts,
{
    let views = expression_views(parts@);
    assert forall|i: int| 0 <= i < views.len() implies tidy(#[trigger] views[i]) by {
        lemma_expression_tidy(parts@[i]);
    }
}

/// What `simplify` makes of an expression has the value of the expression,
/// where that has one.
pub proof fn lemma_simplify_keeps_value(expression: Expression, values: Values)
    requires
        value(expression@, values) is Ok,
    ensures
        value(simplified(expression@, None), values) == value(expression@, values),
{
    lemma_expression_tidy(expression);
    lemma_simplified_keeps_value(expression@, None, values);
}

/// What `simplify_with` makes of an expression in a scope has the value of
/// the expression under the values of the scope and any more, where that has
/// one.
pub proof fn lemma_simplify_with_keeps_value(
    expression: Expression,
    known: Values,
    values: Values,
)
    requires
        known.submap_of(values),
        value(expression@, values) is Ok,
    ensures
        value(simplified(expression@, Some(known)), values) == value(expression@, values),
{
    lemma_expression_tidy(expression);
    lemma_simplified_keeps_value(expression@, Some(known), values);
}

/// Where `evaluate` succeeds on an expression in a scope, `simplify_with`
/// in that scope returns the constant that `evaluate` returns.
pub proof fn lemma_simplify_with_gives_value(expression: Expression, values: Values)
    requires
        value(expression@, values) is Ok,
    ensures
        simplified(expression@, Some(values)) == Formula::Constant(
            value(expression@, values)->Ok_0,
        ),
{
    lemma_value_is_simplified(expression@, values);
}

} // verus!
