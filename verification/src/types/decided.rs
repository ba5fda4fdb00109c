//! Simplifying with the values under which a formula has a value gives that
//! value.

use crate::types::constant::Constant;
use crate::types::folds::{
    first_at, lemma_conjunction, lemma_disjunction, lemma_parity_settles, lemma_term_value,
    literal_outcomes, settled,
};
use crate::types::formula::{
    and_operands, conjunction, conjunction_of, disjunction, disjunction_of, each_simplified,
    each_value, exclusive_of, literal_value, ones, or_operands, parity, resolved_term, simplified,
    term_value, unvalued, value, xor_operands, Formula, Outcome, Values,
};
use crate::types::var::Var;
use vstd::prelude::*;

verus! {

proof fn lemma_operands_of_constants(parts: Seq<Formula>, count: int)
    requires
        0 <= count <= parts.len(),
        forall|i: int| 0 <= i < count ==> #[trigger] parts[i] is Constant,
    ensures
        and_operands(parts, count).len() == 0,
        or_operands(parts, count).len() == 0,
        xor_operands(parts, count).len() == 0,
    decreases count,
{
    if count > 0 {
        lemma_operands_of_constants(parts, count - 1);
        assert(parts[count - 1] is Constant);
    }
}

/// The constants that are ONE among the first `count`, counted against the
/// parity of the outcomes from there on.
proof fn lemma_ones_are_parity(parts: Seq<Formula>, outcomes: Seq<Outcome>, count: int)
    requires
        0 <= count <= parts.len(),
        parts.len() == outcomes.len(),
        forall|i: int|
            0 <= i < parts.len()
                ==> (#[trigger] outcomes[i]) is Ok && parts[i] == Formula::Constant(
                outcomes[i]->Ok_0,
            ),
    ensures
        parity(outcomes, 0) is Ok,
        parity(outcomes, count) is Ok,
        parity(outcomes, 0)->Ok_0 == (if ones(parts, count) % 2 == 1 {
            (parity(outcomes, count)->Ok_0).negated()
        } else {
            parity(outcomes, count)->Ok_0
        }),
    decreases count,
{
    lemma_parity_settles(outcomes, 0);
    lemma_parity_settles(outcomes, count);
    if count > 0 {
        lemma_ones_are_parity(parts, outcomes, count - 1);
        lemma_parity_settles(outcomes, count - 1);
        assert(outcomes[count - 1] is Ok);
    }
}

/// Whether each formula is the constant of its outcome, where that is one.
pub open spec fn constants_of(simple: Seq<Formula>, outcomes: Seq<Outcome>) -> bool {
    &&& simple.len() == outcomes.len()
    &&& forall|i: int|
        0 <= i < simple.len() && (#[trigger] outcomes[i]) is Ok ==> simple[i] == Formula::Constant(
            outcomes[i]->Ok_0,
        )
}

proof fn lemma_conjunction_of_constants(simple: Seq<Formula>, outcomes: Seq<Outcome>)
    requires
        constants_of(simple, outcomes),
        conjunction(outcomes, 0) is Ok,
    ensures
        conjunction_of(simple) == Formula::Constant(conjunction(outcomes, 0)->Ok_0),
{
    lemma_conjunction(outcomes, 0);
    if conjunction(outcomes, 0) == settled(Constant::ZERO) {
        let at = choose|at: int| first_at(outcomes, 0, at, Constant::ZERO);
        assert(simple[at] == Formula::Constant(Constant::ZERO));
    } else {
        assert(conjunction(outcomes, 0) == settled(Constant::ONE));
        assert forall|i: int| 0 <= i < simple.len() implies #[trigger] simple[i]
            == Formula::Constant(Constant::ONE) by {
            assert(outcomes[i] == settled(Constant::ONE));
        }
        lemma_operands_of_constants(simple, simple.len() as int);
    }
}

proof fn lemma_disjunction_of_constants(simple: Seq<Formula>, outcomes: Seq<Outcome>)
    requires
        constants_of(simple, outcomes),
        disjunction(outcomes, 0) is Ok,
    ensures
        disjunction_of(simple) == Formula::Constant(disjunction(outcomes, 0)->Ok_0),
{
    lemma_disjunction(outcomes, 0);
    if disjunction(outcomes, 0) == settled(Constant::ONE) {
        let at = choose|at: int| first_at(outcomes, 0, at, Constant::ONE);
        assert(simple[at] == Formula::Constant(Constant::ONE));
    } else {
        assert(disjunction(outcomes, 0) == settled(Constant::ZERO));
        assert forall|i: int| 0 <= i < simple.len() implies #[trigger] simple[i]
            == Formula::Constant(Constant::ZERO) by {
            assert(outcomes[i] == settled(Constant::ZERO));
        }
        lemma_operands_of_constants(simple, simple.len() as int);
    }
}

proof fn lemma_exclusive_of_constants(simple: Seq<Formula>, outcomes: Seq<Outcome>)
    requires
        constants_of(simple, outcomes),
        parity(outcomes, 0) is Ok,
    ensures
        exclusive_of(simple) == Formula::Constant(parity(outcomes, 0)->Ok_0),
{
    lemma_parity_settles(outcomes, 0);
    assert forall|i: int| 0 <= i < simple.len() implies #[trigger] simple[i] is Constant by {
        assert(outcomes[i] is Ok);
    }
    lemma_operands_of_constants(simple, simple.len() as int);
    lemma_ones_are_parity(simple, outcomes, simple.len() as int);
}

proof fn lemma_nothing_open(vars: Seq<Var>, values: Values)
    requires
        forall|i: int| 0 <= i < vars.len() ==> literal_value(#[trigger] vars[i], values) is Some,
    ensures
        vars.filter(unvalued(values)).len() == 0,
    decreases vars.len(),
{
    vars.lemma_filter_len(unvalued(values));
    if vars.len() > 0 {
        let rest = vars.drop_last();
        assert forall|i: int| 0 <= i < rest.len() implies literal_value(
            #[trigger] rest[i],
            values,
        ) is Some by {
            assert(rest[i] == vars[i]);
        }
        lemma_nothing_open(rest, values);
        rest.lemma_filter_push(vars.last(), unvalued(values));
        assert(rest.push(vars.last()) =~= vars);
        assert(literal_value(vars[vars.len() - 1], values) is Some);
    }
}

proof fn lemma_resolved_term_of_value(vars: Seq<Var>, values: Values)
    requires
        term_value(vars, values, 0) is Ok,
    ensures
        resolved_term(vars, values) == Formula::Constant(term_value(vars, values, 0)->Ok_0),
{
    let outcomes = literal_outcomes(vars, values);
    lemma_term_value(vars, values, 0);
    lemma_conjunction(outcomes, 0);
    if term_value(vars, values, 0) == settled(Constant::ZERO) {
        let at = choose|at: int| first_at(outcomes, 0, at, Constant::ZERO);
        assert(literal_value(vars[at], values) == Some(Constant::ZERO));
    } else {
        assert(term_value(vars, values, 0) == settled(Constant::ONE));
        assert forall|i: int| 0 <= i < vars.len() implies literal_value(
            #[trigger] vars[i],
            values,
        ) == Some(Constant::ONE) by {
            assert(outcomes[i] == settled(Constant::ONE));
        }
        lemma_nothing_open(vars, values);
    }
}

/// Simplifying with values under which the formula has a value gives that
/// value: where `evaluate` succeeds in a scope, `simplify_with` in that scope
/// returns the constant that `evaluate` returns.
pub proof fn lemma_value_is_simplified(formula: Formula, values: Values)
    requires
        value(formula, values) is Ok,
    ensures
        simplified(formula, Some(values)) == Formula::Constant(value(formula, values)->Ok_0),
    decreases formula,
{
    match formula {
        Formula::Constant(_) => {},
        Formula::Var(_) => {},
        Formula::Term(vars) => {
            lemma_resolved_term_of_value(vars, values);
        },
        Formula::Not(inner) => {
            lemma_value_is_simplified(*inner, values);
        },
        Formula::And(parts) => {
            lemma_each_value_is_simplified(parts, values);
            lemma_conjunction_of_constants(
                each_simplified(parts, Some(values)),
                each_value(parts, values),
            );
        },
        Formula::Or(parts) => {
            lemma_each_value_is_simplified(parts, values);
            lemma_disjunction_of_constants(
                each_simplified(parts, Some(values)),
                each_value(parts, values),
            );
        },
        Formula::Xor(parts) => {
            lemma_each_value_is_simplified(parts, values);
            lemma_exclusive_of_constants(
                each_simplified(parts, Some(values)),
                each_value(parts, values),
            );
        },
    }
}

proof fn lemma_each_value_is_simplified(parts: Seq<Formula>, values: Values)
    ensures
        constants_of(each_simplified(parts, Some(values)), each_value(parts, values)),
    decreases parts,
{
    let simple = each_simplified(parts, Some(values));
    let outcomes = each_value(parts, values);
    assert forall|i: int| 0 <= i < simple.len() && (#[trigger] outcomes[i]) is Ok implies simple[i]
        == Formula::Constant(outcomes[i]->Ok_0) by {
        lemma_value_is_simplified(parts[i], values);
    }
}

} // verus!
