//! What the conjunction, the disjunction and the parity of outcomes are, told
//! without recursion.

use crate::types::constant::Constant;
use crate::types::formula::{
    conjunction, disjunction, literal_value, parity, term_value, Outcome, Values,
};
use crate::types::var::Var;
use vstd::prelude::*;

verus! {

/// The outcome of an evaluation that gave a constant.
pub open spec fn settled(constant: Constant) -> Outcome {
    Ok(constant)
}

/// The outcomes from position `from` up to, but without, `upto` are all the
/// given constant.
pub open spec fn all_are(outcomes: Seq<Outcome>, from: int, upto: int, constant: Constant) -> bool {
    forall|i: int| from <= i < upto ==> #[trigger] outcomes[i] == settled(constant)
}

/// The outcome at position `at` is the given constant, and those from
/// position `from` up to it are all the other constant.
pub open spec fn first_at(outcomes: Seq<Outcome>, from: int, at: int, constant: Constant) -> bool {
    &&& from <= at < outcomes.len()
    &&& outcomes[at] == settled(constant)
    &&& all_are(outcomes, from, at, constant.negated())
}

/// A conjunction is ONE exactly if its outcomes are all ONE, and ZERO exactly
/// if they are ONE up to one that is ZERO.
pub proof fn lemma_conjunction(outcomes: Seq<Outcome>, from: int)
    requires
        0 <= from,
    ensures
        conjunction(outcomes, from) == settled(Constant::ONE) <==> all_are(
            outcomes,
            from,
            outcomes.len() as int,
            Constant::ONE,
        ),
        conjunction(outcomes, from) == settled(Constant::ZERO) <==> exists|at: int|
            first_at(outcomes, from, at, Constant::ZERO),
    decreases outcomes.len() - from,
{
    if from < outcomes.len() {
        lemma_conjunction(outcomes, from + 1);
        if outcomes[from] == settled(Constant::ONE) {
            if conjunction(outcomes, from) == settled(Constant::ZERO) {
                let next = from + 1;
                let at = choose|at: int| first_at(outcomes, next, at, Constant::ZERO);
                assert(first_at(outcomes, from, at, Constant::ZERO));
            }
            if exists|at: int| first_at(outcomes, from, at, Constant::ZERO) {
                let at = choose|at: int| first_at(outcomes, from, at, Constant::ZERO);
                assert(first_at(outcomes, from + 1, at, Constant::ZERO));
            }
        } else if outcomes[from] == settled(Constant::ZERO) {
            assert(first_at(outcomes, from, from, Constant::ZERO));
        } else {
            assert(outcomes[from] is Err);
            if exists|at: int| first_at(outcomes, from, at, Constant::ZERO) {
                let at = choose|at: int| first_at(outcomes, from, at, Constant::ZERO);
                assert(at != from);
                assert(outcomes[from] == settled(Constant::ONE));
            }
        }
    }
}

/// A disjunction is ZERO exactly if its outcomes are all ZERO, and ONE exactly
/// if they are ZERO up to one that is ONE.
pub proof fn lemma_disjunction(outcomes: Seq<Outcome>, from: int)
    requires
        0 <= from,
    ensures
        disjunction(outcomes, from) == settled(Constant::ZERO) <==> all_are(
            outcomes,
            from,
            outcomes.len() as int,
            Constant::ZERO,
        ),
        disjunction(outcomes, from) == settled(Constant::ONE) <==> exists|at: int|
            first_at(outcomes, from, at, Constant::ONE),
    decreases outcomes.len() - from,
{
    if from < outcomes.len() {
        lemma_disjunction(outcomes, from + 1);
        if outcomes[from] == settled(Constant::ZERO) {
            if disjunction(outcomes, from) == settled(Constant::ONE) {
                let next = from + 1;
                let at = choose|at: int| first_at(outcomes, next, at, Constant::ONE);
                assert(first_at(outcomes, from, at, Constant::ONE));
            }
            if exists|at: int| first_at(outcomes, from, at, Constant::ONE) {
                let at = choose|at: int| first_at(outcomes, from, at, Constant::ONE);
                assert(first_at(outcomes, from + 1, at, Constant::ONE));
            }
        } else if outcomes[from] == settled(Constant::ONE) {
            assert(first_at(outcomes, from, from, Constant::ONE));
        } else {
            assert(outcomes[from] is Err);
            if exists|at: int| first_at(outcomes, from, at, Constant::ONE) {
                let at = choose|at: int| first_at(outcomes, from, at, Constant::ONE);
                assert(at != from);
                assert(outcomes[from] == settled(Constant::ZERO));
            }
        }
    }
}

/// The parity has a value exactly if every outcome is a value.
pub proof fn lemma_parity_settles(outcomes: Seq<Outcome>, from: int)
    requires
        0 <= from,
    ensures
        parity(outcomes, from) is Ok <==> forall|i: int|
            from <= i < outcomes.len() ==> #[trigger] outcomes[i] is Ok,
    decreases outcomes.len() - from,
{
    if from < outcomes.len() {
        lemma_parity_settles(outcomes, from + 1);
    }
}

/// Whether an odd number of the first `count` outcomes is ONE.
pub open spec fn odd_ones(outcomes: Seq<Outcome>, count: int) -> bool
    decreases count,
{
    if count <= 0 {
        false
    } else if outcomes[count - 1] == settled(Constant::ONE) {
        !odd_ones(outcomes, count - 1)
    } else {
        odd_ones(outcomes, count - 1)
    }
}

/// The parity from position 0 on, told by the outcomes before position `at`
/// and the parity from there on.
pub proof fn lemma_parity_from(outcomes: Seq<Outcome>, at: int)
    requires
        0 <= at <= outcomes.len(),
        forall|i: int| 0 <= i < outcomes.len() ==> (#[trigger] outcomes[i]) is Ok,
    ensures
        parity(outcomes, 0) is Ok,
        parity(outcomes, at) is Ok,
        parity(outcomes, 0)->Ok_0 == (if odd_ones(outcomes, at) {
            (parity(outcomes, at)->Ok_0).negated()
        } else {
            parity(outcomes, at)->Ok_0
        }),
    decreases at,
{
    lemma_parity_settles(outcomes, 0);
    lemma_parity_settles(outcomes, at);
    if at > 0 {
        lemma_parity_from(outcomes, at - 1);
        lemma_parity_settles(outcomes, at - 1);
        assert(outcomes[at - 1] is Ok);
    }
}

/// The parity of outcomes that are all values is ONE exactly if an odd
/// number of them is ONE.
pub proof fn lemma_parity(outcomes: Seq<Outcome>)
    requires
        forall|i: int| 0 <= i < outcomes.len() ==> (#[trigger] outcomes[i]) is Ok,
    ensures
        parity(outcomes, 0)
            == settled(Constant::of_truth(odd_ones(outcomes, outcomes.len() as int))),
{
    lemma_parity_from(outcomes, outcomes.len() as int);
}

/// Whether an odd number of outcomes is ONE in two sequences, one after the
/// other: in one of the two, but not in both.
pub proof fn lemma_odd_ones_add(a: Seq<Outcome>, b: Seq<Outcome>, count: int)
    requires
        0 <= count <= b.len(),
    ensures
        odd_ones(a + b, a.len() + count) == (odd_ones(a, a.len() as int) != odd_ones(b, count)),
    decreases count,
{
    if count > 0 {
        lemma_odd_ones_add(a, b, count - 1);
        assert((a + b)[a.len() + count - 1] == b[count - 1]);
    } else {
        lemma_odd_ones_start(a, b, a.len() as int);
    }
}

/// What comes after the outcomes counted does not change the count.
pub proof fn lemma_odd_ones_start(a: Seq<Outcome>, b: Seq<Outcome>, count: int)
    requires
        0 <= count <= a.len(),
    ensures
        odd_ones(a + b, count) == odd_ones(a, count),
    decreases count,
{
    if count > 0 {
        lemma_odd_ones_start(a, b, count - 1);
        assert((a + b)[count - 1] == a[count - 1]);
    }
}

/// The outcomes of the literals of a term.
pub open spec fn literal_outcomes(vars: Seq<Var>, values: Values) -> Seq<Outcome> {
    Seq::new(
        vars.len(),
        |i: int|
            match literal_value(vars[i], values) {
                Some(constant) => Ok(constant),
                None => Err(vars[i].name),
            },
    )
}

/// The value of a term is the conjunction of the outcomes of its literals.
pub proof fn lemma_term_value(vars: Seq<Var>, values: Values, from: int)
    requires
        0 <= from,
    ensures
        term_value(vars, values, from) == conjunction(literal_outcomes(vars, values), from),
    decreases vars.len() - from,
{
    if from < vars.len() {
        lemma_term_value(vars, values, from + 1);
    }
}

/// The literal at position `at` is ZERO, and those before it are ONE.
pub open spec fn zero_at(vars: Seq<Var>, values: Values, at: int) -> bool {
    &&& 0 <= at < vars.len()
    &&& literal_value(vars[at], values) == Some(Constant::ZERO)
    &&& forall|i: int| 0 <= i < at
        ==> literal_value(#[trigger] vars[i], values) == Some(Constant::ONE)
}

/// A term is ONE exactly if its literals are all ONE, and ZERO exactly if
/// they are ONE up to one that is ZERO.
pub proof fn lemma_term_decided(vars: Seq<Var>, values: Values)
    ensures
        term_value(vars, values, 0) == settled(Constant::ONE) <==> forall|i: int|
            0 <= i < vars.len()
                ==> literal_value(#[trigger] vars[i], values) == Some(Constant::ONE),
        term_value(vars, values, 0) == settled(Constant::ZERO) <==> exists|at: int|
            zero_at(vars, values, at),
{
    let outcomes = literal_outcomes(vars, values);
    lemma_term_value(vars, values, 0);
    lemma_conjunction(outcomes, 0);
    if term_value(vars, values, 0) == settled(Constant::ONE) {
        assert forall|i: int| 0 <= i < vars.len() implies literal_value(
            #[trigger] vars[i],
            values,
        ) == Some(Constant::ONE) by {
            assert(outcomes[i] == settled(Constant::ONE));
        }
    }
    if forall|i: int|
        0 <= i < vars.len() ==> literal_value(#[trigger] vars[i], values) == Some(Constant::ONE) {
        assert forall|i: int| 0 <= i < outcomes.len() implies #[trigger] outcomes[i] == settled(
            Constant::ONE,
        ) by {
            assert(literal_value(vars[i], values) == Some(Constant::ONE));
        }
    }
    if term_value(vars, values, 0) == settled(Constant::ZERO) {
        let at = choose|at: int| first_at(outcomes, 0, at, Constant::ZERO);
        assert forall|i: int| 0 <= i < at implies literal_value(#[trigger] vars[i], values) == Some(
            Constant::ONE,
        ) by {
            assert(outcomes[i] == settled(Constant::ONE));
        }
        assert(zero_at(vars, values, at));
    }
    if exists|at: int| zero_at(vars, values, at) {
        let at = choose|at: int| zero_at(vars, values, at);
        assert forall|i: int| 0 <= i < at implies #[trigger] outcomes[i] == settled(
            Constant::ONE,
        ) by {
            assert(literal_value(vars[i], values) == Some(Constant::ONE));
        }
        assert(first_at(outcomes, 0, at, Constant::ZERO));
    }
}

} // verus!
