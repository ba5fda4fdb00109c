//! The mathematical model of expressions: formulas, their value and their
//! simplification.

use crate::types::constant::Constant;
use crate::types::term::{ascending, in_order};
use crate::types::var::{name_text, Var, VarName};
use vstd::prelude::*;

verus! {

/// A Boolean expression as a mathematical value: what the expression types of
/// this library stand for.
pub enum Formula {
    Constant(Constant),
    Var(Var),
    /// The conjunction of literals.
    Term(Seq<Var>),
    Not(Box<Formula>),
    And(Seq<Formula>),
    Or(Seq<Formula>),
    Xor(Seq<Formula>),
}

/// The values of variables: a scope as a mathematical value.
pub type Values = Map<VarName, Constant>;

/// The outcome of an evaluation: a constant, or the variable that had no value.
pub type Outcome = Result<Constant, VarName>;

/// The value of a literal where its variable has one.
pub open spec fn literal_value(var: Var, values: Values) -> Option<Constant> {
    if !values.contains_key(var.name) {
        None
    } else if var.negated {
        Some(values[var.name].negated())
    } else {
        Some(values[var.name])
    }
}

/// The conjunction of the literals from position `from` on, taken from left
/// to right: it ends at the first literal that is ZERO, and fails at the
/// first literal without a value that comes before any such.
pub open spec fn term_value(vars: Seq<Var>, values: Values, from: int) -> Outcome
    decreases vars.len() - from,
{
    if from < 0 || from >= vars.len() {
        Ok(Constant::ONE)
    } else {
        match literal_value(vars[from], values) {
            None => Err(vars[from].name),
            Some(Constant::ZERO) => Ok(Constant::ZERO),
            Some(Constant::ONE) => term_value(vars, values, from + 1),
        }
    }
}

/// The conjunction of the outcomes from position `from` on, taken from left
/// to right: it ends at the first ZERO and fails at a failure before that.
pub open spec fn conjunction(outcomes: Seq<Outcome>, from: int) -> Outcome
    decreases outcomes.len() - from,
{
    if from < 0 || from >= outcomes.len() {
        Ok(Constant::ONE)
    } else {
        match outcomes[from] {
            Err(name) => Err(name),
            Ok(Constant::ZERO) => Ok(Constant::ZERO),
            Ok(Constant::ONE) => conjunction(outcomes, from + 1),
        }
    }
}

/// The disjunction of the outcomes from position `from` on, taken from left
/// to right: it ends at the first ONE and fails at a failure before that.
pub open spec fn disjunction(outcomes: Seq<Outcome>, from: int) -> Outcome
    decreases outcomes.len() - from,
{
    if from < 0 || from >= outcomes.len() {
        Ok(Constant::ZERO)
    } else {
        match outcomes[from] {
            Err(name) => Err(name),
            Ok(Constant::ONE) => Ok(Constant::ONE),
            Ok(Constant::ZERO) => disjunction(outcomes, from + 1),
        }
    }
}

/// The parity of the outcomes from position `from` on: ONE if an odd number
/// of them is ONE. It fails at the first failure, wherever that is.
pub open spec fn parity(outcomes: Seq<Outcome>, from: int) -> Outcome
    decreases outcomes.len() - from,
{
    if from < 0 || from >= outcomes.len() {
        Ok(Constant::ZERO)
    } else {
        match outcomes[from] {
            Err(name) => Err(name),
            Ok(first) => match parity(outcomes, from + 1) {
                Err(name) => Err(name),
                Ok(rest) => Ok(
                    if first == Constant::ONE {
                        rest.negated()
                    } else {
                        rest
                    },
                ),
            },
        }
    }
}

/// The value of a formula under the values of its variables.
pub open spec fn value(formula: Formula, values: Values) -> Outcome
    decreases formula, 1int,
{
    match formula {
        Formula::Constant(constant) => Ok(constant),
        Formula::Var(var) => match literal_value(var, values) {
            Some(constant) => Ok(constant),
            None => Err(var.name),
        },
        Formula::Term(vars) => term_value(vars, values, 0),
        Formula::Not(inner) => match value(*inner, values) {
            Ok(constant) => Ok(constant.negated()),
            Err(name) => Err(name),
        },
        Formula::And(parts) => conjunction(each_value(parts, values), 0),
        Formula::Or(parts) => disjunction(each_value(parts, values), 0),
        Formula::Xor(parts) => parity(each_value(parts, values), 0),
    }
}

/// The value of each formula of a sequence.
pub open spec fn each_value(parts: Seq<Formula>, values: Values) -> Seq<Outcome>
    decreases parts, 0int,
{
    Seq::new(
        parts.len(),
        |i: int|
            if 0 <= i < parts.len() {
                value(parts[i], values)
            } else {
                Ok(Constant::ZERO)
            },
    )
}

/// The literals among the first `count` that do not repeat the literal just
/// before them.
pub open spec fn without_repeats(vars: Seq<Var>, count: int) -> Seq<Var>
    decreases count,
{
    if count <= 0 {
        Seq::empty()
    } else if count >= 2 && vars[count - 2] == vars[count - 1] {
        without_repeats(vars, count - 1)
    } else {
        without_repeats(vars, count - 1).push(vars[count - 1])
    }
}

/// A term simplified by the laws that hold of every variable: ZERO where a
/// literal stands next to its dual; else the term without the literals that
/// repeat the one before them.
pub open spec fn plain_term(vars: Seq<Var>) -> Formula {
    if exists|i: int| 0 <= i < vars.len() - 1 && (#[trigger] vars[i]).dual(vars[i + 1]) {
        Formula::Constant(Constant::ZERO)
    } else {
        Formula::Term(in_order(without_repeats(vars, vars.len() as int)))
    }
}

/// The literals whose variable has no value.
pub open spec fn unvalued(values: Values) -> spec_fn(Var) -> bool {
    |var: Var| literal_value(var, values) is None
}

/// A term simplified under the values of some variables: ZERO where a literal
/// is ZERO; else ONE where every literal has a value; else the term of the
/// literals without a value.
pub open spec fn resolved_term(vars: Seq<Var>, values: Values) -> Formula {
    let unset = vars.filter(unvalued(values));
    if exists|i: int|
        0 <= i < vars.len() && literal_value(#[trigger] vars[i], values) == Some(Constant::ZERO) {
        Formula::Constant(Constant::ZERO)
    } else if unset.len() == 0 {
        Formula::Constant(Constant::ONE)
    } else {
        Formula::Term(in_order(unset))
    }
}

/// The negation of a simplified formula: the opposite constant, the inside
/// of a negation, or the negation of anything else.
pub open spec fn negation(inner: Formula) -> Formula {
    match inner {
        Formula::Constant(constant) => Formula::Constant(constant.negated()),
        Formula::Not(inside) => *inside,
        other => Formula::Not(Box::new(other)),
    }
}

/// What one simplified operand of a conjunction adds to its operands: nothing
/// if it is a constant, its own operands if it is a conjunction, else itself.
pub open spec fn and_part(part: Formula) -> Seq<Formula> {
    match part {
        Formula::Constant(_) => Seq::empty(),
        Formula::And(inner) => inner,
        other => seq![other],
    }
}

/// As `and_part`, for a disjunction.
pub open spec fn or_part(part: Formula) -> Seq<Formula> {
    match part {
        Formula::Constant(_) => Seq::empty(),
        Formula::Or(inner) => inner,
        other => seq![other],
    }
}

/// As `and_part`, for an exclusive disjunction.
pub open spec fn xor_part(part: Formula) -> Seq<Formula> {
    match part {
        Formula::Constant(_) => Seq::empty(),
        Formula::Xor(inner) => inner,
        other => seq![other],
    }
}

/// The operands that the first `count` simplified operands add up to.
pub open spec fn and_operands(parts: Seq<Formula>, count: int) -> Seq<Formula>
    decreases count,
{
    if count <= 0 {
        Seq::empty()
    } else {
        and_operands(parts, count - 1) + and_part(parts[count - 1])
    }
}

/// As `and_operands`, for a disjunction.
pub open spec fn or_operands(parts: Seq<Formula>, count: int) -> Seq<Formula>
    decreases count,
{
    if count <= 0 {
        Seq::empty()
    } else {
        or_operands(parts, count - 1) + or_part(parts[count - 1])
    }
}

/// As `and_operands`, for an exclusive disjunction.
pub open spec fn xor_operands(parts: Seq<Formula>, count: int) -> Seq<Formula>
    decreases count,
{
    if count <= 0 {
        Seq::empty()
    } else {
        xor_operands(parts, count - 1) + xor_part(parts[count - 1])
    }
}

/// How many of the first `count` formulas are the constant ONE.
pub open spec fn ones(parts: Seq<Formula>, count: int) -> nat
    decreases count,
{
    if count <= 0 {
        0
    } else if parts[count - 1] == Formula::Constant(Constant::ONE) {
        ones(parts, count - 1) + 1
    } else {
        ones(parts, count - 1)
    }
}

/// Whether one of the formulas is the given constant.
pub open spec fn holds_constant(parts: Seq<Formula>, constant: Constant) -> bool {
    exists|i: int| 0 <= i < parts.len() && #[trigger] parts[i] == Formula::Constant(constant)
}

/// The conjunction of simplified operands: ZERO if one of them is ZERO; else
/// ONE if no operand is left, the operand if one is left, and the conjunction
/// of the operands if more are left.
pub open spec fn conjunction_of(parts: Seq<Formula>) -> Formula {
    let operands = and_operands(parts, parts.len() as int);
    if holds_constant(parts, Constant::ZERO) {
        Formula::Constant(Constant::ZERO)
    } else if operands.len() == 0 {
        Formula::Constant(Constant::ONE)
    } else if operands.len() == 1 {
        operands[0]
    } else {
        Formula::And(operands)
    }
}

/// The disjunction of simplified operands: ONE if one of them is ONE; else
/// ZERO if no operand is left, the operand if one is left, and the
/// disjunction of the operands if more are left.
pub open spec fn disjunction_of(parts: Seq<Formula>) -> Formula {
    let operands = or_operands(parts, parts.len() as int);
    if holds_constant(parts, Constant::ONE) {
        Formula::Constant(Constant::ONE)
    } else if operands.len() == 0 {
        Formula::Constant(Constant::ZERO)
    } else if operands.len() == 1 {
        operands[0]
    } else {
        Formula::Or(operands)
    }
}

/// The exclusive disjunction of simplified operands. The constants leave the
/// operands; where an odd number of them is ONE the outcome is negated: the
/// constant ONE in place of ZERO if no operand is left, else one negation
/// around what is left.
pub open spec fn exclusive_of(parts: Seq<Formula>) -> Formula {
    let operands = xor_operands(parts, parts.len() as int);
    let odd = ones(parts, parts.len() as int) % 2 == 1;
    let left = if operands.len() == 1 {
        operands[0]
    } else {
        Formula::Xor(operands)
    };
    if operands.len() == 0 {
        Formula::Constant(
            if odd {
                Constant::ONE
            } else {
                Constant::ZERO
            },
        )
    } else if odd {
        Formula::Not(Box::new(left))
    } else {
        left
    }
}

/// A formula simplified from the inside out: by the laws that hold of every
/// variable where `values` is `None`, and else with the literals that have a
/// value replaced by it first.
pub open spec fn simplified(formula: Formula, values: Option<Values>) -> Formula
    decreases formula, 1int,
{
    match formula {
        Formula::Constant(constant) => Formula::Constant(constant),
        Formula::Var(var) => match values {
            None => Formula::Var(var),
            Some(known) => match literal_value(var, known) {
                Some(constant) => Formula::Constant(constant),
                None => Formula::Var(var),
            },
        },
        Formula::Term(vars) => match values {
            None => plain_term(vars),
            Some(known) => resolved_term(vars, known),
        },
        Formula::Not(inner) => negation(simplified(*inner, values)),
        Formula::And(parts) => conjunction_of(each_simplified(parts, values)),
        Formula::Or(parts) => disjunction_of(each_simplified(parts, values)),
        Formula::Xor(parts) => exclusive_of(each_simplified(parts, values)),
    }
}

/// Each formula of a sequence, simplified.
pub open spec fn each_simplified(parts: Seq<Formula>, values: Option<Values>) -> Seq<Formula>
    decreases parts, 0int,
{
    Seq::new(
        parts.len(),
        |i: int|
            if 0 <= i < parts.len() {
                simplified(parts[i], values)
            } else {
                Formula::Constant(Constant::ZERO)
            },
    )
}

/// The variables of a sequence of literals.
pub open spec fn term_variables(vars: Seq<Var>) -> Set<VarName> {
    Set::new(|name: VarName| exists|i: int| 0 <= i < vars.len()
        && (#[trigger] vars[i]).name == name)
}

/// The variables that occur in a formula.
pub open spec fn variables(formula: Formula) -> Set<VarName>
    decreases formula, 1int,
{
    match formula {
        Formula::Constant(_) => Set::empty(),
        Formula::Var(var) => Set::empty().insert(var.name),
        Formula::Term(vars) => term_variables(vars),
        Formula::Not(inner) => variables(*inner),
        Formula::And(parts) => union_of(each_variables(parts), parts.len() as int),
        Formula::Or(parts) => union_of(each_variables(parts), parts.len() as int),
        Formula::Xor(parts) => union_of(each_variables(parts), parts.len() as int),
    }
}

/// The variables of each formula of a sequence.
pub open spec fn each_variables(parts: Seq<Formula>) -> Seq<Set<VarName>>
    decreases parts, 0int,
{
    Seq::new(
        parts.len(),
        |i: int|
            if 0 <= i < parts.len() {
                variables(parts[i])
            } else {
                Set::empty()
            },
    )
}

/// What is in one of the first `count` sets.
pub open spec fn union_of(sets: Seq<Set<VarName>>, count: int) -> Set<VarName> {
    Set::new(
        |name: VarName|
            exists|i: int| 0 <= i < count && 0 <= i < sets.len()
                && (#[trigger] sets[i]).contains(name),
    )
}

/// Whether every term in a formula has its literals in ascending order, as
/// every `Term` has.
pub open spec fn tidy(formula: Formula) -> bool
    decreases formula, 1int,
{
    match formula {
        Formula::Constant(_) => true,
        Formula::Var(_) => true,
        Formula::Term(vars) => ascending(vars),
        Formula::Not(inner) => tidy(*inner),
        Formula::And(parts) => each_tidy(parts),
        Formula::Or(parts) => each_tidy(parts),
        Formula::Xor(parts) => each_tidy(parts),
    }
}

/// Whether every formula of a sequence is tidy.
pub open spec fn each_tidy(parts: Seq<Formula>) -> bool
    decreases parts, 0int,
{
    forall|i: int| 0 <= i < parts.len() ==> tidy(#[trigger] parts[i])
}

/// The message of the failure to find a value for a variable.
pub open spec fn undefined_text(name: VarName) -> Seq<char> {
    "Variable '"@ + name_text(name, false) + "' isn't defined in this scope!"@
}

} // verus!
