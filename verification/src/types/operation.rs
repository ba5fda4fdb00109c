//! The operations NOT, AND, OR and XOR.

use crate::types::constant::Constant;
use crate::types::expression::{expression_views, Expression};
use crate::types::formula::{
    and_operands, conjunction, disjunction, each_simplified, each_value, each_variables, ones,
    or_operands, parity, simplified, undefined_text, union_of, value, variables, xor_operands,
    Formula, Outcome, Values,
};
use crate::types::scope::VarScope;
use crate::types::traits::{Eval, Operator, Simplify, VarVisibility};
use crate::types::var::VarName;
use crate::types::varset::VarSet;
use vstd::prelude::*;

verus! {

/// An operation on expressions.
#[allow(clippy::upper_case_acronyms)]
#[derive(Debug)]
pub enum Operation {
    NOT(Box<Expression>),
    AND(Vec<Expression>),
    OR(Vec<Expression>),
    XOR(Vec<Expression>),
}

impl Operation {
    /// The formula that the operation stands for.
    pub open spec fn view(&self) -> Formula
        decreases self, 0int,
    {
        match self {
            Operation::NOT(inner) => Formula::Not(Box::new(inner.view())),
            Operation::AND(parts) => Formula::And(expression_views(parts@)),
            Operation::OR(parts) => Formula::Or(expression_views(parts@)),
            Operation::XOR(parts) => Formula::Xor(expression_views(parts@)),
        }
    }
}

impl Operator for Operation {
    fn is_commutative(&self) -> (out: bool)
        ensures
            out,
    {
        // NOT, AND, OR and XOR are all commutative
        true
    }

    fn is_associative(&self) -> (out: bool)
        ensures
            out,
    {
        // NOT, AND, OR and XOR are all associative
        true
    }
}

impl VarVisibility for Operation {
    open spec fn used_variables(&self) -> Set<VarName> {
        variables(self@)
    }

    fn get_used_variables(&self, varset: &mut VarSet)
        decreases self, 0int,
    {
        match self {
            Self::NOT(exp) => exp.get_used_variables(varset),
            Self::AND(vecexp) => Self::used_variables_of_all(vecexp, varset),
            Self::OR(vecexp) => Self::used_variables_of_all(vecexp, varset),
            Self::XOR(vecexp) => Self::used_variables_of_all(vecexp, varset),
        }
    }
}

impl Clone for Operation {
    fn clone(&self) -> (out: Self)
        ensures
            out@ == self@,
        decreases self, 0int,
    {
        match self {
            Self::NOT(exp) => Self::NOT(Box::new((**exp).clone())),
            Self::AND(vecexp) => Self::AND(Self::clone_all(vecexp)),
            Self::OR(vecexp) => Self::OR(Self::clone_all(vecexp)),
            Self::XOR(vecexp) => Self::XOR(Self::clone_all(vecexp)),
        }
    }
}

impl Operation {
    /// A copy of each of the expressions.
    fn clone_all(vecexp: &Vec<Expression>) -> (out: Vec<Expression>)
        ensures
            expression_views(out@) == expression_views(vecexp@),
        decreases vecexp, 1int,
    {
        let mut out: Vec<Expression> = Vec::new();
        for k in 0..vecexp.len()
            invariant
                out@.len() == k,
                forall|i: int| 0 <= i < k ==> (#[trigger] out@[i])@ == vecexp@[i]@,
        {
            out.push(vecexp[k].clone());
        }
        assert(expression_views(out@) =~= expression_views(vecexp@));
        out
    }

    /// Adds the variables that occur in the expressions to the set.
    fn used_variables_of_all(vecexp: &Vec<Expression>, varset: &mut VarSet)
        ensures
            final(varset)@ == old(varset)@.union(
                union_of(each_variables(expression_views(vecexp@)), vecexp@.len() as int),
            ),
        decreases vecexp, 1int,
    {
        let ghost sets = each_variables(expression_views(vecexp@));
        assert(varset@ =~= old(varset)@.union(union_of(sets, 0)));
        for k in 0..vecexp.len()
            invariant
                sets == each_variables(expression_views(vecexp@)),
                varset@ == old(varset)@.union(union_of(sets, k as int)),
        {
            vecexp[k].get_used_variables(varset);
            assert(varset@ =~= old(varset)@.union(union_of(sets, k + 1))) by {
                let before = union_of(sets, k as int);
                let after = union_of(sets, k + 1);
                assert forall|n: VarName| after.contains(n)
                    <==> before.contains(n) || sets[k as int].contains(
                    n,
                ) by {
                    if before.contains(n) {
                        let i = choose|i: int|
                            0 <= i < k && 0 <= i < sets.len() && (#[trigger] sets[i]).contains(n);
                        assert(sets[i].contains(n));
                    }
                }
            }
        }
    }
}

impl Eval for Operation {
    open spec fn value_under(&self, values: Values) -> Outcome {
        value(self@, values)
    }

    fn evaluate(&self, scope: &VarScope) -> (out: Result<Constant, String>)
        decreases self, 0int,
    {
        match self {
            Self::NOT(exp) => match exp.evaluate(scope) {
                Ok(constant) => Ok(constant.negate()),
                Err(message) => Err(message),
            },
            Self::AND(vecexp) => Self::evaluate_and(vecexp.as_slice(), scope),
            Self::OR(vecexp) => Self::evaluate_or(vecexp.as_slice(), scope),
            Self::XOR(vecexp) => Self::evaluate_xor(vecexp.as_slice(), scope),
        }
    }
}

impl Simplify for Operation {
    open spec fn simplified_under(&self, values: Option<Values>) -> Formula {
        simplified(self@, values)
    }

    fn simplify(self) -> (out: Expression)
        decreases self, 0int,
    {
        match self {
            Self::NOT(data) => Operation::simplify_not(*data),
            Self::AND(data) => Self::simplify_and(data),
            Self::OR(data) => Self::simplify_or(data),
            Self::XOR(data) => Self::simplify_xor(data),
        }
    }

    fn simplify_with(self, scope: &VarScope) -> (out: Expression)
        decreases self, 0int,
    {
        match self {
            Self::NOT(data) => Operation::simplify_not_with(*data, scope),
            Self::AND(data) => Self::simplify_and_with(data, scope),
            Self::OR(data) => Self::simplify_or_with(data, scope),
            Self::XOR(data) => Self::simplify_xor_with(data, scope),
        }
    }
}

/// The views of two lists, one after the other.
proof fn lemma_views_add(a: Seq<Expression>, b: Seq<Expression>)
    ensures
        expression_views(a + b) == expression_views(a) + expression_views(b),
{
    assert(expression_views(a + b) =~= expression_views(a) + expression_views(b));
}

proof fn lemma_views_push(a: Seq<Expression>, last: Expression)
    ensures
        expression_views(a.push(last)) == expression_views(a) + seq![last@],
{
    assert(expression_views(a.push(last)) =~= expression_views(a) + seq![last@]);
}

impl Operation {
    /// The negation of an expression, simplified by the laws that hold of every
    /// variable.
    pub fn simplify_not(exp: Expression) -> (out: Expression)
        ensures
            out@ == simplified(Formula::Not(Box::new(exp@)), None),
        decreases exp, 1int,
    {
        let out = match exp.simplify() {
            Expression::Constant(Constant::ZERO) => return Expression::Constant(Constant::ONE),
            Expression::Constant(Constant::ONE) => return Expression::Constant(Constant::ZERO),
            Expression::Operation(Self::NOT(inner)) => return *inner,
            other => other,
        };
        Expression::Operation(Self::NOT(Box::new(out)))
    }

    /// The negation of an expression, simplified in a scope.
    pub fn simplify_not_with(exp: Expression, scope: &VarScope) -> (out: Expression)
        ensures
            out@ == simplified(Formula::Not(Box::new(exp@)), Some(scope@)),
        decreases exp, 1int,
    {
        let out = match exp.simplify_with(scope) {
            Expression::Constant(Constant::ZERO) => return Expression::Constant(Constant::ONE),
            Expression::Constant(Constant::ONE) => return Expression::Constant(Constant::ZERO),
            Expression::Operation(Self::NOT(inner)) => return *inner,
            other => other,
        };
        Expression::Operation(Self::NOT(Box::new(out)))
    }

    /// The conjunction of expressions, simplified by the laws that hold of
    /// every variable.
    pub fn simplify_and(vecexp: Vec<Expression>) -> (out: Expression)
        ensures
            out@ == simplified(Formula::And(expression_views(vecexp@)), None),
        decreases vecexp, 1int,
    {
        let ghost parts = each_simplified(expression_views(vecexp@), None);
        let mut new_exp: Vec<Expression> = Vec::new();
        assert(expression_views(new_exp@) =~= and_operands(parts, 0));
        for exp in it: vecexp.into_iter()
            invariant
                it.seq() == vecexp@,
                parts == each_simplified(expression_views(vecexp@), None),
                expression_views(new_exp@) == and_operands(parts, it.index() as int),
                forall|i: int|
                    0 <= i < it.index()
                        ==> #[trigger] parts[i] != Formula::Constant(Constant::ZERO),
        {
            let ghost before = new_exp@;
            match exp.simplify() {
                Expression::Constant(Constant::ONE) => {},
                Expression::Constant(Constant::ZERO) => {
                    assert(parts[it.index() as int] == Formula::Constant(Constant::ZERO));
                    return Expression::Constant(Constant::ZERO);
                },
                Expression::Operation(Self::AND(inner_and)) => {
                    let mut inner_and = inner_and;
                    proof {
                        lemma_views_add(before, inner_and@);
                    }
                    new_exp.append(&mut inner_and);
                },
                other => {
                    proof {
                        lemma_views_push(before, other);
                    }
                    new_exp.push(other);
                },
            }
        }
        if new_exp.len() == 0 {
            Expression::Constant(Constant::ONE)
        } else if new_exp.len() == 1 {
            let only = new_exp.pop();
            only.unwrap()
        } else {
            Expression::Operation(Self::AND(new_exp))
        }
    }

    /// The conjunction of expressions, simplified in a scope.
    pub fn simplify_and_with(vecexp: Vec<Expression>, scope: &VarScope) -> (out: Expression)
        ensures
            out@ == simplified(Formula::And(expression_views(vecexp@)), Some(scope@)),
        decreases vecexp, 1int,
    {
        let ghost parts = each_simplified(expression_views(vecexp@), Some(scope@));
        let mut new_exp: Vec<Expression> = Vec::new();
        assert(expression_views(new_exp@) =~= and_operands(parts, 0));
        for exp in it: vecexp.into_iter()
            invariant
                it.seq() == vecexp@,
                parts == each_simplified(expression_views(vecexp@), Some(scope@)),
                expression_views(new_exp@) == and_operands(parts, it.index() as int),
                forall|i: int|
                    0 <= i < it.index()
                        ==> #[trigger] parts[i] != Formula::Constant(Constant::ZERO),
        {
            let ghost before = new_exp@;
            match exp.simplify_with(scope) {
                Expression::Constant(Constant::ONE) => {},
                Expression::Constant(Constant::ZERO) => {
                    assert(parts[it.index() as int] == Formula::Constant(Constant::ZERO));
                    return Expression::Constant(Constant::ZERO);
                },
                Expression::Operation(Self::AND(inner_and)) => {
                    let mut inner_and = inner_and;
                    proof {
                        lemma_views_add(before, inner_and@);
                    }
                    new_exp.append(&mut inner_and);
                },
                other => {
                    proof {
                        lemma_views_push(before, other);
                    }
                    new_exp.push(other);
                },
            }
        }
        if new_exp.len() == 0 {
            Expression::Constant(Constant::ONE)
        } else if new_exp.len() == 1 {
            let only = new_exp.pop();
            only.unwrap()
        } else {
            Expression::Operation(Self::AND(new_exp))
        }
    }

    /// The disjunction of expressions, simplified by the laws that hold of
    /// every variable.
    pub fn simplify_or(vecexp: Vec<Expression>) -> (out: Expression)
        ensures
            out@ == simplified(Formula::Or(expression_views(vecexp@)), None),
        decreases vecexp, 1int,
    {
        let ghost parts = each_simplified(expression_views(vecexp@), None);
        let mut new_exp: Vec<Expression> = Vec::new();
        assert(expression_views(new_exp@) =~= or_operands(parts, 0));
        for exp in it: vecexp.into_iter()
            invariant
                it.seq() == vecexp@,
                parts == each_simplified(expression_views(vecexp@), None),
                expression_views(new_exp@) == or_operands(parts, it.index() as int),
                forall|i: int|
                    0 <= i < it.index() ==> #[trigger] parts[i] != Formula::Constant(Constant::ONE),
        {
            let ghost before = new_exp@;
            match exp.simplify() {
                Expression::Constant(Constant::ZERO) => {},
                Expression::Constant(Constant::ONE) => {
                    assert(parts[it.index() as int] == Formula::Constant(Constant::ONE));
                    return Expression::Constant(Constant::ONE);
                },
                Expression::Operation(Self::OR(inner_or)) => {
                    let mut inner_or = inner_or;
                    proof {
                        lemma_views_add(before, inner_or@);
                    }
                    new_exp.append(&mut inner_or);
                },
                other => {
                    proof {
                        lemma_views_push(before, other);
                    }
                    new_exp.push(other);
                },
            }
        }
        if new_exp.len() == 0 {
            Expression::Constant(Constant::ZERO)
        } else if new_exp.len() == 1 {
            let only = new_exp.pop();
            only.unwrap()
        } else {
            Expression::Operation(Self::OR(new_exp))
        }
    }

    /// The disjunction of expressions, simplified in a scope.
    pub fn simplify_or_with(vecexp: Vec<Expression>, scope: &VarScope) -> (out: Expression)
        ensures
            out@ == simplified(Formula::Or(expression_views(vecexp@)), Some(scope@)),
        decreases vecexp, 1int,
    {
        let ghost parts = each_simplified(expression_views(vecexp@), Some(scope@));
        let mut new_exp: Vec<Expression> = Vec::new();
        assert(expression_views(new_exp@) =~= or_operands(parts, 0));
        for exp in it: vecexp.into_iter()
            invariant
                it.seq() == vecexp@,
                parts == each_simplified(expression_views(vecexp@), Some(scope@)),
                expression_views(new_exp@) == or_operands(parts, it.index() as int),
                forall|i: int|
                    0 <= i < it.index() ==> #[trigger] parts[i] != Formula::Constant(Constant::ONE),
        {
            let ghost before = new_exp@;
            match exp.simplify_with(scope) {
                Expression::Constant(Constant::ZERO) => {},
                Expression::Constant(Constant::ONE) => {
                    assert(parts[it.index() as int] == Formula::Constant(Constant::ONE));
                    return Expression::Constant(Constant::ONE);
                },
                Expression::Operation(Self::OR(inner_or)) => {
                    let mut inner_or = inner_or;
                    proof {
                        lemma_views_add(before, inner_or@);
                    }
                    new_exp.append(&mut inner_or);
                },
                other => {
                    proof {
                        lemma_views_push(before, other);
                    }
                    new_exp.push(other);
                },
            }
        }
        if new_exp.len() == 0 {
            Expression::Constant(Constant::ZERO)
        } else if new_exp.len() == 1 {
            let only = new_exp.pop();
            only.unwrap()
        } else {
            Expression::Operation(Self::OR(new_exp))
        }
    }

    /// The exclusive disjunction of expressions, simplified by the laws that
    /// hold of every variable.
    pub fn simplify_xor(vecexp: Vec<Expression>) -> (out: Expression)
        ensures
            out@ == simplified(Formula::Xor(expression_views(vecexp@)), None),
        decreases vecexp, 1int,
    {
        let ghost parts = each_simplified(expression_views(vecexp@), None);
        let mut new_exp: Vec<Expression> = Vec::new();
        let mut spare_ones: usize = 0;
        let ghost total = vecexp.len();
        assert(expression_views(new_exp@) =~= xor_operands(parts, 0));
        for exp in it: vecexp.into_iter()
            invariant
                it.seq() == vecexp@,
                parts == each_simplified(expression_views(vecexp@), None),
                expression_views(new_exp@) == xor_operands(parts, it.index() as int),
                spare_ones == ones(parts, it.index() as int),
                spare_ones <= it.index(),
                it.seq().len() == total,
        {
            let ghost before = new_exp@;
            match exp.simplify() {
                Expression::Constant(Constant::ONE) => {
                    spare_ones += 1;
                },
                Expression::Constant(Constant::ZERO) => {},
                Expression::Operation(Self::XOR(inner_xor)) => {
                    let mut inner_xor = inner_xor;
                    proof {
                        lemma_views_add(before, inner_xor@);
                    }
                    new_exp.append(&mut inner_xor);
                },
                other => {
                    proof {
                        lemma_views_push(before, other);
                    }
                    new_exp.push(other);
                },
            }
        }
        let negate_result = spare_ones % 2 == 1;
        if new_exp.len() == 0 {
            return Expression::Constant(Constant::ZERO.negate_if(negate_result));
        }
        let exp = if new_exp.len() == 1 {
            let only = new_exp.pop();
            only.unwrap()
        } else {
            Expression::Operation(Operation::XOR(new_exp))
        };
        if negate_result {
            Expression::Operation(Operation::NOT(Box::new(exp)))
        } else {
            exp
        }
    }

    /// The exclusive disjunction of expressions, simplified in a scope.
    pub fn simplify_xor_with(vecexp: Vec<Expression>, scope: &VarScope) -> (out: Expression)
        ensures
            out@ == simplified(Formula::Xor(expression_views(vecexp@)), Some(scope@)),
        decreases vecexp, 1int,
    {
        let ghost parts = each_simplified(expression_views(vecexp@), Some(scope@));
        let mut new_exp: Vec<Expression> = Vec::new();
        let mut spare_ones: usize = 0;
        let ghost total = vecexp.len();
        assert(expression_views(new_exp@) =~= xor_operands(parts, 0));
        for exp in it: vecexp.into_iter()
            invariant
                it.seq() == vecexp@,
                parts == each_simplified(expression_views(vecexp@), Some(scope@)),
                expression_views(new_exp@) == xor_operands(parts, it.index() as int),
                spare_ones == ones(parts, it.index() as int),
                spare_ones <= it.index(),
                it.seq().len() == total,
        {
            let ghost before = new_exp@;
            match exp.simplify_with(scope) {
                Expression::Constant(Constant::ONE) => {
                    spare_ones += 1;
                },
                Expression::Constant(Constant::ZERO) => {},
                Expression::Operation(Self::XOR(inner_xor)) => {
                    let mut inner_xor = inner_xor;
                    proof {
                        lemma_views_add(before, inner_xor@);
                    }
                    new_exp.append(&mut inner_xor);
                },
                other => {
                    proof {
                        lemma_views_push(before, other);
                    }
                    new_exp.push(other);
                },
            }
        }
        let negate_result = spare_ones % 2 == 1;
        if new_exp.len() == 0 {
            return Expression::Constant(Constant::ZERO.negate_if(negate_result));
        }
        let exp = if new_exp.len() == 1 {
            let only = new_exp.pop();
            only.unwrap()
        } else {
            Expression::Operation(Operation::XOR(new_exp))
        };
        if negate_result {
            Expression::Operation(Operation::NOT(Box::new(exp)))
        } else {
            exp
        }
    }
}

impl Operation {
    /// The conjunction of the values of expressions, taken from left to right
    /// up to the first that is ZERO.
    pub fn evaluate_and(
        vecexp: &[Expression],
        scope: &VarScope,
    ) -> (out: Result<Constant, String>)
        ensures
            match conjunction(each_value(expression_views(vecexp@), scope@), 0) {
                Ok(constant) => out == Ok::<Constant, String>(constant),
                Err(name) => out is Err && out->Err_0@ == undefined_text(name),
            },
        decreases vecexp@, 1int,
    {
        let ghost outcomes = each_value(expression_views(vecexp@), scope@);
        for k in 0..vecexp.len()
            invariant
                outcomes == each_value(expression_views(vecexp@), scope@),
                conjunction(outcomes, 0) == conjunction(outcomes, k as int),
        {
            match vecexp[k].evaluate(scope) {
                Err(message) => {
                    return Err(message);
                },
                Ok(Constant::ZERO) => {
                    return Ok(Constant::ZERO);
                },
                Ok(Constant::ONE) => {},
            }
        }
        Ok(Constant::ONE)
    }

    /// The disjunction of the values of expressions, taken from left to right
    /// up to the first that is ONE.
    pub fn evaluate_or(
        vecexp: &[Expression],
        scope: &VarScope,
    ) -> (out: Result<Constant, String>)
        ensures
            match disjunction(each_value(expression_views(vecexp@), scope@), 0) {
                Ok(constant) => out == Ok::<Constant, String>(constant),
                Err(name) => out is Err && out->Err_0@ == undefined_text(name),
            },
        decreases vecexp@, 1int,
    {
        let ghost outcomes = each_value(expression_views(vecexp@), scope@);
        for k in 0..vecexp.len()
            invariant
                outcomes == each_value(expression_views(vecexp@), scope@),
                disjunction(outcomes, 0) == disjunction(outcomes, k as int),
        {
            match vecexp[k].evaluate(scope) {
                Err(message) => {
                    return Err(message);
                },
                Ok(Constant::ONE) => {
                    return Ok(Constant::ONE);
                },
                Ok(Constant::ZERO) => {},
            }
        }
        Ok(Constant::ZERO)
    }

    /// The parity of the values of expressions, all of which are taken.
    pub fn evaluate_xor(
        vecexp: &[Expression],
        scope: &VarScope,
    ) -> (out: Result<Constant, String>)
        ensures
            match parity(each_value(expression_views(vecexp@), scope@), 0) {
                Ok(constant) => out == Ok::<Constant, String>(constant),
                Err(name) => out is Err && out->Err_0@ == undefined_text(name),
            },
        decreases vecexp@, 1int,
    {
        let ghost outcomes = each_value(expression_views(vecexp@), scope@);
        let mut ones: usize = 0;
        for k in 0..vecexp.len()
            invariant
                outcomes == each_value(expression_views(vecexp@), scope@),
                ones <= k,
                forall|i: int| 0 <= i < k ==> #[trigger] outcomes[i] is Ok,
                parity(outcomes, 0) == (match parity(outcomes, k as int) {
                    Err(name) => Err(name),
                    Ok(rest) => Ok(
                        if ones % 2 == 1 {
                            rest.negated()
                        } else {
                            rest
                        },
                    ),
                }),
        {
            match vecexp[k].evaluate(scope) {
                Err(message) => {
                    proof {
                        lemma_parity_fails(outcomes, 0, k as int);
                    }
                    return Err(message);
                },
                Ok(constant) => {
                    if constant == Constant::ONE {
                        ones += 1;
                    }
                },
            }
        }
        if ones % 2 == 0 {
            Ok(Constant::ZERO)
        } else {
            Ok(Constant::ONE)
        }
    }
}

/// The parity fails at the first failure, whatever comes before it.
proof fn lemma_parity_fails(outcomes: Seq<Outcome>, from: int, at: int)
    requires
        0 <= from <= at < outcomes.len(),
        outcomes[at] is Err,
        forall|i: int| from <= i < at ==> #[trigger] outcomes[i] is Ok,
    ensures
        parity(outcomes, from) == outcomes[at],
    decreases at - from,
{
    if from < at {
        lemma_parity_fails(outcomes, from + 1, at);
    }
}

} // verus!
