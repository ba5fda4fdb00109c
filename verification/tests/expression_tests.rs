use boolmin::types::constant::Constant;
use boolmin::types::expression::Expression;
use boolmin::types::operation::Operation;
use boolmin::types::scope::VarScope;
use boolmin::types::term::Term;
use boolmin::types::traits::{Eval, Operator, Simplify, VarVisibility};
use boolmin::types::var::{Var, VarName};
use boolmin::types::varset::VarSet;

fn var(name: char) -> Expression {
    Expression::Var(Var::new(name, None, false))
}

fn nvar(name: char) -> Expression {
    Expression::Var(Var::new(name, None, true))
}

fn one() -> Expression {
    Expression::Constant(Constant::ONE)
}

fn zero() -> Expression {
    Expression::Constant(Constant::ZERO)
}

fn not(inner: Expression) -> Expression {
    Expression::Operation(Operation::NOT(Box::new(inner)))
}

fn and(parts: Vec<Expression>) -> Expression {
    Expression::Operation(Operation::AND(parts))
}

fn or(parts: Vec<Expression>) -> Expression {
    Expression::Operation(Operation::OR(parts))
}

fn xor(parts: Vec<Expression>) -> Expression {
    Expression::Operation(Operation::XOR(parts))
}

fn term(vars: Vec<Var>) -> Expression {
    Expression::Term(Term::new_from_vars(vars))
}

fn show_all(parts: &[Expression]) -> String {
    parts.iter().map(show).collect::<Vec<_>>().join(",")
}

fn show(e: &Expression) -> String {
    match e {
        Expression::Constant(Constant::ZERO) => String::from("0"),
        Expression::Constant(Constant::ONE) => String::from("1"),
        Expression::Var(v) => v.to_string(),
        Expression::Term(t) => t.to_string(),
        Expression::Operation(Operation::NOT(inner)) => format!("NOT[{}]", show(inner)),
        Expression::Operation(Operation::AND(parts)) => format!("AND[{}]", show_all(parts)),
        Expression::Operation(Operation::OR(parts)) => format!("OR[{}]", show_all(parts)),
        Expression::Operation(Operation::XOR(parts)) => format!("XOR[{}]", show_all(parts)),
    }
}

fn scope_of(values: &[(char, Constant)]) -> VarScope<'static> {
    let mut scope = VarScope::new();
    for (name, value) in values {
        scope.insert(VarName::new(*name, None), *value);
    }
    scope
}

#[test]
fn and_drops_ones_and_collapses_to_the_operand() {
    let out = and(vec![one(), var('x'), one()]).simplify();
    assert!(matches!(out, Expression::Var(v) if v == Var::new('x', None, false)));
}

#[test]
fn and_with_zero_is_zero() {
    let out = and(vec![zero(), var('x')]).simplify();
    assert!(matches!(out, Expression::Constant(Constant::ZERO)));
    let out = and(vec![var('x'), var('y'), zero()]).simplify();
    assert!(matches!(out, Expression::Constant(Constant::ZERO)));
}

#[test]
fn xor_with_two_ones_is_the_operand() {
    let out = xor(vec![one(), one(), var('x')]).simplify();
    assert!(matches!(out, Expression::Var(v) if v == Var::new('x', None, false)));
}

#[test]
fn xor_with_one_one_is_the_negated_operand() {
    let out = xor(vec![one(), var('x')]).simplify();
    assert_eq!(show(&out), "NOT[x]");
    match out {
        Expression::Operation(Operation::NOT(inner)) => {
            assert!(matches!(*inner, Expression::Var(v) if v == Var::new('x', None, false)))
        }
        other => panic!("no negation: {:?}", other),
    }
}

#[test]
fn evaluate_var_with_and_without_a_value() {
    let x = Var::new('x', None, false);
    let without = VarScope::new();
    assert_eq!(
        Expression::Var(x).evaluate(&without),
        Err(String::from("Variable 'x' isn't defined in this scope!"))
    );
    let with = scope_of(&[('x', Constant::ONE)]);
    assert_eq!(Expression::Var(x).evaluate(&with), Ok(Constant::ONE));
    assert_eq!(x.evaluate(&with), Ok(Constant::ONE));
}

#[test]
fn evaluate_negates_a_negated_literal() {
    let scope = scope_of(&[('x', Constant::ONE), ('y', Constant::ZERO)]);
    assert_eq!(nvar('x').evaluate(&scope), Ok(Constant::ZERO));
    assert_eq!(nvar('y').evaluate(&scope), Ok(Constant::ONE));
    assert_eq!(var('y').evaluate(&scope), Ok(Constant::ZERO));
}

#[test]
fn evaluate_constants_and_not() {
    let scope = VarScope::new();
    assert_eq!(one().evaluate(&scope), Ok(Constant::ONE));
    assert_eq!(zero().evaluate(&scope), Ok(Constant::ZERO));
    assert_eq!(not(one()).evaluate(&scope), Ok(Constant::ZERO));
    assert_eq!(not(not(one())).evaluate(&scope), Ok(Constant::ONE));
    assert_eq!(Constant::ONE.evaluate(&scope), Ok(Constant::ONE));
    assert!(not(var('q')).evaluate(&scope).is_err());
}

#[test]
fn and_or_stop_at_the_deciding_operand() {
    let scope = scope_of(&[('a', Constant::ZERO), ('b', Constant::ONE)]);
    // decided before the undefined variable is reached
    assert_eq!(and(vec![var('b'), var('a'), var('u')]).evaluate(&scope), Ok(Constant::ZERO));
    assert_eq!(or(vec![var('a'), var('b'), var('u')]).evaluate(&scope), Ok(Constant::ONE));
    // the undefined variable comes first
    assert_eq!(
        and(vec![var('u'), var('a')]).evaluate(&scope),
        Err(String::from("Variable 'u' isn't defined in this scope!"))
    );
    assert_eq!(
        or(vec![var('a'), var('u'), var('b')]).evaluate(&scope),
        Err(String::from("Variable 'u' isn't defined in this scope!"))
    );
    // nothing decides
    assert_eq!(and(vec![var('b'), nvar('a')]).evaluate(&scope), Ok(Constant::ONE));
    assert_eq!(or(vec![var('a'), nvar('b')]).evaluate(&scope), Ok(Constant::ZERO));
    assert_eq!(and(vec![]).evaluate(&scope), Ok(Constant::ONE));
    assert_eq!(or(vec![]).evaluate(&scope), Ok(Constant::ZERO));
}

#[test]
fn xor_is_the_parity_and_never_stops_early() {
    let scope = scope_of(&[('a', Constant::ZERO), ('b', Constant::ONE)]);
    assert_eq!(xor(vec![]).evaluate(&scope), Ok(Constant::ZERO));
    assert_eq!(xor(vec![var('b')]).evaluate(&scope), Ok(Constant::ONE));
    assert_eq!(xor(vec![var('b'), var('b')]).evaluate(&scope), Ok(Constant::ZERO));
    assert_eq!(xor(vec![var('b'), var('a'), one()]).evaluate(&scope), Ok(Constant::ZERO));
    assert_eq!(xor(vec![var('b'), var('a'), one(), nvar('a')]).evaluate(&scope), Ok(Constant::ONE));
    assert_eq!(
        xor(vec![var('b'), var('b'), var('u'), var('v')]).evaluate(&scope),
        Err(String::from("Variable 'u' isn't defined in this scope!"))
    );
}

#[test]
fn term_evaluates_as_the_conjunction_of_its_literals() {
    let scope = scope_of(&[('a', Constant::ZERO), ('b', Constant::ONE)]);
    let a = Var::new('a', None, false);
    let na = Var::new('a', None, true);
    let b = Var::new('b', None, false);
    let u = Var::new('u', None, false);
    assert_eq!(term(vec![]).evaluate(&scope), Ok(Constant::ONE));
    assert_eq!(term(vec![b, na]).evaluate(&scope), Ok(Constant::ONE));
    assert_eq!(term(vec![b, a]).evaluate(&scope), Ok(Constant::ZERO));
    // in the order of the literals: a comes before u
    assert_eq!(term(vec![u, a]).evaluate(&scope), Ok(Constant::ZERO));
    assert_eq!(
        term(vec![u, b]).evaluate(&scope),
        Err(String::from("Variable 'u' isn't defined in this scope!"))
    );
}

#[test]
fn evaluate_nested() {
    // (a | ~b) ^ (c & 1)
    let e = xor(vec![or(vec![var('a'), not(var('b'))]), and(vec![var('c'), one()])]);
    let cases = [
        (Constant::ZERO, Constant::ZERO, Constant::ZERO, Constant::ONE),
        (Constant::ZERO, Constant::ONE, Constant::ZERO, Constant::ZERO),
        (Constant::ZERO, Constant::ONE, Constant::ONE, Constant::ONE),
        (Constant::ONE, Constant::ONE, Constant::ONE, Constant::ZERO),
    ];
    for (a, b, c, want) in cases {
        let scope = scope_of(&[('a', a), ('b', b), ('c', c)]);
        assert_eq!(e.evaluate(&scope), Ok(want));
    }
}

#[test]
fn not_simplifies_constants_and_double_negation() {
    assert_eq!(show(&not(zero()).simplify()), "1");
    assert_eq!(show(&not(one()).simplify()), "0");
    assert_eq!(show(&not(not(var('x'))).simplify()), "x");
    assert_eq!(show(&not(not(not(var('x')))).simplify()), "NOT[x]");
    assert_eq!(show(&not(var('x')).simplify()), "NOT[x]");
    assert_eq!(show(&not(and(vec![var('x'), zero()])).simplify()), "1");
}

#[test]
fn and_or_flatten_and_collapse() {
    assert_eq!(show(&and(vec![]).simplify()), "1");
    assert_eq!(show(&or(vec![]).simplify()), "0");
    assert_eq!(show(&and(vec![one(), one()]).simplify()), "1");
    assert_eq!(show(&or(vec![zero()]).simplify()), "0");
    assert_eq!(show(&or(vec![zero(), var('x'), zero()]).simplify()), "x");
    assert_eq!(show(&or(vec![var('x'), one()]).simplify()), "1");
    assert_eq!(
        show(&and(vec![var('a'), and(vec![var('b'), one(), var('c')]), var('d')]).simplify()),
        "AND[a,b,c,d]"
    );
    assert_eq!(
        show(&or(vec![or(vec![var('a'), or(vec![var('b'), var('c')])]), var('d')]).simplify()),
        "OR[a,b,c,d]"
    );
    // only the own kind is flattened
    assert_eq!(
        show(&and(vec![var('a'), or(vec![var('b'), var('c')])]).simplify()),
        "AND[a,OR[b,c]]"
    );
    // an inner conjunction that collapses to one operand
    assert_eq!(show(&and(vec![and(vec![one(), var('b')]), one()]).simplify()), "b");
}

#[test]
fn xor_folds_the_constants_into_a_parity() {
    assert_eq!(show(&xor(vec![]).simplify()), "0");
    assert_eq!(show(&xor(vec![one()]).simplify()), "1");
    assert_eq!(show(&xor(vec![one(), zero(), one()]).simplify()), "0");
    assert_eq!(show(&xor(vec![one(), one(), one()]).simplify()), "1");
    assert_eq!(show(&xor(vec![zero(), var('x')]).simplify()), "x");
    assert_eq!(show(&xor(vec![var('x'), one(), var('y')]).simplify()), "NOT[XOR[x,y]]");
    assert_eq!(show(&xor(vec![var('x'), one(), var('y'), one()]).simplify()), "XOR[x,y]");
    assert_eq!(
        show(&xor(vec![var('x'), xor(vec![var('y'), var('z')])]).simplify()),
        "XOR[x,y,z]"
    );
    // the negation is put around what is left, as it is
    assert_eq!(show(&xor(vec![one(), not(var('x'))]).simplify()), "NOT[NOT[x]]");
    // an inner parity that turns into a negation is an operand like any other
    assert_eq!(
        show(&xor(vec![var('a'), xor(vec![one(), var('b')])]).simplify()),
        "XOR[a,NOT[b]]"
    );
}

#[test]
fn term_simplifies_duplicates_and_duals() {
    let a = Var::new('a', None, false);
    let na = Var::new('a', None, true);
    let b = Var::new('b', None, false);
    assert_eq!(show(&term(vec![b, a, b, a, a]).simplify()), "(ab)");
    assert_eq!(show(&term(vec![a, b, na]).simplify()), "0");
    assert_eq!(show(&term(vec![a, a, na, na]).simplify()), "0");
    assert_eq!(show(&term(vec![]).simplify()), "()");
    assert_eq!(show(&term(vec![na]).simplify()), "(a\u{304})");
}

#[test]
fn leaves_simplify_to_themselves() {
    assert_eq!(show(&var('x').simplify()), "x");
    assert_eq!(show(&nvar('x').simplify()), "x\u{304}");
    assert_eq!(show(&one().simplify()), "1");
    assert_eq!(show(&Constant::ZERO.simplify()), "0");
    assert_eq!(show(&Var::new('k', Some(2), true).simplify()), "k\u{304}₂");
}

#[test]
fn simplify_with_puts_the_known_values_in() {
    let scope = scope_of(&[('a', Constant::ONE), ('b', Constant::ZERO)]);
    assert_eq!(show(&var('a').simplify_with(&scope)), "1");
    assert_eq!(show(&nvar('a').simplify_with(&scope)), "0");
    assert_eq!(show(&nvar('b').simplify_with(&scope)), "1");
    assert_eq!(show(&var('x').simplify_with(&scope)), "x");
    assert_eq!(show(&and(vec![var('a'), var('x')]).simplify_with(&scope)), "x");
    assert_eq!(show(&and(vec![var('b'), var('x')]).simplify_with(&scope)), "0");
    assert_eq!(show(&or(vec![var('b'), var('x'), var('y')]).simplify_with(&scope)), "OR[x,y]");
    assert_eq!(show(&or(vec![var('x'), var('a')]).simplify_with(&scope)), "1");
    assert_eq!(show(&xor(vec![var('a'), var('x'), var('b')]).simplify_with(&scope)), "NOT[x]");
    assert_eq!(show(&not(var('b')).simplify_with(&scope)), "1");
    assert_eq!(show(&not(var('x')).simplify_with(&scope)), "NOT[x]");
    assert_eq!(show(&Constant::ONE.simplify_with(&scope)), "1");
}

#[test]
fn term_simplify_with_keeps_the_open_literals() {
    let scope = scope_of(&[('a', Constant::ONE), ('b', Constant::ZERO)]);
    let a = Var::new('a', None, false);
    let na = Var::new('a', None, true);
    let b = Var::new('b', None, false);
    let nb = Var::new('b', None, true);
    let x = Var::new('x', None, false);
    let y = Var::new('y', None, true);
    assert_eq!(show(&term(vec![y, a, x, nb]).simplify_with(&scope)), "(xy\u{304})");
    assert_eq!(show(&term(vec![a, nb]).simplify_with(&scope)), "1");
    assert_eq!(show(&term(vec![]).simplify_with(&scope)), "1");
    assert_eq!(show(&term(vec![x, b]).simplify_with(&scope)), "0");
    assert_eq!(show(&term(vec![x, na]).simplify_with(&scope)), "0");
    // duplicates stay: only the values are put in
    assert_eq!(show(&term(vec![x, x, a]).simplify_with(&scope)), "(xx)");
}

#[test]
fn simplify_with_a_full_scope_gives_the_value() {
    let e = xor(vec![or(vec![var('a'), not(var('b'))]), and(vec![var('c'), one()]), term(vec![
        Var::new('a', None, true),
        Var::new('c', None, false),
    ])]);
    for bits in 0..8u32 {
        let value = |bit: u32| Constant::from(bits & (1 << bit) != 0);
        let scope = scope_of(&[('a', value(0)), ('b', value(1)), ('c', value(2))]);
        let want = e.evaluate(&scope).unwrap();
        let got = e.clone().simplify_with(&scope);
        assert!(matches!(got, Expression::Constant(c) if c == want));
    }
}

#[test]
fn clone_keeps_the_tree() {
    let e = xor(vec![or(vec![var('a'), not(var('b'))]), and(vec![var('c'), one()]), term(vec![
        Var::new('a', None, true),
    ])]);
    assert_eq!(show(&e.clone()), show(&e));
    assert_eq!(show(&e), "XOR[OR[a,NOT[b]],AND[c,1],(a\u{304})]");
}

#[test]
fn used_variables_are_collected_once() {
    let e = xor(vec![
        or(vec![var('c'), not(nvar('b'))]),
        and(vec![var('c'), one()]),
        term(vec![Var::new('a', Some(1), true), Var::new('a', None, false)]),
    ]);
    let mut set = VarSet::new();
    assert!(set.insert(VarName::new('z', None)));
    e.get_used_variables(&mut set);
    assert_eq!(
        set.names(),
        &vec![
            VarName::new('a', None),
            VarName::new('a', Some(1)),
            VarName::new('b', None),
            VarName::new('c', None),
            VarName::new('z', None),
        ]
    );
    assert_eq!(set.len(), 5);
    assert!(set.contains(&VarName::new('b', None)));
    assert!(!set.contains(&VarName::new('b', Some(0))));
    assert!(!set.insert(VarName::new('b', None)));
    let mut none = VarSet::new();
    Constant::ONE.get_used_variables(&mut none);
    assert_eq!(none.len(), 0);
}

#[test]
fn operations_are_commutative_and_associative() {
    let op = Operation::AND(vec![]);
    assert!(op.is_commutative());
    assert!(op.is_associative());
    assert!(Operation::NOT(Box::new(one())).is_commutative());
}

#[test]
fn constant_negate_and_from() {
    assert_eq!(Constant::ZERO.negate(), Constant::ONE);
    assert_eq!(Constant::ONE.negate(), Constant::ZERO);
    assert_eq!(Constant::from(true), Constant::ONE);
    assert_eq!(Constant::from(false), Constant::ZERO);
    assert_eq!(Constant::ONE.negate_if(false), Constant::ONE);
    assert_eq!(Constant::ONE.negate_if(true), Constant::ZERO);
    assert!(Constant::ZERO < Constant::ONE);
}

#[test]
fn simplify_keeps_the_value() {
    let a = Var::new('a', None, false);
    let na = Var::new('a', None, true);
    let b = Var::new('b', None, false);
    let c = Var::new('c', None, true);
    let expressions = vec![
        xor(vec![or(vec![var('a'), not(var('b'))]), and(vec![var('c'), one()]), term(vec![na, c])]),
        and(vec![var('a'), and(vec![var('b'), one(), or(vec![zero(), var('c')])]), not(not(var('a')))]),
        or(vec![or(vec![var('a'), zero()]), xor(vec![one(), var('b'), one(), one()]), term(vec![a, b, b])]),
        not(xor(vec![xor(vec![var('a'), var('b')]), var('c'), one()])),
        and(vec![term(vec![a, na]), var('b')]),
        or(vec![term(vec![a, a, b, c]), nvar('c')]),
        xor(vec![one(), not(var('a'))]),
    ];
    for e in expressions.iter() {
        for bits in 0..8u32 {
            let value = |bit: u32| Constant::from(bits & (1 << bit) != 0);
            let scope = scope_of(&[('a', value(0)), ('b', value(1)), ('c', value(2))]);
            let part = scope_of(&[('b', value(1))]);
            let want = e.evaluate(&scope);
            assert!(want.is_ok());
            assert_eq!(e.clone().simplify().evaluate(&scope), want);
            assert_eq!(e.clone().simplify_with(&part).evaluate(&scope), want);
            assert_eq!(e.clone().simplify().simplify().evaluate(&scope), want);
        }
    }
}

#[test]
fn the_operations_one_by_one() {
    let scope = scope_of(&[('a', Constant::ONE), ('b', Constant::ZERO)]);
    assert_eq!(show(&Operation::simplify_not(not(var('x')))), "x");
    assert_eq!(show(&Operation::simplify_not_with(var('a'), &scope)), "0");
    assert_eq!(show(&Operation::simplify_and(vec![var('x'), one(), var('y')])), "AND[x,y]");
    assert_eq!(show(&Operation::simplify_and_with(vec![var('x'), var('a')], &scope)), "x");
    assert_eq!(show(&Operation::simplify_or(vec![var('x'), zero(), var('y')])), "OR[x,y]");
    assert_eq!(show(&Operation::simplify_or_with(vec![var('x'), var('b')], &scope)), "x");
    assert_eq!(show(&Operation::simplify_xor(vec![var('x'), one(), one()])), "x");
    assert_eq!(show(&Operation::simplify_xor_with(vec![var('x'), var('a')], &scope)), "NOT[x]");
    let parts = [var('a'), nvar('b'), var('b')];
    assert_eq!(Operation::evaluate_and(&parts, &scope), Ok(Constant::ZERO));
    assert_eq!(Operation::evaluate_and(&parts[..2], &scope), Ok(Constant::ONE));
    assert_eq!(Operation::evaluate_or(&parts, &scope), Ok(Constant::ONE));
    assert_eq!(Operation::evaluate_or(&parts[2..], &scope), Ok(Constant::ZERO));
    assert_eq!(Operation::evaluate_xor(&parts, &scope), Ok(Constant::ZERO));
    assert_eq!(Operation::evaluate_xor(&parts[1..], &scope), Ok(Constant::ONE));
    assert!(Operation::evaluate_xor(&[var('a'), var('u')], &scope).is_err());
    let x = Var::new('x', None, true);
    assert_eq!(x.resolve(&scope), None);
    assert_eq!(Var::new('a', None, true).resolve(&scope), Some(Constant::ZERO));
}
