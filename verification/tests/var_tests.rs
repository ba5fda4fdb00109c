use boolmin::types::var::{decimal_to_subscript, undefined_message, Var, VarName};

#[test]
fn correct_naming() {
    let zneg = Var::new('z', None, true);

    assert_eq!(
        zneg,
        Var {
            name: VarName {
                name: 'z',
                subscript: None
            },
            negated: true
        }
    );
}

#[test]
fn correct_print() {
    let x3neg = Var::new('x', Some(3), true);
    assert_eq!(x3neg.to_string(), "x̄₃");

    let y = Var::new('y', None, false);
    assert_eq!(y.to_string(), "y");

    let q240neg = Var::new('q', Some(240), true);
    assert_eq!(q240neg.to_string(), "q̄₂₄₀");
}

#[test]
fn sorting() {
    let x3neg = Var::new('x', Some(3), true);
    let x3 = Var::new('x', Some(3), false);

    let y = Var::new('y', None, false);
    let y0 = Var::new('y', Some(0), false);
    let y0neg = Var::new('y', Some(0), true);

    let q240neg = Var::new('q', Some(240), true);

    let mut vec = vec![y0, x3, y0neg, y, x3neg, q240neg];
    vec.sort();
    assert_eq!(vec, [q240neg, x3, x3neg, y, y0, y0neg]);
}

#[test]
fn name_without_subscript_or_overline() {
    assert_eq!(VarName::new('a', None).get_string(false), "a");
    assert_eq!(VarName::new('a', None).get_string(true), "a\u{0304}");
    assert_eq!(VarName::new('a', Some(0)).get_string(false), "a\u{2080}");
    assert_eq!(VarName::new('a', Some(255)).get_string(true), "a\u{0304}\u{2082}\u{2085}\u{2085}");
}

#[test]
fn subscript_digits_are_most_significant_first() {
    assert_eq!(decimal_to_subscript(0), "₀");
    assert_eq!(decimal_to_subscript(7), "₇");
    assert_eq!(decimal_to_subscript(10), "₁₀");
    assert_eq!(decimal_to_subscript(1234567890), "₁₂₃₄₅₆₇₈₉₀");
    assert_eq!(decimal_to_subscript(u32::MAX), "₄₂₉₄₉₆₇₂₉₅");
}

#[test]
fn dual_needs_same_name_and_opposite_sign() {
    let x = Var::new('x', Some(1), false);
    let xneg = Var::new('x', Some(1), true);
    let y = Var::new('y', Some(1), false);
    let yneg = Var::new('y', Some(1), true);
    assert!(x.is_dual(&xneg));
    assert!(xneg.is_dual(&x));
    assert!(!x.is_dual(&x));
    assert!(!x.is_dual(&yneg));
    assert!(x.has_same_name(&xneg));
    assert!(!x.has_same_name(&y));
    assert!(!Var::new('x', None, false).has_same_name(&Var::new('x', Some(0), false)));
}

#[test]
fn order_agrees_with_the_derived_one() {
    let vars = [
        Var::new('q', Some(240), true),
        Var::new('x', None, true),
        Var::new('x', Some(0), false),
        Var::new('x', Some(3), false),
        Var::new('x', Some(3), true),
        Var::new('y', None, false),
        Var::new('y', Some(0), false),
        Var::new('y', Some(0), true),
    ];
    for a in vars.iter() {
        for b in vars.iter() {
            assert_eq!(a.is_at_most(b), a <= b);
            assert_eq!(a.name.is_at_most(&b.name), a.name <= b.name);
        }
    }
}

#[test]
fn undefined_message_names_the_variable() {
    assert_eq!(
        undefined_message(&VarName::new('x', Some(12))),
        "Variable 'x₁₂' isn't defined in this scope!"
    );
}
