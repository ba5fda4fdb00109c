use boolmin::types::constant::Constant;
use boolmin::types::scope::{VarScope, VarValue};
use boolmin::types::var::VarName;

#[test]
fn an_empty_scope_defines_nothing() {
    let scope = VarScope::new();
    assert_eq!(scope.get(&VarName::new('x', None)), None);
    assert_eq!(scope.get_key_value(&VarName::new('x', None)), None);
}

#[test]
fn a_scope_gives_what_was_put_in() {
    let x = VarName::new('x', None);
    let x0 = VarName::new('x', Some(0));
    let x255 = VarName::new('x', Some(255));
    let y = VarName::new('y', None);
    let mut scope = VarScope::new();
    assert_eq!(scope.insert(x, Constant::ONE), None);
    assert_eq!(scope.insert(x0, Constant::ZERO), None);
    assert_eq!(scope.insert(x255, Constant::ONE), None);
    assert_eq!(scope.get(&x), Some(&Constant::ONE));
    assert_eq!(scope.get(&x0), Some(&Constant::ZERO));
    assert_eq!(scope.get(&x255), Some(&Constant::ONE));
    assert_eq!(scope.get(&y), None);
    assert_eq!(scope.get_key_value(&x0), Some((&x0, &Constant::ZERO)));
    // a second definition replaces the first
    assert_eq!(scope.insert(x, Constant::ZERO), Some(Constant::ONE));
    assert_eq!(scope.get(&x), Some(&Constant::ZERO));
}

#[test]
fn letters_next_to_each_other_do_not_collide() {
    let mut scope: VarValue<u32> = VarValue::new();
    let mut n = 0u32;
    for name in ['a', 'b', 'z', 'é', '\u{10FFFF}'] {
        for subscript in [None, Some(0u8), Some(1), Some(254), Some(255)] {
            assert_eq!(scope.insert(VarName::new(name, subscript), n), None);
            n += 1;
        }
    }
    let mut n = 0u32;
    for name in ['a', 'b', 'z', 'é', '\u{10FFFF}'] {
        for subscript in [None, Some(0u8), Some(1), Some(254), Some(255)] {
            assert_eq!(scope.get(&VarName::new(name, subscript)), Some(&n));
            n += 1;
        }
    }
}

#[test]
fn the_enclosing_scope_is_asked_last() {
    let x = VarName::new('x', None);
    let y = VarName::new('y', None);
    let z = VarName::new('z', None);
    let mut outer = VarScope::new();
    outer.insert(x, Constant::ONE);
    outer.insert(y, Constant::ONE);
    let mut middle = VarScope::with_fallback(&outer);
    middle.insert(y, Constant::ZERO);
    let mut inner = VarScope::with_fallback(&middle);
    assert_eq!(inner.insert(z, Constant::ZERO), None);
    assert_eq!(inner.get(&x), Some(&Constant::ONE));
    assert_eq!(inner.get(&y), Some(&Constant::ZERO));
    assert_eq!(inner.get(&z), Some(&Constant::ZERO));
    assert_eq!(middle.get(&z), None);
    assert_eq!(outer.get(&y), Some(&Constant::ONE));
    assert_eq!(inner.get_key_value(&y), Some((&y, &Constant::ZERO)));
    assert_eq!(inner.get(&VarName::new('w', None)), None);
}
