use boolmin::types::term::Term;
use boolmin::types::var::Var;

fn lit(name: char, negated: bool) -> Var {
    Var::new(name, None, negated)
}

#[test]
fn from_vars_sorts_and_keeps_duplicates() {
    let term = Term::new_from_vars(vec![
        lit('b', true),
        lit('a', false),
        lit('b', false),
        lit('a', false),
    ]);
    assert_eq!(
        term.vars(),
        &vec![lit('a', false), lit('a', false), lit('b', false), lit('b', true)]
    );
}

#[test]
fn from_vars_orders_as_a_sort_of_the_literals_does() {
    let vars = vec![
        Var::new('y', Some(0), false),
        Var::new('x', Some(3), false),
        Var::new('y', Some(0), true),
        Var::new('y', None, false),
        Var::new('x', Some(3), true),
        Var::new('q', Some(240), true),
    ];
    let mut sorted = vars.clone();
    sorted.sort();
    assert_eq!(Term::new_from_vars(vars).vars(), &sorted);
}

#[test]
fn from_minterm_reads_the_most_significant_bit_first() {
    let term = Term::new_from_minterm(3, 0b110);
    assert_eq!(
        term.vars(),
        &vec![
            Var::new('x', Some(1), false),
            Var::new('x', Some(2), false),
            Var::new('x', Some(3), true),
        ]
    );
    assert_eq!(term.to_string(), "(x₁x₂x̄₃)");
}

#[test]
fn from_minterm_edges() {
    assert!(Term::new_from_minterm(0, 0).vars().is_empty());
    assert!(Term::new_from_minterm(-4, 5).vars().is_empty());
    let all = Term::new_from_minterm(64, u64::MAX);
    assert_eq!(all.vars().len(), 64);
    assert!(all.vars().iter().all(|v| !v.negated));
    assert_eq!(all.vars()[63], Var::new('x', Some(64), false));
    let top = Term::new_from_minterm(64, 1u64 << 63);
    assert!(!top.vars()[0].negated);
    assert!(top.vars()[1..].iter().all(|v| v.negated));
}

#[test]
fn a_term_is_not_its_own_neighbor() {
    for bits in 0..8u64 {
        let term = Term::new_from_minterm(3, bits);
        assert!(!term.is_neighbor(&term));
    }
    let empty = Term::new_from_vars(vec![]);
    assert!(!empty.is_neighbor(&empty));
}

#[test]
fn neighbors_differ_in_exactly_one_sign() {
    let t000 = Term::new_from_minterm(3, 0);
    let t001 = Term::new_from_minterm(3, 1);
    let t011 = Term::new_from_minterm(3, 3);
    assert!(t000.is_neighbor(&t001));
    assert!(t001.is_neighbor(&t000));
    assert!(t001.is_neighbor(&t011));
    assert!(!t000.is_neighbor(&t011));
    // different lengths
    assert!(!t000.is_neighbor(&Term::new_from_minterm(2, 0)));
    // different variables at a position
    let ab = Term::new_from_vars(vec![lit('a', false), lit('b', false)]);
    let ac = Term::new_from_vars(vec![lit('a', false), lit('c', true)]);
    assert!(!ab.is_neighbor(&ac));
}

#[test]
fn merge_drops_the_differing_literal() {
    let t101 = Term::new_from_minterm(3, 0b101);
    let t111 = Term::new_from_minterm(3, 0b111);
    let merged = Term::new_from_neighbors(&t101, &t111).unwrap();
    assert_eq!(
        merged.vars(),
        &vec![Var::new('x', Some(1), false), Var::new('x', Some(3), false)]
    );
    assert!(merged.vars().len() < t101.vars().len());
    assert!(merged.vars().len() < t111.vars().len());
    assert!(Term::new_from_neighbors(&t101, &t101).is_none());
    assert!(Term::new_from_neighbors(&t101, &Term::new_from_minterm(3, 0b010)).is_none());
}

#[test]
fn merge_of_every_neighbor_pair_is_one_shorter() {
    for a in 0..16u64 {
        for b in 0..16u64 {
            let ta = Term::new_from_minterm(4, a);
            let tb = Term::new_from_minterm(4, b);
            let merged = Term::new_from_neighbors(&ta, &tb);
            assert_eq!(merged.is_some(), ta.is_neighbor(&tb));
            assert_eq!(merged.is_some(), (a ^ b).count_ones() == 1);
            if let Some(m) = merged {
                assert_eq!(m.vars().len(), 3);
            }
        }
    }
}

#[test]
fn has_var_compares_name_and_sign() {
    let term = Term::new_from_vars(vec![lit('a', false), lit('b', true)]);
    assert!(term.has_var(lit('a', false)));
    assert!(term.has_var(lit('b', true)));
    assert!(!term.has_var(lit('a', true)));
    assert!(!term.has_var(lit('c', false)));
}

#[test]
fn the_longer_term_is_redundant_beside_its_subset() {
    let ab = Term::new_from_vars(vec![lit('a', false), lit('b', false)]);
    let a = Term::new_from_vars(vec![lit('a', false)]);
    assert_eq!(Term::is_one_redundant(&ab, &a), Some(1));
    assert_eq!(Term::is_one_redundant(&a, &ab), Some(2));
}

#[test]
fn redundancy_edges() {
    let ab = Term::new_from_vars(vec![lit('a', false), lit('b', false)]);
    let ac = Term::new_from_vars(vec![lit('a', false), lit('c', false)]);
    let aneg = Term::new_from_vars(vec![lit('a', true)]);
    let empty = Term::new_from_vars(vec![]);
    // equal terms: the second is the redundant one
    assert_eq!(Term::is_one_redundant(&ab, &ab.clone()), Some(2));
    // equally long, not the same literals
    assert_eq!(Term::is_one_redundant(&ab, &ac), None);
    // the sign counts
    assert_eq!(Term::is_one_redundant(&ab, &aneg), None);
    // the empty term is a subset of every term
    assert_eq!(Term::is_one_redundant(&empty, &ab), Some(2));
    assert_eq!(Term::is_one_redundant(&ab, &empty), Some(1));
}

#[test]
fn term_text_is_the_literals_in_parentheses() {
    assert_eq!(Term::new_from_vars(vec![]).to_string(), "()");
    let term = Term::new_from_vars(vec![lit('b', true), lit('a', false)]);
    assert_eq!(term.to_string(), "(ab̄)");
}

#[test]
fn clone_keeps_the_literals() {
    let term = Term::new_from_minterm(5, 0b10110);
    assert_eq!(term.clone().vars(), term.vars());
}
