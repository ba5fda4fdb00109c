use boolmin::algorithm::mintermmini::{minimize, step_quine, trim_redundant_terms};
use boolmin::types::constant::Constant;
use boolmin::types::scope::VarScope;
use boolmin::types::term::Term;
use boolmin::types::traits::Eval;
use boolmin::types::var::{Var, VarName};

fn lit(name: char, negated: bool) -> Var {
    Var::new(name, None, negated)
}

fn texts(terms: &[Term]) -> Vec<String> {
    terms.iter().map(|t| t.to_string()).collect()
}

fn holds(terms: &[Term], bits: u64, len: u8) -> bool {
    let mut scope = VarScope::new();
    for i in 0..len {
        let value = Constant::from(bits & (1 << (len - 1 - i)) != 0);
        scope.insert(VarName::new('x', Some(i + 1)), value);
    }
    terms.iter().any(|t| t.evaluate(&scope) == Ok(Constant::ONE))
}

fn minterms(len: i32, all: &[u64]) -> Vec<Term> {
    all.iter().map(|m| Term::new_from_minterm(len, *m)).collect()
}

#[test]
fn two_minterms_merge_on_the_second_literal() {
    let out = minimize(&[Term::new_from_minterm(2, 0), Term::new_from_minterm(2, 1)]);
    assert_eq!(out.len(), 1);
    assert_eq!(out[0].vars(), &vec![Var::new('x', Some(1), true)]);
}

#[test]
fn trim_drops_supersets_and_later_duplicates() {
    let ab = Term::new_from_vars(vec![lit('a', false), lit('b', false)]);
    let a = Term::new_from_vars(vec![lit('a', false)]);
    let abc = Term::new_from_vars(vec![lit('a', false), lit('b', false), lit('c', false)]);
    let cd = Term::new_from_vars(vec![lit('c', false), lit('d', true)]);
    let out = trim_redundant_terms(&[ab, a.clone(), abc, cd.clone(), a, cd]);
    assert_eq!(texts(&out), vec!["(a)", "(cd̄)"]);
}

#[test]
fn trim_keeps_what_is_not_covered() {
    let out = trim_redundant_terms(&minterms(2, &[0, 1, 2, 3]));
    assert_eq!(texts(&out), vec!["(x̄₁x̄₂)", "(x̄₁x₂)", "(x₁x̄₂)", "(x₁x₂)"]);
    assert!(trim_redundant_terms(&[]).is_empty());
}

#[test]
fn trim_twice_is_trim_once() {
    let ab = Term::new_from_vars(vec![lit('a', false), lit('b', false)]);
    let b = Term::new_from_vars(vec![lit('b', false)]);
    let bc = Term::new_from_vars(vec![lit('b', false), lit('c', true)]);
    let c = Term::new_from_vars(vec![lit('c', false)]);
    let once = trim_redundant_terms(&[ab, bc, c, b]);
    let twice = trim_redundant_terms(&once);
    assert_eq!(texts(&once), vec!["(c)", "(b)"]);
    assert_eq!(texts(&twice), texts(&once));
}

#[test]
fn a_round_merges_every_neighbor_pair_and_counts() {
    // 00, 01, 11: 00+01 and 01+11 merge
    let (out, merges) = step_quine(&minterms(2, &[0, 1, 3]));
    assert_eq!(merges, 2);
    assert_eq!(texts(&out), vec!["(x̄₁)", "(x₂)"]);
}

#[test]
fn a_round_carries_over_what_has_no_neighbor() {
    // 000 and 111 are no neighbors; 000 and 001 are
    let (out, merges) = step_quine(&minterms(3, &[0, 7, 1]));
    assert_eq!(merges, 1);
    assert_eq!(texts(&out), vec!["(x̄₁x̄₂)", "(x₁x₂x₃)"]);
    let (same, none) = step_quine(&minterms(3, &[0, 7]));
    assert_eq!(none, 0);
    assert_eq!(texts(&same), vec!["(x̄₁x̄₂x̄₃)", "(x₁x₂x₃)"]);
}

#[test]
fn a_round_drops_the_merges_that_come_twice() {
    // the whole square: four merges, each of a different pair
    let (out, merges) = step_quine(&minterms(2, &[0, 1, 2, 3]));
    assert_eq!(merges, 4);
    assert_eq!(texts(&out), vec!["(x̄₁)", "(x̄₂)", "(x₂)", "(x₁)"]);
    // next round: x̄₁ + x₁ and x̄₂ + x₂ each give the empty term, once kept
    let (last, merges) = step_quine(&out);
    assert_eq!(merges, 2);
    assert_eq!(texts(&last), vec!["()"]);
}

#[test]
fn minimize_of_nothing_is_nothing() {
    assert!(minimize(&[]).is_empty());
}

#[test]
fn minimize_three_variables() {
    // f = sum of minterms 0, 1, 2, 5, 6, 7
    let out = minimize(&minterms(3, &[0, 1, 2, 5, 6, 7]));
    let mut got = texts(&out);
    got.sort();
    let mut want = vec!["(x̄₁x̄₂)", "(x̄₁x̄₃)", "(x̄₂x₃)", "(x₂x̄₃)", "(x₁x₃)", "(x₁x₂)"]
        .into_iter()
        .map(String::from)
        .collect::<Vec<_>>();
    want.sort();
    assert_eq!(got, want);
}

#[test]
fn minimize_is_idempotent() {
    for set in [
        vec![0u64, 1, 2, 5, 6, 7],
        vec![0, 1, 3],
        vec![0, 1, 2, 3, 4, 5, 6, 7],
        vec![1, 2, 4],
        vec![],
    ] {
        let once = minimize(&minterms(3, &set));
        let twice = minimize(&once);
        assert_eq!(texts(&twice), texts(&once));
        let (again, merges) = step_quine(&twice);
        assert_eq!(merges, 0);
        assert_eq!(texts(&again), texts(&twice));
    }
}

#[test]
fn minimize_mixed_lengths() {
    // xyz + xyz̄ gives xy, which then merges with the carried xȳ
    let xyz = Term::new_from_vars(vec![lit('x', false), lit('y', false), lit('z', false)]);
    let xyzneg = Term::new_from_vars(vec![lit('x', false), lit('y', false), lit('z', true)]);
    let xyneg = Term::new_from_vars(vec![lit('x', false), lit('y', true)]);
    let out = minimize(&[xyz, xyzneg, xyneg]);
    assert_eq!(texts(&out), vec!["(x)"]);
}

#[test]
fn minimize_keeps_the_truth_table() {
    // every set of minterms over three variables
    for set in 0..256u32 {
        let chosen: Vec<u64> = (0..8u64).filter(|m| set & (1 << m) != 0).collect();
        let given = minterms(3, &chosen);
        let out = minimize(&given);
        for bits in 0..8u64 {
            assert_eq!(holds(&out, bits, 3), chosen.contains(&bits));
            assert_eq!(holds(&out, bits, 3), holds(&given, bits, 3));
        }
        // no two neighbors and no redundant term are left
        for (i, a) in out.iter().enumerate() {
            for (j, b) in out.iter().enumerate() {
                assert!(!a.is_neighbor(b));
                if i < j {
                    assert_eq!(Term::is_one_redundant(a, b), None);
                }
            }
        }
    }
}

#[test]
fn a_round_on_the_whole_cube() {
    // every minterm over four variables has four neighbors
    let all: Vec<u64> = (0..16).collect();
    let (out, merges) = step_quine(&minterms(4, &all));
    assert_eq!(merges, 32);
    assert_eq!(out.len(), 32);
    assert!(out.iter().all(|t| t.vars().len() == 3));
    // four rounds with a merge, as many as a minterm has literals
    let mut list = minterms(4, &all);
    let mut rounds = 0;
    loop {
        let (next, merges) = step_quine(&list);
        list = next;
        if merges == 0 {
            break;
        }
        rounds += 1;
    }
    assert_eq!(rounds, 4);
    assert_eq!(texts(&list), vec!["()"]);
    assert_eq!(texts(&minimize(&minterms(4, &all))), vec!["()"]);
}
