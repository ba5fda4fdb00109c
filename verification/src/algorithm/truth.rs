//! What a list of terms means as a disjunction, and the proof that merging,
//! trimming and minimizing keep it.

use crate::algorithm::mintermmini::{
    after_rounds, born_of, has_neighbor, kept, lemma_round_terms, lemma_settles,
    lemma_unbeaten_rival, merges_with, minimized, redundant, round_terms, row, rows,
    settles_after, term_views, trimmed,
};
use crate::types::term::{
    covers, differ_only_at, lemma_neighbors_symmetric, lemma_not_own_neighbor, merged, neighbors,
    Term,
};
use crate::types::var::{Var, VarName};
use vstd::prelude::*;

verus! {

/// Whether a literal is true where `truth` gives every variable its value.
pub open spec fn literal_holds(var: Var, truth: spec_fn(VarName) -> bool) -> bool {
    truth(var.name) != var.negated
}

/// Whether a term is true: each of its literals is.
pub open spec fn term_holds(term: Seq<Var>, truth: spec_fn(VarName) -> bool) -> bool {
    forall|k: int| 0 <= k < term.len() ==> literal_holds(#[trigger] term[k], truth)
}

/// Whether a list of terms, read as their disjunction, is true: one of its
/// terms is.
pub open spec fn some_term_holds(terms: Seq<Seq<Var>>, truth: spec_fn(VarName) -> bool) -> bool {
    exists|i: int| 0 <= i < terms.len() && term_holds(#[trigger] terms[i], truth)
}

/// The merge of two neighbors is true exactly where one of the two is.
pub proof fn lemma_merge_keeps_truth(a: Seq<Var>, b: Seq<Var>, truth: spec_fn(VarName) -> bool)
    requires
        neighbors(a, b),
    ensures
        term_holds(merged(a, b), truth) <==> term_holds(a, truth) || term_holds(b, truth),
{
    let at = choose|at: int| differ_only_at(a, b, at);
    let both = merged(a, b);
    assert forall|k: int| 0 <= k < a.len() && k != at implies a[k] == b[k] by {
        assert(a[k].name == b[k].name);
        assert(!a[k].dual(b[k]));
    }
    if term_holds(a, truth) || term_holds(b, truth) {
        assert forall|k: int| 0 <= k < both.len()
            implies literal_holds(#[trigger] both[k], truth) by {
            let from = if k < at {
                k
            } else {
                k + 1
            };
            assert(both[k] == a[from] && both[k] == b[from]);
        }
    }
    if term_holds(both, truth) {
        assert forall|k: int| 0 <= k < a.len() && k != at implies literal_holds(a[k], truth)
            && literal_holds(b[k], truth) by {
            let to = if k < at {
                k
            } else {
                k - 1
            };
            assert(both[to] == a[k]);
        }
        assert(a[at].dual(b[at]));
        if literal_holds(a[at], truth) {
            assert(term_holds(a, truth));
        } else {
            assert(literal_holds(b[at], truth));
            assert(term_holds(b, truth));
        }
    }
}

/// A term that holds every literal of another is true only where the other is.
pub proof fn lemma_covered_is_weaker(
    part: Seq<Var>,
    whole: Seq<Var>,
    truth: spec_fn(VarName) -> bool,
)
    requires
        covers(part, whole),
        term_holds(whole, truth),
    ensures
        term_holds(part, truth),
{
    assert forall|k: int| 0 <= k < part.len() implies literal_holds(#[trigger] part[k], truth) by {
        assert(whole.contains(part[k]));
        let p = choose|p: int| 0 <= p < whole.len() && whole[p] == part[k];
        assert(literal_holds(whole[p], truth));
    }
}

proof fn lemma_kept_holds_each(terms: Seq<Seq<Var>>, count: int, k: int)
    requires
        0 <= k < count <= terms.len(),
        !redundant(terms, k),
    ensures
        kept(terms, count).contains(terms[k]),
    decreases count,
{
    if k < count - 1 {
        lemma_kept_holds_each(terms, count - 1, k);
        let before = kept(terms, count - 1);
        let x = choose|x: int| 0 <= x < before.len() && before[x] == terms[k];
        assert(kept(terms, count)[x] == terms[k]);
    } else {
        let last = kept(terms, count).len() - 1;
        assert(kept(terms, count)[last] == terms[k]);
    }
}

proof fn lemma_kept_from_list(terms: Seq<Seq<Var>>, count: int)
    requires
        0 <= count <= terms.len(),
    ensures
        forall|x: int| 0 <= x < kept(terms, count).len()
            ==> terms.contains(#[trigger] kept(terms, count)[x]),
    decreases count,
{
    if count > 0 {
        lemma_kept_from_list(terms, count - 1);
        let before = kept(terms, count - 1);
        let now = kept(terms, count);
        assert forall|x: int| 0 <= x < now.len() implies terms.contains(#[trigger] now[x]) by {
            if x < before.len() {
                assert(now[x] == before[x]);
            } else {
                assert(now[x] == terms[count - 1]);
            }
        }
    }
}

/// Trimming keeps the disjunction: the trimmed list is true exactly where the
/// list is.
pub proof fn lemma_trim_keeps_truth(terms: Seq<Seq<Var>>, truth: spec_fn(VarName) -> bool)
    ensures
        some_term_holds(trimmed(terms), truth) <==> some_term_holds(terms, truth),
{
    let n = terms.len() as int;
    let out = trimmed(terms);
    if some_term_holds(out, truth) {
        let x = choose|x: int| 0 <= x < out.len() && term_holds(#[trigger] out[x], truth);
        lemma_kept_from_list(terms, n);
        assert(terms.contains(out[x]));
        let k = choose|k: int| 0 <= k < terms.len() && terms[k] == out[x];
        assert(term_holds(terms[k], truth));
    }
    if some_term_holds(terms, truth) {
        let k = choose|k: int| 0 <= k < terms.len() && term_holds(#[trigger] terms[k], truth);
        let stays = if redundant(terms, k) {
            let rival = lemma_unbeaten_rival(terms, k);
            lemma_covered_is_weaker(terms[rival], terms[k], truth);
            rival
        } else {
            k
        };
        lemma_kept_holds_each(terms, n, stays);
        let x = choose|x: int| 0 <= x < out.len() && out[x] == terms[stays];
        assert(term_holds(out[x], truth));
    }
}

proof fn lemma_merges_with_holds_each(terms: Seq<Seq<Var>>, i: int, upto: int, j: int)
    requires
        0 <= i <= j < upto <= terms.len(),
        neighbors(terms[i], terms[j]),
    ensures
        merges_with(terms, i, upto).contains(merged(terms[i], terms[j])),
    decreases upto,
{
    if j < upto - 1 {
        lemma_merges_with_holds_each(terms, i, upto - 1, j);
        let before = merges_with(terms, i, upto - 1);
        let x = choose|x: int| 0 <= x < before.len() && before[x] == merged(terms[i], terms[j]);
        assert(merges_with(terms, i, upto)[x] == merged(terms[i], terms[j]));
    } else {
        let now = merges_with(terms, i, upto);
        assert(now[now.len() - 1] == merged(terms[i], terms[j]));
    }
}

proof fn lemma_rows_hold_each_row(terms: Seq<Seq<Var>>, count: int, i: int, term: Seq<Var>)
    requires
        0 <= i < count <= terms.len(),
        row(terms, i).contains(term),
    ensures
        rows(terms, count).contains(term),
    decreases count,
{
    let before = rows(terms, count - 1);
    let now = rows(terms, count);
    if i < count - 1 {
        lemma_rows_hold_each_row(terms, count - 1, i, term);
        let x = choose|x: int| 0 <= x < before.len() && before[x] == term;
        assert(now[x] == term);
    } else {
        let own = row(terms, i);
        let x = choose|x: int| 0 <= x < own.len() && own[x] == term;
        assert(now[before.len() + x] == term);
    }
}

/// A round keeps the disjunction: what it makes of a list is true exactly
/// where the list is.
pub proof fn lemma_round_keeps_truth(terms: Seq<Seq<Var>>, truth: spec_fn(VarName) -> bool)
    ensures
        some_term_holds(round_terms(terms), truth) <==> some_term_holds(terms, truth),
{
    let n = terms.len() as int;
    let raw = rows(terms, n);
    let out = round_terms(terms);
    lemma_trim_keeps_truth(raw, truth);
    if some_term_holds(out, truth) {
        let x = choose|x: int| 0 <= x < out.len() && term_holds(#[trigger] out[x], truth);
        lemma_round_terms(terms);
        assert(born_of(terms, out[x]));
        if exists|i: int, j: int|
            0 <= i < terms.len() && 0 <= j < terms.len() && neighbors(
                #[trigger] terms[i],
                #[trigger] terms[j],
            ) && out[x] == merged(terms[i], terms[j]) {
            let (i, j) = choose|i: int, j: int|
                0 <= i < terms.len() && 0 <= j < terms.len() && neighbors(
                    #[trigger] terms[i],
                    #[trigger] terms[j],
                ) && out[x] == merged(terms[i], terms[j]);
            lemma_merge_keeps_truth(terms[i], terms[j], truth);
            assert(term_holds(terms[i], truth) || term_holds(terms[j], truth));
        } else {
            let i = choose|i: int|
                0 <= i < terms.len() && !has_neighbor(terms, i) && out[x] == #[trigger] terms[i];
            assert(term_holds(terms[i], truth));
        }
    }
    if some_term_holds(terms, truth) {
        let k = choose|k: int| 0 <= k < terms.len() && term_holds(#[trigger] terms[k], truth);
        if has_neighbor(terms, k) {
            let p = choose|p: int| 0 <= p < terms.len() && neighbors(terms[k], #[trigger] terms[p]);
            lemma_not_own_neighbor(terms[k]);
            let (i, j) = if k < p {
                (k, p)
            } else {
                (p, k)
            };
            if p < k {
                lemma_neighbors_symmetric(terms[k], terms[p]);
            }
            lemma_merge_keeps_truth(terms[i], terms[j], truth);
            let both = merged(terms[i], terms[j]);
            lemma_merges_with_holds_each(terms, i, n, j);
            let found = merges_with(terms, i, n);
            let y = choose|y: int| 0 <= y < found.len() && found[y] == both;
            assert(row(terms, i)[y] == both);
            lemma_rows_hold_each_row(terms, n, i, both);
            let x = choose|x: int| 0 <= x < raw.len() && raw[x] == both;
            assert(term_holds(raw[x], truth));
        } else {
            let own = row(terms, k);
            assert(own[own.len() - 1] == terms[k]);
            lemma_rows_hold_each_row(terms, n, k, terms[k]);
            let x = choose|x: int| 0 <= x < raw.len() && raw[x] == terms[k];
            assert(term_holds(raw[x], truth));
        }
    }
}

proof fn lemma_rounds_keep_truth(terms: Seq<Seq<Var>>, rounds: nat, truth: spec_fn(VarName) -> bool)
    ensures
        some_term_holds(after_rounds(terms, rounds), truth) <==> some_term_holds(terms, truth),
    decreases rounds,
{
    if rounds > 0 {
        lemma_rounds_keep_truth(terms, (rounds - 1) as nat, truth);
        lemma_round_keeps_truth(after_rounds(terms, (rounds - 1) as nat), truth);
    }
}

/// Minimizing keeps the disjunction: whatever values the variables have, one
/// of the terms that `minimize` returns is true exactly if one of the given
/// terms is.
pub proof fn lemma_minimize_keeps_truth(terms: Seq<Term>, truth: spec_fn(VarName) -> bool)
    ensures
        some_term_holds(minimized(term_views(terms)), truth) <==> some_term_holds(
            term_views(terms),
            truth,
        ),
{
    let list = term_views(terms);
    lemma_settles(list);
    let rounds = choose|rounds: nat| settles_after(list, rounds);
    lemma_rounds_keep_truth(list, rounds, truth);
    lemma_round_keeps_truth(after_rounds(list, rounds), truth);
}

} // verus!
