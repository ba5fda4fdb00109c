//! Rounds of merging and trimming, and `minimize`, which repeats them until
//! nothing merges.

use crate::types::term::{
    covers, lemma_neighbors_symmetric, lemma_not_own_neighbor, merged, neighbors, redundant_one,
    Term,
};
use crate::types::var::Var;
use vstd::prelude::*;

verus! {

/// The literal sequences of a list of terms.
pub open spec fn term_views(terms: Seq<Term>) -> Seq<Seq<Var>> {
    Seq::new(terms.len(), |i: int| terms[i]@)
}

/// Term `k` of the list is redundant beside term `rival`: it holds every
/// literal of the rival, and the rival is shorter, or as long and earlier in
/// the list.
pub open spec fn outdone_by(terms: Seq<Seq<Var>>, k: int, rival: int) -> bool {
    &&& 0 <= rival < terms.len()
    &&& rival != k
    &&& covers(terms[rival], terms[k])
    &&& (terms[rival].len() < terms[k].len() || (terms[rival].len() == terms[k].len() && rival
        < k))
}

/// Term `k` of the list is redundant beside some other term of the list.
pub open spec fn redundant(terms: Seq<Seq<Var>>, k: int) -> bool {
    exists|rival: int| outdone_by(terms, k, rival)
}

/// Those of the first `count` terms that are not redundant in the list, in
/// their order.
pub open spec fn kept(terms: Seq<Seq<Var>>, count: int) -> Seq<Seq<Var>>
    decreases count,
{
    if count <= 0 {
        Seq::empty()
    } else if redundant(terms, count - 1) {
        kept(terms, count - 1)
    } else {
        kept(terms, count - 1).push(terms[count - 1])
    }
}

/// The list without its redundant terms.
pub open spec fn trimmed(terms: Seq<Seq<Var>>) -> Seq<Seq<Var>> {
    kept(terms, terms.len() as int)
}

/// The merges of term `i` with the terms from itself up to, but without, term
/// `upto`, in the order of the partners.
pub open spec fn merges_with(terms: Seq<Seq<Var>>, i: int, upto: int) -> Seq<Seq<Var>>
    decreases upto - i,
{
    if upto <= i {
        Seq::empty()
    } else if neighbors(terms[i], terms[upto - 1]) {
        merges_with(terms, i, upto - 1).push(merged(terms[i], terms[upto - 1]))
    } else {
        merges_with(terms, i, upto - 1)
    }
}

/// Term `i` has a neighbor in the list.
pub open spec fn has_neighbor(terms: Seq<Seq<Var>>, i: int) -> bool {
    exists|j: int| 0 <= j < terms.len() && neighbors(terms[i], #[trigger] terms[j])
}

/// What term `i` adds to a round: its merges with itself and the terms after
/// it, and then the term itself if it has no neighbor in the list.
pub open spec fn row(terms: Seq<Seq<Var>>, i: int) -> Seq<Seq<Var>> {
    merges_with(terms, i, terms.len() as int) + (if has_neighbor(terms, i) {
        Seq::empty()
    } else {
        seq![terms[i]]
    })
}

/// What the first `count` terms add to a round.
pub open spec fn rows(terms: Seq<Seq<Var>>, count: int) -> Seq<Seq<Var>>
    decreases count,
{
    if count <= 0 {
        Seq::empty()
    } else {
        rows(terms, count - 1) + row(terms, count - 1)
    }
}

/// The number of merges of the first `count` terms, each with itself and the
/// terms after it.
pub open spec fn merge_total(terms: Seq<Seq<Var>>, count: int) -> nat
    decreases count,
{
    if count <= 0 {
        0
    } else {
        merge_total(terms, count - 1) + merges_with(terms, count - 1, terms.len() as int).len()
    }
}

/// The terms that one round makes of a list.
pub open spec fn round_terms(terms: Seq<Seq<Var>>) -> Seq<Seq<Var>> {
    trimmed(rows(terms, terms.len() as int))
}

/// The number of merges in one round on a list.
pub open spec fn round_merges(terms: Seq<Seq<Var>>) -> nat {
    merge_total(terms, terms.len() as int)
}

/// The list after a number of rounds.
pub open spec fn after_rounds(terms: Seq<Seq<Var>>, rounds: nat) -> Seq<Seq<Var>>
    decreases rounds,
{
    if rounds == 0 {
        terms
    } else {
        round_terms(after_rounds(terms, (rounds - 1) as nat))
    }
}

/// After `rounds` rounds the list admits no merge for the first time: a round
/// on each earlier list has a merge, a round on this one has none.
pub open spec fn settles_after(terms: Seq<Seq<Var>>, rounds: nat) -> bool {
    &&& round_merges(after_rounds(terms, rounds)) == 0
    &&& forall|r: nat| r < rounds ==> round_merges(#[trigger] after_rounds(terms, r)) > 0
}

/// What the first round without a merge makes of its list.
pub open spec fn minimized(terms: Seq<Seq<Var>>) -> Seq<Seq<Var>> {
    round_terms(after_rounds(terms, choose|rounds: nat| settles_after(terms, rounds)))
}

/// No two neighbors in the list are as long as `bound` or longer.
pub open spec fn quiet_from(terms: Seq<Seq<Var>>, bound: int) -> bool {
    forall|i: int, j: int|
        0 <= i < terms.len() && 0 <= j < terms.len() && neighbors(
            #[trigger] terms[i],
            #[trigger] terms[j],
        ) ==> terms[i].len() < bound
}

/// The length of the longest of the first `count` terms.
pub open spec fn longest(terms: Seq<Seq<Var>>, count: int) -> nat
    decreases count,
{
    if count <= 0 {
        0
    } else if terms[count - 1].len() > longest(terms, count - 1) {
        terms[count - 1].len()
    } else {
        longest(terms, count - 1)
    }
}

/// The pair of terms `k` and `p` has come up by the time the round stands at
/// term `i` and partner `j`.
spec fn pair_seen(k: int, p: int, i: int, j: int) -> bool {
    let low = if k <= p {
        k
    } else {
        p
    };
    let high = if k <= p {
        p
    } else {
        k
    };
    low < i || (low == i && high < j)
}

/// Term `k` has merged by the time the round stands at term `i` and partner `j`.
spec fn merged_by(terms: Seq<Seq<Var>>, k: int, i: int, j: int) -> bool {
    exists|p: int|
        0 <= p < terms.len() && neighbors(terms[k], #[trigger] terms[p]) && pair_seen(k, p, i, j)
}

proof fn lemma_covers_transitive(a: Seq<Var>, b: Seq<Var>, c: Seq<Var>)
    requires
        covers(a, b),
        covers(b, c),
    ensures
        covers(a, c),
{
    assert forall|k: int| 0 <= k < a.len() implies c.contains(#[trigger] a[k]) by {
        assert(b.contains(a[k]));
        let p = choose|p: int| 0 <= p < b.len() && b[p] == a[k];
        assert(c.contains(b[p]));
    }
}

/// A redundant term is redundant beside a term that is itself not redundant.
pub proof fn lemma_unbeaten_rival(terms: Seq<Seq<Var>>, k: int) -> (rival: int)
    requires
        0 <= k < terms.len(),
        redundant(terms, k),
    ensures
        outdone_by(terms, k, rival),
        !redundant(terms, rival),
    decreases terms[k].len(), k,
{
    let m = choose|m: int| outdone_by(terms, k, m);
    if redundant(terms, m) {
        let r = lemma_unbeaten_rival(terms, m);
        lemma_covers_transitive(terms[r], terms[m], terms[k]);
        r
    } else {
        m
    }
}

/// The list without its redundant terms: those that hold every literal of
/// another term that is shorter, or as long and earlier in the list.
pub fn trim_redundant_terms(terms: &[Term]) -> (out: Vec<Term>)
    ensures
        term_views(out@) == trimmed(term_views(terms@)),
{
    let ghost list = term_views(terms@);
    let n = terms.len();
    let mut is_redundant: Vec<bool> = vec![false; n];
    for ind1 in 0..n
        invariant
            n == terms.len(),
            list == term_views(terms@),
            is_redundant.len() == n,
            forall|k: int| 0 <= k < n && is_redundant[k] ==> redundant(list, k),
            forall|k: int, m: int|
                0 <= k < n && #[trigger] outdone_by(list, k, m) && !redundant(list, m) && (k < ind1
                    || m < ind1) ==> is_redundant[k],
    {
        if !is_redundant[ind1] {
            for ind2 in (ind1 + 1)..n
                invariant
                    n == terms.len(),
                    ind1 < n,
                    list == term_views(terms@),
                    is_redundant.len() == n,
                    forall|k: int| 0 <= k < n && is_redundant[k] ==> redundant(list, k),
                    forall|k: int, m: int|
                        0 <= k < n && #[trigger] outdone_by(list, k, m) && !redundant(list, m) && (
                        k < ind1 || m < ind1) ==> is_redundant[k],
                    forall|p: int|
                        ind1 < p < ind2 && #[trigger] outdone_by(list, p, ind1 as int)
                            && !redundant(list, ind1 as int) ==> is_redundant[p],
                    forall|p: int|
                        ind1 < p < ind2 && #[trigger] outdone_by(list, ind1 as int, p)
                            && !redundant(list, p) ==> is_redundant[ind1 as int],
            {
                if !is_redundant[ind2] {
                    let found = Term::is_one_redundant(&terms[ind1], &terms[ind2]);
                    assert(found == redundant_one(list[ind1 as int], list[ind2 as int]));
                    if let Some(which) = found {
                        if which == 1 {
                            assert(outdone_by(list, ind1 as int, ind2 as int));
                            is_redundant[ind1] = true;
                        } else {
                            assert(outdone_by(list, ind2 as int, ind1 as int));
                            is_redundant[ind2] = true;
                        }
                    }
                }
            }
        }
    }
    proof {
        assert forall|k: int| 0 <= k < n && redundant(list, k) implies is_redundant[k] by {
            let rival = lemma_unbeaten_rival(list, k);
        }
    }
    let mut out: Vec<Term> = Vec::new();
    for i in 0..n
        invariant
            n == terms.len(),
            list == term_views(terms@),
            is_redundant.len() == n,
            forall|k: int| 0 <= k < n ==> is_redundant[k] == redundant(list, k),
            term_views(out@) == kept(list, i as int),
    {
        if !is_redundant[i] {
            let copy = terms[i].clone();
            assert(term_views(out@.push(copy)) =~= term_views(out@).push(copy@));
            out.push(copy);
        }
    }
    out
}

/// One round: every term is merged with each of its neighbors among itself
/// and the terms after it; a term without a neighbor in the list is carried
/// over; the redundant terms of the outcome are dropped. Returns the new list
/// and the number of merges.
pub fn step_quine(terms: &[Term]) -> (out: (Vec<Term>, usize))
    ensures
        term_views(out.0@) == round_terms(term_views(terms@)),
        out.1 == round_merges(term_views(terms@)),
{
    let ghost list = term_views(terms@);
    let n = terms.len();
    let mut merges: usize = 0;
    let mut merged_pairs: Vec<Term> = Vec::new();
    let mut has_been_used: Vec<bool> = vec![false; n];
    assert(term_views(merged_pairs@) =~= rows(list, 0));
    for ind1 in 0..n
        invariant
            n == terms.len(),
            list == term_views(terms@),
            has_been_used.len() == n,
            term_views(merged_pairs@) == rows(list, ind1 as int),
            merges == merge_total(list, ind1 as int),
            merges <= merged_pairs.len(),
            forall|k: int|
                0 <= k < n ==> #[trigger] has_been_used[k] == merged_by(
                    list,
                    k,
                    ind1 as int,
                    ind1 as int,
                ),
    {
        let ghost before = term_views(merged_pairs@);
        assert(before + merges_with(list, ind1 as int, ind1 as int) =~= before);
        for ind2 in ind1..n
            invariant
                n == terms.len(),
                ind1 < n,
                list == term_views(terms@),
                has_been_used.len() == n,
                before == rows(list, ind1 as int),
                term_views(merged_pairs@) == before + merges_with(list, ind1 as int, ind2 as int),
                merges == merge_total(list, ind1 as int) + merges_with(
                    list,
                    ind1 as int,
                    ind2 as int,
                ).len(),
                merges <= merged_pairs.len(),
                forall|k: int|
                    0 <= k < n ==> #[trigger] has_been_used[k] == merged_by(
                        list,
                        k,
                        ind1 as int,
                        ind2 as int,
                    ),
        {
            let ghost used_before = has_been_used@;
            match Term::new_from_neighbors(&terms[ind1], &terms[ind2]) {
                None => {},
                Some(merged_term) => {
                    has_been_used[ind1] = true;
                    has_been_used[ind2] = true;
                    assert(term_views(merged_pairs@.push(merged_term)) =~= term_views(
                        merged_pairs@,
                    ).push(merged_term@));
                    merged_pairs.push(merged_term);
                    let produced = merged_pairs.len();
                    assert(merges < produced);
                    merges += 1;
                },
            }
            proof {
                lemma_pair_step(list, ind1 as int, ind2 as int);
                assert forall|k: int| 0 <= k < n implies #[trigger] has_been_used[k] == merged_by(
                    list,
                    k,
                    ind1 as int,
                    ind2 + 1,
                ) by {
                    assert(used_before[k] == merged_by(list, k, ind1 as int, ind2 as int));
                }
                assert(before + merges_with(list, ind1 as int, ind2 as int).push(
                    merged(list[ind1 as int], list[ind2 as int]),
                ) =~= (before + merges_with(list, ind1 as int, ind2 as int)).push(
                    merged(list[ind1 as int], list[ind2 as int]),
                ));
            }
        }
        proof {
            lemma_row_end(list, ind1 as int);
        }
        if !has_been_used[ind1] {
            let copy = terms[ind1].clone();
            assert(term_views(merged_pairs@.push(copy)) =~= term_views(merged_pairs@).push(copy@));
            merged_pairs.push(copy);
        }
        assert(term_views(merged_pairs@) =~= rows(list, ind1 + 1));
    }
    (trim_redundant_terms(merged_pairs.as_slice()), merges)
}

/// Repeats rounds until one has no merge, and returns what that round made.
/// The rounds that have a merge are no more than the longest term has
/// literals: each round leaves only shorter neighbors than it found.
pub fn minimize(terms: &[Term]) -> (out: Vec<Term>)
    ensures
        term_views(out@) == minimized(term_views(terms@)),
        exists|rounds: nat|
            settles_after(term_views(terms@), rounds) && rounds <= literal_total(
                term_views(terms@),
                terms@.len() as int,
            ),
{
    let ghost list = term_views(terms@);
    let ghost mut rounds: nat = 0;
    let ghost mut bound: int = longest(list, list.len() as int) as int + 1;
    proof {
        lemma_longest(list, list.len() as int);
    }
    let (first, first_merges) = step_quine(terms);
    let mut iteration = first;
    let mut merges = first_merges;
    while merges > 0
        invariant
            term_views(iteration@) == round_terms(after_rounds(list, rounds)),
            merges == round_merges(after_rounds(list, rounds)),
            forall|r: nat| r < rounds ==> round_merges(#[trigger] after_rounds(list, r)) > 0,
            quiet_from(after_rounds(list, rounds), bound),
        decreases bound,
    {
        proof {
            lemma_round_merges(after_rounds(list, rounds));
            lemma_round_lowers(after_rounds(list, rounds), bound);
            assert(after_rounds(list, rounds + 1) == round_terms(after_rounds(list, rounds)));
        }
        let (next, next_merges) = step_quine(iteration.as_slice());
        iteration = next;
        merges = next_merges;
        proof {
            rounds = rounds + 1;
            bound = bound - 1;
        }
    }
    proof {
        assert(settles_after(list, rounds));
        lemma_settles_once(list, rounds, choose|r: nat| settles_after(list, r));
        lemma_rounds_bounded(list, rounds);
    }
    iteration
}

/// At most one number of rounds is the first after which no merge is left.
pub proof fn lemma_settles_once(terms: Seq<Seq<Var>>, a: nat, b: nat)
    requires
        settles_after(terms, a),
        settles_after(terms, b),
    ensures
        a == b,
{
    if a < b {
        assert(round_merges(after_rounds(terms, a)) > 0);
    } else if b < a {
        assert(round_merges(after_rounds(terms, b)) > 0);
    }
}

proof fn lemma_after_rounds_shift(terms: Seq<Seq<Var>>, rounds: nat)
    ensures
        after_rounds(round_terms(terms), rounds) == after_rounds(terms, rounds + 1),
    decreases rounds,
{
    if rounds > 0 {
        lemma_after_rounds_shift(terms, (rounds - 1) as nat);
        assert(after_rounds(terms, rounds + 1) == round_terms(after_rounds(terms, rounds)));
    } else {
        assert(after_rounds(terms, 0) == terms);
        assert(after_rounds(terms, 1) == round_terms(after_rounds(terms, 0)));
    }
}

proof fn lemma_settles_below(terms: Seq<Seq<Var>>, bound: int) -> (rounds: nat)
    requires
        quiet_from(terms, bound),
    ensures
        settles_after(terms, rounds),
        rounds == 0 || rounds < bound,
    decreases bound,
{
    if round_merges(terms) == 0 {
        0
    } else {
        lemma_round_merges(terms);
        lemma_round_lowers(terms, bound);
        let next = round_terms(terms);
        let rest = lemma_settles_below(next, bound - 1);
        assert forall|r: nat| r < rest + 1 implies round_merges(
            #[trigger] after_rounds(terms, r),
        ) > 0 by {
            if r > 0 {
                lemma_after_rounds_shift(terms, (r - 1) as nat);
                assert(round_merges(after_rounds(next, (r - 1) as nat)) > 0);
            }
        }
        lemma_after_rounds_shift(terms, rest);
        rest + 1
    }
}

/// Every list comes to a round without a merge: a round on a list whose
/// longest neighbors have `k` literals leaves no neighbors of `k` or more.
/// So the rounds that have a merge are no more than the longest term has
/// literals.
pub proof fn lemma_settles(terms: Seq<Seq<Var>>)
    ensures
        exists|rounds: nat|
            settles_after(terms, rounds) && rounds <= longest(terms, terms.len() as int),
{
    lemma_longest(terms, terms.len() as int);
    let rounds = lemma_settles_below(terms, longest(terms, terms.len() as int) as int + 1);
    assert(settles_after(terms, rounds) && rounds <= longest(terms, terms.len() as int));
}

/// The number of literals in the first `count` terms.
pub open spec fn literal_total(terms: Seq<Seq<Var>>, count: int) -> nat
    decreases count,
{
    if count <= 0 {
        0
    } else {
        literal_total(terms, count - 1) + terms[count - 1].len()
    }
}

proof fn lemma_longest_in_total(terms: Seq<Seq<Var>>, count: int)
    ensures
        longest(terms, count) <= literal_total(terms, count),
    decreases count,
{
    if count > 0 {
        lemma_longest_in_total(terms, count - 1);
    }
}

/// The rounds that have a merge are no more than the longest term has
/// literals, and so no more than the terms have literals together.
pub proof fn lemma_rounds_bounded(terms: Seq<Seq<Var>>, rounds: nat)
    requires
        settles_after(terms, rounds),
    ensures
        rounds <= longest(terms, terms.len() as int),
        rounds <= literal_total(terms, terms.len() as int),
{
    lemma_settles(terms);
    let found = choose|found: nat|
        settles_after(terms, found) && found <= longest(terms, terms.len() as int);
    lemma_settles_once(terms, rounds, found);
    lemma_longest_in_total(terms, terms.len() as int);
}

/// The place in the list of term `x` of those kept among the first `count`.
spec fn place(terms: Seq<Seq<Var>>, count: int, x: int) -> int
    decreases count,
{
    if count <= 0 {
        0
    } else if redundant(terms, count - 1) || x < kept(terms, count - 1).len() {
        place(terms, count - 1, x)
    } else {
        count - 1
    }
}

proof fn lemma_place(terms: Seq<Seq<Var>>, count: int)
    requires
        0 <= count <= terms.len(),
    ensures
        forall|x: int|
            0 <= x < kept(terms, count).len() ==> {
                &&& 0 <= #[trigger] place(terms, count, x) < count
                &&& kept(terms, count)[x] == terms[place(terms, count, x)]
                &&& !redundant(terms, place(terms, count, x))
            },
        forall|x: int, y: int|
            0 <= x < y < kept(terms, count).len() ==> #[trigger] place(terms, count, x)
                < #[trigger] place(terms, count, y),
    decreases count,
{
    if count > 0 {
        lemma_place(terms, count - 1);
        let before = kept(terms, count - 1);
        let now = kept(terms, count);
        assert forall|x: int| 0 <= x < now.len() implies {
            &&& 0 <= #[trigger] place(terms, count, x) < count
            &&& now[x] == terms[place(terms, count, x)]
            &&& !redundant(terms, place(terms, count, x))
        } by {
            if x < before.len() {
                assert(place(terms, count, x) == place(terms, count - 1, x));
            }
        }
        assert forall|x: int, y: int| 0 <= x < y < now.len() implies #[trigger] place(
            terms,
            count,
            x,
        ) < #[trigger] place(terms, count, y) by {
            assert(place(terms, count, x) == place(terms, count - 1, x));
            if y < before.len() {
                assert(place(terms, count, y) == place(terms, count - 1, y));
            }
        }
    }
}

/// No term of a trimmed list is redundant in it.
pub proof fn lemma_trimmed_has_no_redundant(terms: Seq<Seq<Var>>)
    ensures
        forall|k: int| 0 <= k < trimmed(terms).len() ==> !redundant(trimmed(terms), k),
{
    let n = terms.len() as int;
    let out = trimmed(terms);
    lemma_place(terms, n);
    assert forall|k: int| 0 <= k < out.len() implies !redundant(out, k) by {
        if redundant(out, k) {
            let m = choose|m: int| outdone_by(out, k, m);
            let from_k = place(terms, n, k);
            let from_m = place(terms, n, m);
            if m < k {
                assert(place(terms, n, m) < place(terms, n, k));
            } else {
                assert(place(terms, n, k) < place(terms, n, m));
            }
            assert(outdone_by(terms, from_k, from_m));
        }
    }
}

proof fn lemma_kept_all(terms: Seq<Seq<Var>>, count: int)
    requires
        0 <= count <= terms.len(),
        forall|k: int| 0 <= k < terms.len() ==> !redundant(terms, k),
    ensures
        kept(terms, count) == terms.take(count),
    decreases count,
{
    if count > 0 {
        lemma_kept_all(terms, count - 1);
        assert(terms.take(count - 1).push(terms[count - 1]) =~= terms.take(count));
    } else {
        assert(terms.take(count) =~= Seq::<Seq<Var>>::empty());
    }
}

proof fn lemma_rows_all(terms: Seq<Seq<Var>>, count: int)
    requires
        0 <= count <= terms.len(),
        quiet_from(terms, 0),
    ensures
        rows(terms, count) == terms.take(count),
    decreases count,
{
    if count > 0 {
        lemma_rows_all(terms, count - 1);
        lemma_merges_with(terms, count - 1, terms.len() as int);
        assert(merges_with(terms, count - 1, terms.len() as int).len() == 0) by {
            assert forall|j: int| count - 1 <= j < terms.len() implies !neighbors(
                terms[count - 1],
                #[trigger] terms[j],
            ) by {
                if neighbors(terms[count - 1], terms[j]) {
                    assert(terms[count - 1].len() < 0);
                }
            }
        }
        assert(!has_neighbor(terms, count - 1)) by {
            if has_neighbor(terms, count - 1) {
                let j = choose|j: int|
                    0 <= j < terms.len() && neighbors(terms[count - 1], #[trigger] terms[j]);
                assert(terms[count - 1].len() < 0);
            }
        }
        assert(row(terms, count - 1) =~= seq![terms[count - 1]]);
        assert(terms.take(count - 1) + seq![terms[count - 1]] =~= terms.take(count));
    } else {
        assert(terms.take(count) =~= Seq::<Seq<Var>>::empty());
    }
}

/// A round changes nothing in a list without neighbors and without
/// redundant terms.
pub proof fn lemma_round_at_rest(terms: Seq<Seq<Var>>)
    requires
        quiet_from(terms, 0),
        forall|k: int| 0 <= k < terms.len() ==> !redundant(terms, k),
    ensures
        round_terms(terms) == terms,
        round_merges(terms) == 0,
{
    lemma_round_merges(terms);
    lemma_rows_all(terms, terms.len() as int);
    assert(terms.take(terms.len() as int) =~= terms);
    lemma_kept_all(terms, terms.len() as int);
}

/// Minimizing is idempotent. What `minimize` returns has no two neighbors and
/// no redundant term; minimized again it stays as it is, and a further round
/// on it has no merge.
pub proof fn lemma_minimize_idempotent(terms: Seq<Term>)
    ensures
        minimized(minimized(term_views(terms))) == minimized(term_views(terms)),
        round_merges(minimized(minimized(term_views(terms)))) == 0,
        quiet_from(minimized(term_views(terms)), 0),
        forall|k: int|
            0 <= k < minimized(term_views(terms)).len() ==> !redundant(
                minimized(term_views(terms)),
                k,
            ),
{
    lemma_minimized_at_rest(term_views(terms));
}

/// The same over lists of literal sequences.
pub proof fn lemma_minimized_at_rest(list: Seq<Seq<Var>>)
    ensures
        minimized(minimized(list)) == minimized(list),
        round_merges(minimized(list)) == 0,
        round_terms(minimized(list)) == minimized(list),
        quiet_from(minimized(list), 0),
        forall|k: int| 0 <= k < minimized(list).len() ==> !redundant(minimized(list), k),
{
    lemma_settles(list);
    let rounds = choose|rounds: nat| settles_after(list, rounds);
    let last = after_rounds(list, rounds);
    let out = minimized(list);
    lemma_round_merges(last);
    lemma_round_lowers(last, 0);
    assert(quiet_from(out, 0));
    lemma_trimmed_has_no_redundant(rows(last, last.len() as int));
    lemma_round_at_rest(out);
    assert(settles_after(out, 0));
    lemma_settles_once(out, 0, choose|r: nat| settles_after(out, r));
}

/// How the record of merged terms moves on when the round has met the pair of
/// term `i` and partner `j`.
proof fn lemma_pair_step(terms: Seq<Seq<Var>>, i: int, j: int)
    requires
        0 <= i <= j < terms.len(),
    ensures
        forall|k: int|
            0 <= k < terms.len() ==> (#[trigger] merged_by(terms, k, i, j + 1) <==> merged_by(
                terms,
                k,
                i,
                j,
            ) || (neighbors(terms[i], terms[j]) && (k == i || k == j))),
{
    assert forall|k: int| 0 <= k < terms.len() implies (#[trigger] merged_by(terms, k, i, j + 1)
        <==> merged_by(terms, k, i, j) || (neighbors(terms[i], terms[j])
            && (k == i || k == j))) by {
        if merged_by(terms, k, i, j + 1) {
            let p = choose|p: int|
                0 <= p < terms.len() && neighbors(terms[k], #[trigger] terms[p]) && pair_seen(
                    k,
                    p,
                    i,
                    j + 1,
                );
            if pair_seen(k, p, i, j) {
                assert(merged_by(terms, k, i, j));
            } else if k == i {
                assert(p == j);
            } else {
                assert(k == j && p == i);
                lemma_neighbors_symmetric(terms[k], terms[p]);
            }
        }
        if merged_by(terms, k, i, j) {
            let p = choose|p: int|
                0 <= p < terms.len() && neighbors(terms[k], #[trigger] terms[p]) && pair_seen(
                    k,
                    p,
                    i,
                    j,
                );
            assert(pair_seen(k, p, i, j + 1));
        }
        if neighbors(terms[i], terms[j]) && (k == i || k == j) {
            lemma_not_own_neighbor(terms[i]);
            if k == i {
                assert(neighbors(terms[k], terms[j]) && pair_seen(k, j, i, j + 1));
            } else {
                lemma_neighbors_symmetric(terms[i], terms[j]);
                assert(neighbors(terms[k], terms[i]) && pair_seen(k, i, i, j + 1));
            }
        }
    }
}

/// Where the record of merged terms stands when the round is through with term `i`.
proof fn lemma_row_end(terms: Seq<Seq<Var>>, i: int)
    requires
        0 <= i < terms.len(),
    ensures
        merged_by(terms, i, i, terms.len() as int) == has_neighbor(terms, i),
        forall|k: int|
            0 <= k < terms.len() ==> (#[trigger] merged_by(terms, k, i, terms.len() as int)
                == merged_by(terms, k, i + 1, i + 1)),
{
    let n = terms.len() as int;
    if has_neighbor(terms, i) {
        let j = choose|j: int| 0 <= j < terms.len() && neighbors(terms[i], #[trigger] terms[j]);
        lemma_not_own_neighbor(terms[i]);
        assert(pair_seen(i, j, i, n));
    }
    assert forall|k: int| 0 <= k < terms.len() implies (#[trigger] merged_by(terms, k, i, n)
        == merged_by(terms, k, i + 1, i + 1)) by {
        if merged_by(terms, k, i, n) {
            let p = choose|p: int|
                0 <= p < terms.len() && neighbors(terms[k], #[trigger] terms[p]) && pair_seen(
                    k,
                    p,
                    i,
                    n,
                );
            assert(pair_seen(k, p, i + 1, i + 1));
        }
        if merged_by(terms, k, i + 1, i + 1) {
            let p = choose|p: int|
                0 <= p < terms.len() && neighbors(terms[k], #[trigger] terms[p]) && pair_seen(
                    k,
                    p,
                    i + 1,
                    i + 1,
                );
            assert(pair_seen(k, p, i, n));
        }
    }
}

proof fn lemma_longest(terms: Seq<Seq<Var>>, count: int)
    requires
        count <= terms.len(),
    ensures
        forall|i: int| 0 <= i < count ==> (#[trigger] terms[i]).len() <= longest(terms, count),
    decreases count,
{
    if count > 0 {
        lemma_longest(terms, count - 1);
    }
}

/// `term` is the merge of term `i` with a neighbor among the terms from
/// itself up to, but without, term `upto`.
spec fn merge_in_row(terms: Seq<Seq<Var>>, i: int, upto: int, term: Seq<Var>) -> bool {
    exists|j: int|
        i <= j < upto && neighbors(terms[i], #[trigger] terms[j]) && term == merged(
            terms[i],
            terms[j],
        )
}

/// What a row of merges holds.
proof fn lemma_merges_with(terms: Seq<Seq<Var>>, i: int, upto: int)
    requires
        0 <= i <= upto <= terms.len(),
    ensures
        forall|x: int|
            0 <= x < merges_with(terms, i, upto).len() ==> merge_in_row(
                terms,
                i,
                upto,
                #[trigger] merges_with(terms, i, upto)[x],
            ),
        merges_with(terms, i, upto).len() == 0 <==> forall|j: int|
            i <= j < upto ==> !neighbors(terms[i], #[trigger] terms[j]),
    decreases upto - i,
{
    if upto > i {
        lemma_merges_with(terms, i, upto - 1);
        let before = merges_with(terms, i, upto - 1);
        let now = merges_with(terms, i, upto);
        assert forall|x: int| 0 <= x < now.len() implies merge_in_row(
            terms,
            i,
            upto,
            #[trigger] now[x],
        ) by {
            if x < before.len() {
                assert(merge_in_row(terms, i, upto - 1, before[x]));
                let j = choose|j: int|
                    i <= j < upto - 1 && neighbors(terms[i], #[trigger] terms[j]) && before[x]
                        == merged(terms[i], terms[j]);
                assert(i <= j < upto && neighbors(terms[i], terms[j]) && now[x] == merged(
                    terms[i],
                    terms[j],
                ));
            } else {
                let j = upto - 1;
                assert(i <= j < upto && neighbors(terms[i], terms[j]) && now[x] == merged(
                    terms[i],
                    terms[j],
                ));
            }
        }
        if now.len() == 0 {
            assert forall|j: int| i <= j < upto
                implies !neighbors(terms[i], #[trigger] terms[j]) by {
                if j < upto - 1 {
                } else {
                }
            }
        } else {
            if before.len() == 0 {
                assert(neighbors(terms[i], terms[upto - 1]));
            } else {
                let j = choose|j: int| i <= j < upto - 1
                    && neighbors(terms[i], #[trigger] terms[j]);
                assert(i <= j < upto && neighbors(terms[i], terms[j]));
            }
        }
    }
}

/// Each term that a round puts out before trimming is a merge of two
/// neighbors of the list, or a term of the list that has no neighbor in it.
pub open spec fn born_of(terms: Seq<Seq<Var>>, term: Seq<Var>) -> bool {
    ||| exists|i: int, j: int|
        0 <= i < terms.len() && 0 <= j < terms.len() && neighbors(
            #[trigger] terms[i],
            #[trigger] terms[j],
        ) && term == merged(terms[i], terms[j])
    ||| exists|i: int| 0 <= i < terms.len() && !has_neighbor(terms, i)
        && term == #[trigger] terms[i]
}

proof fn lemma_rows(terms: Seq<Seq<Var>>, count: int)
    requires
        0 <= count <= terms.len(),
    ensures
        forall|x: int| 0 <= x < rows(terms, count).len()
            ==> born_of(terms, #[trigger] rows(terms, count)[x]),
    decreases count,
{
    if count > 0 {
        lemma_rows(terms, count - 1);
        let i = count - 1;
        let n = terms.len() as int;
        lemma_merges_with(terms, i, n);
        let before = rows(terms, count - 1);
        let merges = merges_with(terms, i, n);
        let now = rows(terms, count);
        assert forall|x: int| 0 <= x < now.len() implies born_of(terms, #[trigger] now[x]) by {
            if x < before.len() {
                assert(now[x] == before[x]);
            } else if x < before.len() + merges.len() {
                let y = x - before.len();
                assert(now[x] == merges[y]);
                assert(merge_in_row(terms, i, n, merges[y]));
                let j = choose|j: int|
                    i <= j < n && neighbors(terms[i], #[trigger] terms[j]) && merges[y] == merged(
                        terms[i],
                        terms[j],
                    );
                assert(neighbors(terms[i], terms[j]) && now[x] == merged(terms[i], terms[j]));
            } else {
                assert(now[x] == terms[i]);
                assert(!has_neighbor(terms, i));
            }
        }
    }
}

proof fn lemma_kept(terms: Seq<Seq<Var>>, count: int)
    requires
        0 <= count <= terms.len(),
    ensures
        forall|x: int|
            0 <= x < kept(terms, count).len() ==> exists|k: int|
                0 <= k < count && #[trigger] kept(terms, count)[x] == #[trigger] terms[k],
    decreases count,
{
    if count > 0 {
        lemma_kept(terms, count - 1);
        let before = kept(terms, count - 1);
        let now = kept(terms, count);
        assert forall|x: int| 0 <= x < now.len() implies exists|k: int|
            0 <= k < count && #[trigger] now[x] == #[trigger] terms[k] by {
            if x < before.len() {
                let k = choose|k: int| 0 <= k < count - 1
                    && #[trigger] before[x] == #[trigger] terms[k];
                assert(now[x] == terms[k]);
            } else {
                assert(now[x] == terms[count - 1]);
            }
        }
    }
}

/// Each term that a round makes is a merge of two neighbors of the list, or a
/// term of the list that has no neighbor in it.
pub proof fn lemma_round_terms(terms: Seq<Seq<Var>>)
    ensures
        forall|x: int|
            0 <= x < round_terms(terms).len() ==> born_of(terms, #[trigger] round_terms(terms)[x]),
{
    let raw = rows(terms, terms.len() as int);
    lemma_rows(terms, terms.len() as int);
    lemma_kept(raw, raw.len() as int);
    let out = round_terms(terms);
    assert forall|x: int| 0 <= x < out.len() implies born_of(terms, #[trigger] out[x]) by {
        let k = choose|k: int| 0 <= k < raw.len() && #[trigger] out[x] == #[trigger] raw[k];
        assert(born_of(terms, raw[k]));
    }
}

/// A round lowers the length from which no two terms are neighbors: the
/// neighbors that it makes are shorter than some two neighbors before it.
pub proof fn lemma_round_lowers(terms: Seq<Seq<Var>>, bound: int)
    requires
        quiet_from(terms, bound),
    ensures
        quiet_from(round_terms(terms), bound - 1),
{
    let out = round_terms(terms);
    lemma_round_terms(terms);
    assert forall|x: int, y: int|
        0 <= x < out.len() && 0 <= y < out.len() && neighbors(
            #[trigger] out[x],
            #[trigger] out[y],
        ) implies out[x].len() < bound - 1 by {
        assert(born_of(terms, out[x]));
        assert(born_of(terms, out[y]));
        if exists|i: int, j: int|
            0 <= i < terms.len() && 0 <= j < terms.len() && neighbors(
                #[trigger] terms[i],
                #[trigger] terms[j],
            ) && out[x] == merged(terms[i], terms[j]) {
            let (i, j) = choose|i: int, j: int|
                0 <= i < terms.len() && 0 <= j < terms.len() && neighbors(
                    #[trigger] terms[i],
                    #[trigger] terms[j],
                ) && out[x] == merged(terms[i], terms[j]);
            assert(terms[i].len() < bound);
        } else if exists|i: int, j: int|
            0 <= i < terms.len() && 0 <= j < terms.len() && neighbors(
                #[trigger] terms[i],
                #[trigger] terms[j],
            ) && out[y] == merged(terms[i], terms[j]) {
            let (i, j) = choose|i: int, j: int|
                0 <= i < terms.len() && 0 <= j < terms.len() && neighbors(
                    #[trigger] terms[i],
                    #[trigger] terms[j],
                ) && out[y] == merged(terms[i], terms[j]);
            assert(terms[i].len() < bound);
        } else {
            let i = choose|i: int|
                0 <= i < terms.len() && !has_neighbor(terms, i) && out[x] == #[trigger] terms[i];
            let j = choose|j: int|
                0 <= j < terms.len() && !has_neighbor(terms, j) && out[y] == #[trigger] terms[j];
            assert(neighbors(terms[i], terms[j]));
            assert(has_neighbor(terms, i));
        }
    }
}

/// A round has a merge exactly if two terms of the list are neighbors.
pub proof fn lemma_round_merges(terms: Seq<Seq<Var>>)
    ensures
        round_merges(terms) == 0 <==> quiet_from(terms, 0),
{
    lemma_merge_total(terms, terms.len() as int);
    if quiet_from(terms, 0) {
        assert forall|i: int, j: int| 0 <= i < terms.len() && i <= j < terms.len()
            implies !neighbors(
            #[trigger] terms[i],
            #[trigger] terms[j],
        ) by {
            if neighbors(terms[i], terms[j]) {
                assert(terms[i].len() < 0);
            }
        }
    } else {
        let (i, j) = choose|i: int, j: int|
            0 <= i < terms.len() && 0 <= j < terms.len() && neighbors(
                #[trigger] terms[i],
                #[trigger] terms[j],
            ) && !(terms[i].len() < 0);
        if i <= j {
            assert(neighbors(terms[i], terms[j]));
        } else {
            lemma_neighbors_symmetric(terms[i], terms[j]);
            assert(neighbors(terms[j], terms[i]));
        }
    }
}

proof fn lemma_merge_total(terms: Seq<Seq<Var>>, count: int)
    requires
        0 <= count <= terms.len(),
    ensures
        merge_total(terms, count) == 0 <==> forall|i: int, j: int|
            0 <= i < count && i <= j < terms.len() ==> !neighbors(
                #[trigger] terms[i],
                #[trigger] terms[j],
            ),
    decreases count,
{
    if count > 0 {
        lemma_merge_total(terms, count - 1);
        lemma_merges_with(terms, count - 1, terms.len() as int);
        if merge_total(terms, count) == 0 {
            assert forall|i: int, j: int|
                0 <= i < count && i <= j < terms.len() implies !neighbors(
                #[trigger] terms[i],
                #[trigger] terms[j],
            ) by {
                if i < count - 1 {
                } else {
                }
            }
        }
    }
}

} // verus!
