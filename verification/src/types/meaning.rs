//! Simplifying keeps the value of a formula.

use crate::types::constant::Constant;
use crate::types::folds::{
    all_are, first_at, lemma_conjunction, lemma_disjunction, lemma_odd_ones_add, lemma_parity,
    lemma_parity_settles, lemma_term_decided, odd_ones, settled, zero_at,
};
use crate::types::formula::{
    and_operands, and_part, conjunction, conjunction_of, disjunction, disjunction_of,
    each_simplified, each_tidy, each_value, exclusive_of, holds_constant, literal_value, negation,
    ones, or_operands, or_part, parity, plain_term, resolved_term, simplified, term_value, tidy,
    unvalued, value, without_repeats, xor_operands, xor_part, Formula, Outcome, Values,
};
use crate::types::term::{ascending, lemma_in_order_of_ascending};
use crate::types::var::Var;
use vstd::prelude::*;

verus! {

/// Whether each formula has the value of its outcome, where that is one.
pub open spec fn same_values(simple: Seq<Formula>, outcomes: Seq<Outcome>, values: Values) -> bool {
    &&& simple.len() == outcomes.len()
    &&& forall|i: int|
        0 <= i < simple.len() && (#[trigger] outcomes[i]) is Ok ==> value(simple[i], values)
            == outcomes[i]
}

proof fn lemma_each_value_add(a: Seq<Formula>, b: Seq<Formula>, values: Values)
    ensures
        each_value(a + b, values) == each_value(a, values) + each_value(b, values),
{
    assert(each_value(a + b, values) =~= each_value(a, values) + each_value(b, values));
}

/// The operands of a conjunction grow with the number of parts looked at.
proof fn lemma_and_operands_grow(parts: Seq<Formula>, count: int, more: int)
    requires
        0 <= count <= more <= parts.len(),
    ensures
        and_operands(parts, count).len() <= and_operands(parts, more).len(),
        forall|j: int|
            0 <= j < and_operands(parts, count).len() ==> #[trigger] and_operands(parts, more)[j]
                == and_operands(parts, count)[j],
    decreases more - count,
{
    if count < more {
        lemma_and_operands_grow(parts, count, more - 1);
    }
}

/// Parts that are all ONE add up to operands that are all ONE.
proof fn lemma_and_operands_all_one(parts: Seq<Formula>, values: Values, count: int)
    requires
        0 <= count <= parts.len(),
        forall|i: int| 0 <= i < count
            ==> value(#[trigger] parts[i], values) == settled(Constant::ONE),
    ensures
        all_are(
            each_value(and_operands(parts, count), values),
            0,
            and_operands(parts, count).len() as int,
            Constant::ONE,
        ),
    decreases count,
{
    if count > 0 {
        lemma_and_operands_all_one(parts, values, count - 1);
        let before = and_operands(parts, count - 1);
        let last = parts[count - 1];
        let added = and_part(last);
        lemma_each_value_add(before, added, values);
        assert(value(last, values) == settled(Constant::ONE));
        if let Formula::And(inner) = last {
            lemma_conjunction(each_value(inner, values), 0);
        }
        let now = each_value(and_operands(parts, count), values);
        assert forall|j: int| 0 <= j < now.len()
            implies #[trigger] now[j] == settled(Constant::ONE) by {
            if j >= before.len() {
                assert(now[j] == each_value(added, values)[j - before.len()]);
            } else {
                assert(now[j] == each_value(before, values)[j]);
            }
        }
    }
}

/// Parts that are ONE up to one that is ZERO, and that is no constant, add up
/// to operands that are ONE up to one that is ZERO.
proof fn lemma_and_operands_first_zero(parts: Seq<Formula>, values: Values, at: int)
    requires
        0 <= at < parts.len(),
        value(parts[at], values) == settled(Constant::ZERO),
        !(parts[at] is Constant),
        forall|i: int| 0 <= i < at ==> value(#[trigger] parts[i], values) == settled(Constant::ONE),
    ensures
        exists|to: int|
            first_at(
                each_value(and_operands(parts, parts.len() as int), values),
                0,
                to,
                Constant::ZERO,
            ),
{
    lemma_and_operands_all_one(parts, values, at);
    let before = and_operands(parts, at);
    let part = parts[at];
    let added = and_part(part);
    let upto = and_operands(parts, at + 1);
    assert(upto == before + added);
    lemma_each_value_add(before, added, values);
    let within = if let Formula::And(inner) = part {
        lemma_conjunction(each_value(inner, values), 0);
        choose|within: int| first_at(each_value(inner, values), 0, within, Constant::ZERO)
    } else {
        0
    };
    let to = before.len() + within;
    let some = each_value(upto, values);
    assert(first_at(some, 0, to, Constant::ZERO)) by {
        assert(some[to] == each_value(added, values)[within]);
        assert forall|j: int| 0 <= j < to implies #[trigger] some[j] == settled(Constant::ONE) by {
            if j >= before.len() {
                assert(some[j] == each_value(added, values)[j - before.len()]);
            } else {
                assert(some[j] == each_value(before, values)[j]);
            }
        }
    }
    lemma_and_operands_grow(parts, at + 1, parts.len() as int);
    let all = each_value(and_operands(parts, parts.len() as int), values);
    assert(first_at(all, 0, to, Constant::ZERO)) by {
        assert(all[to] == some[to]);
        assert forall|j: int| 0 <= j < to implies #[trigger] all[j] == settled(Constant::ONE) by {
            assert(all[j] == some[j]);
        }
    }
}

/// The conjunction of simplified operands has the value of the conjunction,
/// where that has one.
pub proof fn lemma_conjunction_of_keeps_value(
    simple: Seq<Formula>,
    outcomes: Seq<Outcome>,
    values: Values,
)
    requires
        same_values(simple, outcomes, values),
        conjunction(outcomes, 0) is Ok,
    ensures
        value(conjunction_of(simple), values) == conjunction(outcomes, 0),
{
    let n = simple.len() as int;
    let operands = and_operands(simple, n);
    let theirs = each_value(operands, values);
    lemma_conjunction(outcomes, 0);
    lemma_conjunction(theirs, 0);
    if conjunction(outcomes, 0) == settled(Constant::ONE) {
        assert forall|i: int| 0 <= i < n implies value(#[trigger] simple[i], values) == settled(
            Constant::ONE,
        ) by {
            assert(outcomes[i] == settled(Constant::ONE));
        }
        if holds_constant(simple, Constant::ZERO) {
            let i = choose|i: int|
                0 <= i < simple.len() && #[trigger] simple[i] == Formula::Constant(Constant::ZERO);
            assert(value(simple[i], values) == settled(Constant::ONE));
        }
        lemma_and_operands_all_one(simple, values, n);
        if operands.len() == 1 {
            assert(theirs[0] == settled(Constant::ONE));
        }
    } else {
        assert(conjunction(outcomes, 0) == settled(Constant::ZERO)) by {
            let decided = conjunction(outcomes, 0)->Ok_0;
            assert(decided == Constant::ZERO || decided == Constant::ONE);
            assert(conjunction(outcomes, 0) == settled(decided));
        }
        if !holds_constant(simple, Constant::ZERO) {
            let at = choose|at: int| first_at(outcomes, 0, at, Constant::ZERO);
            assert forall|i: int| 0 <= i < at implies value(#[trigger] simple[i], values)
                == settled(Constant::ONE) by {
                assert(outcomes[i] == settled(Constant::ONE));
            }
            assert(value(simple[at], values) == settled(Constant::ZERO));
            if simple[at] is Constant {
                assert(simple[at] == Formula::Constant(Constant::ZERO));
            }
            lemma_and_operands_first_zero(simple, values, at);
            let to = choose|to: int| first_at(theirs, 0, to, Constant::ZERO);
            if operands.len() == 1 {
                assert(to == 0);
                assert(theirs[0] == settled(Constant::ZERO));
            }
        }
    }
}

/// The operands of a disjunction grow with the number of parts looked at.
proof fn lemma_or_operands_grow(parts: Seq<Formula>, count: int, more: int)
    requires
        0 <= count <= more <= parts.len(),
    ensures
        or_operands(parts, count).len() <= or_operands(parts, more).len(),
        forall|j: int|
            0 <= j < or_operands(parts, count).len() ==> #[trigger] or_operands(parts, more)[j]
                == or_operands(parts, count)[j],
    decreases more - count,
{
    if count < more {
        lemma_or_operands_grow(parts, count, more - 1);
    }
}

/// Parts that are all ZERO add up to operands that are all ZERO.
proof fn lemma_or_operands_all_zero(parts: Seq<Formula>, values: Values, count: int)
    requires
        0 <= count <= parts.len(),
        forall|i: int| 0 <= i < count
            ==> value(#[trigger] parts[i], values) == settled(Constant::ZERO),
    ensures
        all_are(
            each_value(or_operands(parts, count), values),
            0,
            or_operands(parts, count).len() as int,
            Constant::ZERO,
        ),
    decreases count,
{
    if count > 0 {
        lemma_or_operands_all_zero(parts, values, count - 1);
        let before = or_operands(parts, count - 1);
        let last = parts[count - 1];
        let added = or_part(last);
        lemma_each_value_add(before, added, values);
        assert(value(last, values) == settled(Constant::ZERO));
        if let Formula::Or(inner) = last {
            lemma_disjunction(each_value(inner, values), 0);
        }
        let now = each_value(or_operands(parts, count), values);
        assert forall|j: int| 0 <= j < now.len()
            implies #[trigger] now[j] == settled(Constant::ZERO) by {
            if j >= before.len() {
                assert(now[j] == each_value(added, values)[j - before.len()]);
            } else {
                assert(now[j] == each_value(before, values)[j]);
            }
        }
    }
}

/// Parts that are ZERO up to one that is ONE, and that is no constant, add up
/// to operands that are ZERO up to one that is ONE.
proof fn lemma_or_operands_first_one(parts: Seq<Formula>, values: Values, at: int)
    requires
        0 <= at < parts.len(),
        value(parts[at], values) == settled(Constant::ONE),
        !(parts[at] is Constant),
        forall|i: int| 0 <= i < at
            ==> value(#[trigger] parts[i], values) == settled(Constant::ZERO),
    ensures
        exists|to: int|
            first_at(
                each_value(or_operands(parts, parts.len() as int), values),
                0,
                to,
                Constant::ONE,
            ),
{
    lemma_or_operands_all_zero(parts, values, at);
    let before = or_operands(parts, at);
    let part = parts[at];
    let added = or_part(part);
    let upto = or_operands(parts, at + 1);
    assert(upto == before + added);
    lemma_each_value_add(before, added, values);
    let within = if let Formula::Or(inner) = part {
        lemma_disjunction(each_value(inner, values), 0);
        choose|within: int| first_at(each_value(inner, values), 0, within, Constant::ONE)
    } else {
        0
    };
    let to = before.len() + within;
    let some = each_value(upto, values);
    assert(first_at(some, 0, to, Constant::ONE)) by {
        assert(some[to] == each_value(added, values)[within]);
        assert forall|j: int| 0 <= j < to implies #[trigger] some[j] == settled(Constant::ZERO) by {
            if j >= before.len() {
                assert(some[j] == each_value(added, values)[j - before.len()]);
            } else {
                assert(some[j] == each_value(before, values)[j]);
            }
        }
    }
    lemma_or_operands_grow(parts, at + 1, parts.len() as int);
    let all = each_value(or_operands(parts, parts.len() as int), values);
    assert(first_at(all, 0, to, Constant::ONE)) by {
        assert(all[to] == some[to]);
        assert forall|j: int| 0 <= j < to implies #[trigger] all[j] == settled(Constant::ZERO) by {
            assert(all[j] == some[j]);
        }
    }
}

/// The disjunction of simplified operands has the value of the disjunction,
/// where that has one.
pub proof fn lemma_disjunction_of_keeps_value(
    simple: Seq<Formula>,
    outcomes: Seq<Outcome>,
    values: Values,
)
    requires
        same_values(simple, outcomes, values),
        disjunction(outcomes, 0) is Ok,
    ensures
        value(disjunction_of(simple), values) == disjunction(outcomes, 0),
{
    let n = simple.len() as int;
    let operands = or_operands(simple, n);
    let theirs = each_value(operands, values);
    lemma_disjunction(outcomes, 0);
    lemma_disjunction(theirs, 0);
    if disjunction(outcomes, 0) == settled(Constant::ZERO) {
        assert forall|i: int| 0 <= i < n implies value(#[trigger] simple[i], values) == settled(
            Constant::ZERO,
        ) by {
            assert(outcomes[i] == settled(Constant::ZERO));
        }
        if holds_constant(simple, Constant::ONE) {
            let i = choose|i: int|
                0 <= i < simple.len() && #[trigger] simple[i] == Formula::Constant(Constant::ONE);
            assert(value(simple[i], values) == settled(Constant::ZERO));
        }
        lemma_or_operands_all_zero(simple, values, n);
        if operands.len() == 1 {
            assert(theirs[0] == settled(Constant::ZERO));
        }
    } else {
        assert(disjunction(outcomes, 0) == settled(Constant::ONE)) by {
            let decided = disjunction(outcomes, 0)->Ok_0;
            assert(decided == Constant::ONE || decided == Constant::ZERO);
            assert(disjunction(outcomes, 0) == settled(decided));
        }
        if !holds_constant(simple, Constant::ONE) {
            let at = choose|at: int| first_at(outcomes, 0, at, Constant::ONE);
            assert forall|i: int| 0 <= i < at implies value(#[trigger] simple[i], values)
                == settled(Constant::ZERO) by {
                assert(outcomes[i] == settled(Constant::ZERO));
            }
            assert(value(simple[at], values) == settled(Constant::ONE));
            if simple[at] is Constant {
                assert(simple[at] == Formula::Constant(Constant::ONE));
            }
            lemma_or_operands_first_one(simple, values, at);
            let to = choose|to: int| first_at(theirs, 0, to, Constant::ONE);
            if operands.len() == 1 {
                assert(to == 0);
                assert(theirs[0] == settled(Constant::ONE));
            }
        }
    }
}

/// The operands of the first `count` parts all have a value, and an odd
/// number of these parts is ONE exactly if an odd number of the operands is
/// ONE, or an odd number of the constants put aside, but not both.
proof fn lemma_xor_operands(
    parts: Seq<Formula>,
    outcomes: Seq<Outcome>,
    values: Values,
    count: int,
)
    requires
        0 <= count <= parts.len(),
        same_values(parts, outcomes, values),
        forall|i: int| 0 <= i < outcomes.len() ==> (#[trigger] outcomes[i]) is Ok,
    ensures
        forall|j: int|
            0 <= j < xor_operands(parts, count).len() ==> (#[trigger] each_value(
                xor_operands(parts, count),
                values,
            )[j]) is Ok,
        odd_ones(outcomes, count) == (odd_ones(
            each_value(xor_operands(parts, count), values),
            xor_operands(parts, count).len() as int,
        ) != (ones(parts, count) % 2 == 1)),
    decreases count,
{
    if count > 0 {
        lemma_xor_operands(parts, outcomes, values, count - 1);
        let before = xor_operands(parts, count - 1);
        let last = parts[count - 1];
        let added = xor_part(last);
        let theirs = each_value(before, values);
        let more = each_value(added, values);
        lemma_each_value_add(before, added, values);
        lemma_odd_ones_add(theirs, more, more.len() as int);
        assert(outcomes[count - 1] is Ok);
        assert(value(last, values) == outcomes[count - 1]);
        match last {
            Formula::Constant(_) => {
                assert(theirs + more =~= theirs);
            },
            Formula::Xor(inner) => {
                lemma_parity_settles(each_value(inner, values), 0);
                lemma_parity(each_value(inner, values));
            },
            _ => {
                assert(more[0] == value(last, values));
                assert(odd_ones(more, 1) == !odd_ones(more, 0) || odd_ones(more, 1) == odd_ones(
                    more,
                    0,
                ));
            },
        }
        let now = each_value(xor_operands(parts, count), values);
        assert forall|j: int| 0 <= j < now.len() implies (#[trigger] now[j]) is Ok by {
            if j >= before.len() {
                assert(now[j] == more[j - before.len()]);
            } else {
                assert(now[j] == theirs[j]);
            }
        }
    }
}

/// The exclusive disjunction of simplified operands has the value of the
/// parity, where that has one.
pub proof fn lemma_exclusive_of_keeps_value(
    simple: Seq<Formula>,
    outcomes: Seq<Outcome>,
    values: Values,
)
    requires
        same_values(simple, outcomes, values),
        parity(outcomes, 0) is Ok,
    ensures
        value(exclusive_of(simple), values) == parity(outcomes, 0),
{
    let n = simple.len() as int;
    let operands = xor_operands(simple, n);
    let theirs = each_value(operands, values);
    lemma_parity_settles(outcomes, 0);
    lemma_parity(outcomes);
    lemma_xor_operands(simple, outcomes, values, n);
    lemma_parity(theirs);
    let odd = ones(simple, n) % 2 == 1;
    let left = if operands.len() == 1 {
        operands[0]
    } else {
        Formula::Xor(operands)
    };
    if operands.len() == 0 {
        assert(!odd_ones(theirs, 0));
    } else {
        assert(value(left, values) == parity(theirs, 0)) by {
            if operands.len() == 1 {
                assert(theirs[0] is Ok);
                let first = theirs[0]->Ok_0;
                assert(first == Constant::ZERO || first == Constant::ONE);
                assert(parity(theirs, 1) == settled(Constant::ZERO));
                assert(parity(theirs, 0) == theirs[0]);
            }
        }
        let kept = odd_ones(theirs, operands.len() as int);
        assert(value(left, values) == settled(Constant::of_truth(kept)));
        assert(odd_ones(outcomes, n) == (kept != odd));
        if odd {
            assert(value(Formula::Not(Box::new(left)), values) == settled(
                Constant::of_truth(!kept),
            ));
        }
    }
}

/// The negation of a simplified formula has the negated value.
pub proof fn lemma_negation_keeps_value(inner: Formula, values: Values)
    requires
        value(inner, values) is Ok,
    ensures
        value(negation(inner), values) == settled((value(inner, values)->Ok_0).negated()),
{
}

/// What is left of the first `count` literals is made of these literals.
proof fn lemma_without_repeats_from(vars: Seq<Var>, count: int)
    requires
        0 <= count <= vars.len(),
    ensures
        forall|j: int|
            0 <= j < without_repeats(vars, count).len() ==> vars.take(count).contains(
                #[trigger] without_repeats(vars, count)[j],
            ),
    decreases count,
{
    if count > 0 {
        lemma_without_repeats_from(vars, count - 1);
        let before = without_repeats(vars, count - 1);
        let now = without_repeats(vars, count);
        assert forall|j: int| 0 <= j < now.len()
            implies vars.take(count).contains(#[trigger] now[j]) by {
            if j < before.len() {
                let head = vars.take(count - 1);
                assert(head.contains(before[j]));
                let i = choose|i: int| 0 <= i < head.len() && head[i] == before[j];
                assert(vars.take(count)[i] == now[j]);
            } else {
                assert(vars.take(count)[count - 1] == now[j]);
            }
        }
    }
}

proof fn lemma_without_repeats_grow(vars: Seq<Var>, count: int, more: int)
    requires
        0 <= count <= more <= vars.len(),
    ensures
        without_repeats(vars, count).len() <= without_repeats(vars, more).len(),
        forall|j: int|
            0 <= j < without_repeats(vars, count).len()
                ==> #[trigger] without_repeats(vars, more)[j]
                == without_repeats(vars, count)[j],
    decreases more - count,
{
    if count < more {
        lemma_without_repeats_grow(vars, count, more - 1);
    }
}

proof fn lemma_without_repeats_ascending(vars: Seq<Var>, count: int)
    requires
        0 <= count <= vars.len(),
        ascending(vars),
    ensures
        ascending(without_repeats(vars, count)),
    decreases count,
{
    if count > 0 {
        lemma_without_repeats_ascending(vars, count - 1);
        lemma_without_repeats_from(vars, count - 1);
        let before = without_repeats(vars, count - 1);
        let now = without_repeats(vars, count);
        assert forall|i: int, j: int| 0 <= i < j < now.len() implies (#[trigger] now[i]).at_most(
            #[trigger] now[j],
        ) by {
            if j >= before.len() {
                let head = vars.take(count - 1);
                assert(head.contains(before[i]));
                let from = choose|from: int| 0 <= from < head.len() && head[from] == before[i];
                assert(vars[from].at_most(vars[count - 1]));
            } else {
                assert(before[i].at_most(before[j]));
            }
        }
    }
}

/// Between a literal and its dual, literals in ascending order hold a
/// literal that stands next to its dual.
proof fn lemma_dual_between(vars: Seq<Var>, i: int, j: int) -> (at: int)
    requires
        ascending(vars),
        0 <= i < j < vars.len(),
        vars[i].dual(vars[j]),
    ensures
        i <= at < j,
        vars[at].dual(vars[at + 1]),
    decreases j - i,
{
    assert(vars[i].at_most(vars[j]));
    if j == i + 1 {
        i
    } else {
        assert(vars[i].at_most(vars[i + 1]) && vars[i + 1].at_most(vars[j]));
        if vars[i + 1].dual(vars[j]) {
            lemma_dual_between(vars, i + 1, j)
        } else {
            i
        }
    }
}

/// In a term in ascending order a literal and its dual occur together only
/// if somewhere a literal stands next to its dual, and no literal is left
/// twice where each literal that repeats the one before it is dropped.
pub proof fn lemma_plain_term_in_order(vars: Seq<Var>)
    requires
        ascending(vars),
    ensures
        (exists|i: int, j: int|
            0 <= i < vars.len() && 0 <= j < vars.len() && (#[trigger] vars[i]).dual(
                #[trigger] vars[j],
            )) <==> (exists|i: int| 0 <= i < vars.len() - 1
                && (#[trigger] vars[i]).dual(vars[i + 1])),
        without_repeats(vars, vars.len() as int).no_duplicates(),
        forall|var: Var| vars.contains(var)
            <==> without_repeats(vars, vars.len() as int).contains(var),
{
    let n = vars.len() as int;
    if exists|i: int, j: int|
        0 <= i < vars.len() && 0 <= j < vars.len()
            && (#[trigger] vars[i]).dual(#[trigger] vars[j]) {
        let (i, j) = choose|i: int, j: int|
            0 <= i < vars.len() && 0 <= j < vars.len() && (#[trigger] vars[i]).dual(
                #[trigger] vars[j],
            );
        let at = if i < j {
            lemma_dual_between(vars, i, j)
        } else {
            lemma_dual_between(vars, j, i)
        };
        assert(0 <= at < vars.len() - 1 && vars[at].dual(vars[at + 1]));
    }
    if exists|i: int| 0 <= i < vars.len() - 1 && (#[trigger] vars[i]).dual(vars[i + 1]) {
        let i = choose|i: int| 0 <= i < vars.len() - 1 && (#[trigger] vars[i]).dual(vars[i + 1]);
        assert(vars[i].dual(vars[i + 1]));
    }
    lemma_without_repeats_distinct(vars, n);
    assert(vars.take(n) =~= vars);
}

/// What is left of the first `count` literals in ascending order: each of
/// these literals, once.
proof fn lemma_without_repeats_distinct(vars: Seq<Var>, count: int)
    requires
        ascending(vars),
        0 <= count <= vars.len(),
    ensures
        without_repeats(vars, count).no_duplicates(),
        forall|var: Var|
            vars.take(count).contains(var) <==> without_repeats(vars, count).contains(var),
        count > 0 ==> without_repeats(vars, count).len() > 0 && without_repeats(vars, count).last()
            == vars[count - 1],
    decreases count,
{
    let now = without_repeats(vars, count);
    if count > 0 {
        lemma_without_repeats_distinct(vars, count - 1);
        lemma_without_repeats_from(vars, count - 1);
        let before = without_repeats(vars, count - 1);
        let head = vars.take(count - 1);
        let last = vars[count - 1];
        assert(vars.take(count) =~= head.push(last));
        if count >= 2 && vars[count - 2] == last {
            assert(head[count - 2] == last);
            assert forall|var: Var| vars.take(count).contains(var) implies now.contains(var) by {
                let k = choose|k: int| 0 <= k < count && vars.take(count)[k] == var;
                if k < count - 1 {
                    assert(head[k] == var);
                } else {
                    assert(head.contains(last));
                }
            }
            assert forall|var: Var| now.contains(var) implies vars.take(count).contains(var) by {
                assert(head.contains(var));
                let k = choose|k: int| 0 <= k < head.len() && head[k] == var;
                assert(vars.take(count)[k] == var);
            }
        } else {
            assert(now == before.push(last));
            assert forall|x: int| 0 <= x < before.len() implies #[trigger] before[x] != last by {
                assert(head.contains(before[x]));
                let k = choose|k: int| 0 <= k < head.len() && head[k] == before[x];
                if count >= 2 && before[x] == last {
                    assert(vars[k].at_most(vars[count - 2]) || k == count - 2);
                    assert(vars[count - 2].at_most(last));
                    lemma_between(vars[k], vars[count - 2], last);
                }
            }
            assert forall|x: int, y: int| 0 <= x < y < now.len() implies now[x] != now[y] by {
                if y < before.len() {
                    assert(before[x] != before[y]);
                }
            }
            assert forall|var: Var| vars.take(count).contains(var) implies now.contains(var) by {
                let k = choose|k: int| 0 <= k < count && vars.take(count)[k] == var;
                if k < count - 1 {
                    assert(head[k] == var);
                    assert(before.contains(var));
                    let x = choose|x: int| 0 <= x < before.len() && before[x] == var;
                    assert(now[x] == var);
                } else {
                    assert(now[now.len() - 1] == var);
                }
            }
            assert forall|var: Var| now.contains(var) implies vars.take(count).contains(var) by {
                let x = choose|x: int| 0 <= x < now.len() && now[x] == var;
                if x < before.len() {
                    assert(before.contains(before[x]));
                    assert(head.contains(var));
                    let k = choose|k: int| 0 <= k < head.len() && head[k] == var;
                    assert(vars.take(count)[k] == var);
                } else {
                    assert(vars.take(count)[count - 1] == var);
                }
            }
        }
    } else {
        assert(vars.take(count) =~= Seq::<Var>::empty());
    }
}

/// A literal between two equal literals in the order of literals is that
/// same literal.
proof fn lemma_between(low: Var, middle: Var, high: Var)
    requires
        low.at_most(middle),
        middle.at_most(high),
        low == high,
    ensures
        middle == low,
{
    assert(low.name.subscript == middle.name.subscript);
}

/// A term in ascending order, simplified by the laws that hold of every
/// variable, has the value of the term, where that has one.
pub proof fn lemma_plain_term_keeps_value(vars: Seq<Var>, values: Values)
    requires
        ascending(vars),
        term_value(vars, values, 0) is Ok,
    ensures
        value(plain_term(vars), values) == term_value(vars, values, 0),
{
    let n = vars.len() as int;
    let rest = without_repeats(vars, n);
    lemma_term_decided(vars, values);
    lemma_term_decided(rest, values);
    lemma_without_repeats_ascending(vars, n);
    lemma_in_order_of_ascending(rest);
    lemma_without_repeats_from(vars, n);
    let decided = term_value(vars, values, 0)->Ok_0;
    assert(decided == Constant::ZERO || decided == Constant::ONE);
    assert(term_value(vars, values, 0) == settled(decided));
    if decided == Constant::ONE {
        if exists|i: int| 0 <= i < vars.len() - 1 && (#[trigger] vars[i]).dual(vars[i + 1]) {
            let i = choose|i: int| 0 <= i < vars.len() - 1
                && (#[trigger] vars[i]).dual(vars[i + 1]);
            assert(literal_value(vars[i], values) == Some(Constant::ONE));
            assert(literal_value(vars[i + 1], values) == Some(Constant::ONE));
        }
        assert forall|j: int| 0 <= j < rest.len() implies literal_value(
            #[trigger] rest[j],
            values,
        ) == Some(Constant::ONE) by {
            let head = vars.take(n);
            assert(head.contains(rest[j]));
            let i = choose|i: int| 0 <= i < head.len() && head[i] == rest[j];
            assert(literal_value(vars[i], values) == Some(Constant::ONE));
        }
    } else {
        let at = choose|at: int| zero_at(vars, values, at);
        if at > 0 {
            assert(literal_value(vars[at - 1], values) == Some(Constant::ONE));
        }
        let before = without_repeats(vars, at);
        let upto = without_repeats(vars, at + 1);
        assert(upto == before.push(vars[at]));
        lemma_without_repeats_from(vars, at);
        lemma_without_repeats_grow(vars, at + 1, n);
        let to = before.len() as int;
        assert(rest[to] == upto[to]);
        assert forall|j: int| 0 <= j < to implies literal_value(#[trigger] rest[j], values) == Some(
            Constant::ONE,
        ) by {
            assert(rest[j] == upto[j]);
            assert(upto[j] == before[j]);
            let head = vars.take(at);
            assert(head.contains(before[j]));
            let i = choose|i: int| 0 <= i < head.len() && head[i] == before[j];
            assert(literal_value(vars[i], values) == Some(Constant::ONE));
        }
        assert(zero_at(rest, values, to));
    }
}

/// What a filter leaves of literals in ascending order is in ascending order.
proof fn lemma_filter_ascending(vars: Seq<Var>, pred: spec_fn(Var) -> bool)
    requires
        ascending(vars),
    ensures
        ascending(vars.filter(pred)),
    decreases vars.len(),
{
    vars.lemma_filter_len(pred);
    if vars.len() > 0 {
        let front = vars.drop_last();
        let last = vars.last();
        assert(ascending(front)) by {
            assert forall|i: int, j: int| 0 <= i < j < front.len()
                implies (#[trigger] front[i]).at_most(
                #[trigger] front[j],
            ) by {
                assert(vars[i].at_most(vars[j]));
            }
        }
        lemma_filter_ascending(front, pred);
        front.lemma_filter_push(last, pred);
        assert(front.push(last) =~= vars);
        let kept = front.filter(pred);
        let now = vars.filter(pred);
        assert forall|i: int, j: int| 0 <= i < j < now.len() implies (#[trigger] now[i]).at_most(
            #[trigger] now[j],
        ) by {
            if j >= kept.len() {
                assert(kept.contains(kept[i]));
                front.lemma_filter_contains_rev(pred, kept[i]);
                let from = choose|from: int| 0 <= from < front.len() && front[from] == kept[i];
                assert(vars[from].at_most(vars[vars.len() - 1]));
            } else {
                assert(kept[i].at_most(kept[j]));
            }
        }
    }
}

/// A term in ascending order, simplified under the values of some
/// variables, has the value of the term under these and more values, where
/// that has one.
pub proof fn lemma_resolved_term_keeps_value(vars: Seq<Var>, known: Values, values: Values)
    requires
        ascending(vars),
        known.submap_of(values),
        term_value(vars, values, 0) is Ok,
    ensures
        value(resolved_term(vars, known), values) == term_value(vars, values, 0),
{
    let pred = unvalued(known);
    let unset = vars.filter(pred);
    lemma_term_decided(vars, values);
    lemma_term_decided(unset, values);
    lemma_filter_ascending(vars, pred);
    lemma_in_order_of_ascending(unset);
    let decided = term_value(vars, values, 0)->Ok_0;
    assert(decided == Constant::ZERO || decided == Constant::ONE);
    assert(term_value(vars, values, 0) == settled(decided));
    assert forall|i: int| 0 <= i < vars.len()
        && literal_value(#[trigger] vars[i], known) is Some implies literal_value(
        vars[i],
        values,
    ) == literal_value(vars[i], known) by {
        assert(known.dom().contains(vars[i].name));
    }
    if exists|i: int|
        0 <= i < vars.len() && literal_value(#[trigger] vars[i], known) == Some(Constant::ZERO) {
        let i = choose|i: int|
            0 <= i < vars.len() && literal_value(#[trigger] vars[i], known) == Some(Constant::ZERO);
        assert(literal_value(vars[i], values) == Some(Constant::ZERO));
    } else if decided == Constant::ONE {
        assert forall|j: int| 0 <= j < unset.len() implies literal_value(
            #[trigger] unset[j],
            values,
        ) == Some(Constant::ONE) by {
            assert(unset.contains(unset[j]));
            vars.lemma_filter_contains_rev(pred, unset[j]);
            let i = choose|i: int| 0 <= i < vars.len() && vars[i] == unset[j];
            assert(literal_value(vars[i], values) == Some(Constant::ONE));
        }
    } else {
        let at = choose|at: int| zero_at(vars, values, at);
        assert(pred(vars[at])) by {
            if literal_value(vars[at], known) is Some {
                assert(literal_value(vars[at], values) == literal_value(vars[at], known));
            }
        }
        let front = vars.take(at);
        let back = vars.skip(at + 1);
        assert(vars =~= front.push(vars[at]) + back);
        Seq::filter_distributes_over_add(front.push(vars[at]), back, pred);
        front.lemma_filter_push(vars[at], pred);
        let kept = front.filter(pred);
        let to = kept.len() as int;
        assert(unset == kept.push(vars[at]) + back.filter(pred));
        assert(unset[to] == vars[at]);
        assert forall|j: int| 0 <= j < to implies literal_value(#[trigger] unset[j], values) == Some(
            Constant::ONE,
        ) by {
            assert(unset[j] == kept[j]);
            assert(kept.contains(kept[j]));
            front.lemma_filter_contains_rev(pred, kept[j]);
            let i = choose|i: int| 0 <= i < front.len() && front[i] == kept[j];
            assert(literal_value(vars[i], values) == Some(Constant::ONE));
        }
        assert(zero_at(unset, values, to));
    }
}

/// Simplifying keeps the value. Where a formula has a value under the values
/// of its variables, what `simplify` makes of it has the same value, and so
/// has what `simplify_with` makes of it in a scope that holds some of these
/// values.
pub proof fn lemma_simplified_keeps_value(formula: Formula, known: Option<Values>, values: Values)
    requires
        tidy(formula),
        known matches Some(part) ==> part.submap_of(values),
        value(formula, values) is Ok,
    ensures
        value(simplified(formula, known), values) == value(formula, values),
    decreases formula,
{
    match formula {
        Formula::Constant(_) => {},
        Formula::Var(var) => {
            if let Some(part) = known {
                if literal_value(var, part) is Some {
                    assert(part.dom().contains(var.name));
                }
            }
        },
        Formula::Term(vars) => {
            match known {
                None => lemma_plain_term_keeps_value(vars, values),
                Some(part) => lemma_resolved_term_keeps_value(vars, part, values),
            }
        },
        Formula::Not(inner) => {
            lemma_simplified_keeps_value(*inner, known, values);
            lemma_negation_keeps_value(simplified(*inner, known), values);
        },
        Formula::And(parts) => {
            lemma_each_simplified_keeps_value(parts, known, values);
            lemma_conjunction_of_keeps_value(
                each_simplified(parts, known),
                each_value(parts, values),
                values,
            );
        },
        Formula::Or(parts) => {
            lemma_each_simplified_keeps_value(parts, known, values);
            lemma_disjunction_of_keeps_value(
                each_simplified(parts, known),
                each_value(parts, values),
                values,
            );
        },
        Formula::Xor(parts) => {
            lemma_each_simplified_keeps_value(parts, known, values);
            lemma_exclusive_of_keeps_value(
                each_simplified(parts, known),
                each_value(parts, values),
                values,
            );
        },
    }
}

proof fn lemma_each_simplified_keeps_value(
    parts: Seq<Formula>,
    known: Option<Values>,
    values: Values,
)
    requires
        each_tidy(parts),
        known matches Some(part) ==> part.submap_of(values),
    ensures
        same_values(each_simplified(parts, known), each_value(parts, values), values),
    decreases parts,
{
    let simple = each_simplified(parts, known);
    let outcomes = each_value(parts, values);
    assert forall|i: int| 0 <= i < simple.len() && (#[trigger] outcomes[i]) is Ok implies value(
        simple[i],
        values,
    ) == outcomes[i] by {
        assert(tidy(parts[i]));
        lemma_simplified_keeps_value(parts[i], known, values);
    }
}

} // verus!
