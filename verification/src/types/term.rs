//! Terms: conjunctions of literals in ascending order.

use crate::text::push_char;
use crate::types::constant::Constant;
use crate::types::expression::Expression;
use crate::types::formula::{
    literal_value, simplified, term_value, term_variables, unvalued, value, without_repeats,
    Formula, Outcome, Values,
};
use crate::types::scope::VarScope;
use crate::types::traits::{Eval, Simplify, VarVisibility};
use crate::types::varset::VarSet;
use crate::types::var::{name_text, Var, VarName};
use vstd::prelude::*;
use vstd::relations::{sorted_by, total_ordering};
use vstd::seq_lib::lemma_sorted_unique;

verus! {

/// The order of literals as a relation.
pub open spec fn literal_order() -> spec_fn(Var, Var) -> bool {
    |a: Var, b: Var| a.at_most(b)
}

/// Whether a sequence of literals ascends in the order of literals.
pub open spec fn ascending(vars: Seq<Var>) -> bool {
    forall|i: int, j: int| 0 <= i < j < vars.len()
        ==> (#[trigger] vars[i]).at_most(#[trigger] vars[j])
}

/// The literals of a sequence in ascending order.
pub open spec fn in_order(vars: Seq<Var>) -> Seq<Var> {
    vars.sort_by(literal_order())
}

/// The order of literals is a total order.
pub proof fn lemma_literal_order_total()
    ensures
        total_ordering(literal_order()),
{
    let r = literal_order();
    assert forall|x: Var, y: Var| #[trigger] r(x, y) && #[trigger] r(y, x) implies x == y by {
        assert(x.name.subscript == y.name.subscript);
    }
}

/// What `in_order` gives: an ascending sequence with the same literals, each
/// as often as before. No other sequence has both properties.
pub proof fn lemma_in_order(vars: Seq<Var>)
    ensures
        ascending(in_order(vars)),
        in_order(vars).to_multiset() == vars.to_multiset(),
        in_order(vars).len() == vars.len(),
        forall|other: Seq<Var>|
            ascending(other) && other.to_multiset() == vars.to_multiset() ==> other == in_order(
                vars,
            ),
{
    lemma_literal_order_total();
    vars.lemma_sort_by_ensures(literal_order());
    let sorted = in_order(vars);
    assert(ascending(sorted)) by {
        assert forall|i: int, j: int| 0 <= i < j < sorted.len()
            implies (#[trigger] sorted[i]).at_most(
            #[trigger] sorted[j],
        ) by {
            assert(literal_order()(sorted[i], sorted[j]));
        }
    }
    vstd::seq_lib::to_multiset_len(sorted);
    vstd::seq_lib::to_multiset_len(vars);
    assert forall|other: Seq<Var>|
        ascending(other) && other.to_multiset() == vars.to_multiset() implies other == in_order(
        vars,
    ) by {
        assert(sorted_by(other, literal_order())) by {
            assert forall|i: int, j: int| 0 <= i < j < other.len()
                implies #[trigger] literal_order()(
                other[i],
                other[j],
            ) by {
                assert(other[i].at_most(other[j]));
            }
        }
        lemma_sorted_unique(other, sorted, literal_order());
    }
}

/// An ascending sequence is its own ordering.
pub proof fn lemma_in_order_of_ascending(vars: Seq<Var>)
    requires
        ascending(vars),
    ensures
        in_order(vars) == vars,
{
    lemma_in_order(vars);
}

/// Bit `position` of `bits`; bit 0 is the least significant one.
pub open spec fn bit_at(bits: u64, position: u64) -> bool {
    (bits >> position) & 1 == 1
}

/// The minterm of `bits` over `len` variables: one literal for each variable,
/// named `x` with the subscripts 1 to `len`, the first for the most
/// significant of the `len` bits; a literal is negated where its bit is 0.
pub open spec fn minterm_literals(len: int, bits: u64) -> Seq<Var> {
    Seq::new(
        (if len > 0 {
            len
        } else {
            0
        }) as nat,
        |i: int|
            Var {
                name: VarName { name: 'x', subscript: Some((i + 1) as u8) },
                negated: !bit_at(bits, (len - 1 - i) as u64),
            },
    )
}

/// Two terms are aligned when they are equally long and name the same
/// variable at every position.
pub open spec fn aligned(a: Seq<Var>, b: Seq<Var>) -> bool {
    &&& a.len() == b.len()
    &&& forall|k: int| 0 <= k < a.len() ==> (#[trigger] a[k]).name == b[k].name
}

/// The literals at position `at` are dual, and no others are.
pub open spec fn differ_only_at(a: Seq<Var>, b: Seq<Var>, at: int) -> bool {
    &&& 0 <= at < a.len()
    &&& a[at].dual(b[at])
    &&& forall|k: int| 0 <= k < a.len() && k != at ==> !(#[trigger] a[k]).dual(b[k])
}

/// Two terms are neighbors when they are aligned and differ in the sign of
/// exactly one position.
pub open spec fn neighbors(a: Seq<Var>, b: Seq<Var>) -> bool {
    aligned(a, b) && exists|at: int| differ_only_at(a, b, at)
}

/// The merge of two neighbors: the first without the position at which the
/// two differ.
pub open spec fn merged(a: Seq<Var>, b: Seq<Var>) -> Seq<Var> {
    a.remove(choose|at: int| differ_only_at(a, b, at))
}

/// Every literal of `part` occurs in `whole`.
pub open spec fn covers(part: Seq<Var>, whole: Seq<Var>) -> bool {
    forall|k: int| 0 <= k < part.len() ==> whole.contains(#[trigger] part[k])
}

/// Which of two terms is redundant beside the other: the longer one, if it
/// holds every literal of the shorter one; of two equally long terms the
/// first counts as the shorter. 1 names the first term, 2 the second.
pub open spec fn redundant_one(a: Seq<Var>, b: Seq<Var>) -> Option<i8> {
    if a.len() <= b.len() {
        if covers(a, b) {
            Some(2i8)
        } else {
            None
        }
    } else {
        if covers(b, a) {
            Some(1i8)
        } else {
            None
        }
    }
}

/// The display forms of the first `count` literals, one after the other.
pub open spec fn literals_text(vars: Seq<Var>, count: int) -> Seq<char>
    decreases count,
{
    if count <= 0 {
        Seq::<char>::empty()
    } else {
        literals_text(vars, count - 1) + name_text(vars[count - 1].name, vars[count - 1].negated)
    }
}

/// The display form of a term.
pub open spec fn term_text(vars: Seq<Var>) -> Seq<char> {
    seq!['('] + literals_text(vars, vars.len() as int) + seq![')']
}

/// A conjunction of literals, kept in ascending order.
#[derive(Debug)]
pub struct Term {
    vars: Vec<Var>,
}

/// Sorts literals by insertion.
fn sort_vars(vars: Vec<Var>) -> (out: Vec<Var>)
    ensures
        out@ == in_order(vars@),
{
    let mut out: Vec<Var> = Vec::new();
    let mut i: usize = 0;
    assert(vars@.take(0) =~= out@);
    while i < vars.len()
        invariant
            i <= vars.len(),
            ascending(out@),
            out@.to_multiset() == vars@.take(i as int).to_multiset(),
        decreases vars.len() - i,
    {
        let x = vars[i];
        let mut p: usize = out.len();
        while p > 0 && !out[p - 1].is_at_most(&x)
            invariant
                p <= out.len(),
                forall|k: int| p <= k < out.len() ==> x.at_most(#[trigger] out[k]),
            decreases p,
        {
            p -= 1;
        }
        proof {
            let old_out = out@;
            let new_out = old_out.insert(p as int, x);
            assert forall|a: int, b: int| 0 <= a < b < new_out.len()
                implies (#[trigger] new_out[a]).at_most(
                #[trigger] new_out[b],
            ) by {
                if b < p {
                    assert(new_out[a] == old_out[a] && new_out[b] == old_out[b]);
                } else if b == p {
                    assert(new_out[a] == old_out[a]);
                    assert(old_out[a].at_most(old_out[p - 1]) || a == p - 1);
                } else if a < p {
                    assert(new_out[a] == old_out[a] && new_out[b] == old_out[b - 1]);
                } else if a == p {
                    assert(new_out[b] == old_out[b - 1]);
                } else {
                    assert(new_out[a] == old_out[a - 1] && new_out[b] == old_out[b - 1]);
                }
            }
            vstd::seq_lib::to_multiset_insert(old_out, p as int, x);
            assert(vars@.take(i + 1) == vars@.take(i as int).push(x));
            vstd::seq_lib::to_multiset_build(vars@.take(i as int), x);
        }
        out.insert(p, x);
        i += 1;
    }
    proof {
        assert(vars@.take(i as int) == vars@);
        lemma_in_order(vars@);
    }
    out
}

impl Term {
    /// The literals of the term, in order.
    pub closed spec fn view(&self) -> Seq<Var> {
        self.vars@
    }

    /// What holds of every term: its literals ascend in the order of literals.
    #[verifier::type_invariant]
    pub open spec fn well_formed(self) -> bool {
        ascending(self@)
    }

    /// The term of the given literals, put in order. A literal that is given
    /// twice is kept twice.
    pub fn new_from_vars(vars: Vec<Var>) -> (out: Self)
        ensures
            out@ == in_order(vars@),
            out.well_formed(),
    {
        let sorted = sort_vars(vars);
        proof {
            lemma_in_order(vars@);
        }
        Term { vars: sorted }
    }

    /// The minterm of `minterm` over `len` variables. Bits of `minterm` from
    /// bit `len` on are not looked at.
    pub fn new_from_minterm(len: i32, minterm: u64) -> (out: Self)
        requires
            len <= 64,
        ensures
            out@ == minterm_literals(len as int, minterm),
            out.well_formed(),
    {
        let mut vars: Vec<Var> = Vec::new();
        let mut i: i32 = 0;
        while i < len
            invariant
                0 <= i,
                i <= len || i == 0,
                len <= 64,
                vars@.len() == i,
                forall|k: int| 0 <= k < i
                    ==> #[trigger] vars@[k] == minterm_literals(len as int, minterm)[k],
            decreases len - i,
        {
            let shift = (len - 1 - i) as u64;
            let bit = (minterm >> shift) & 1;
            let negated = bit == 0;
            assert(bit == 0 || bit == 1) by (bit_vector)
                requires
                    bit == (minterm >> shift) & 1,
            ;
            vars.push(Var::new('x', Some((i + 1) as u8), negated));
            i += 1;
        }
        proof {
            assert(vars@ =~= minterm_literals(len as int, minterm));
        }
        Term { vars }
    }

    /// The literals of the term, in order.
    pub fn vars(&self) -> (out: &Vec<Var>)
        ensures
            out@ == self@,
            ascending(out@),
    {
        proof {
            use_type_invariant(self);
        }
        &self.vars
    }

    /// Whether the two terms are neighbors.
    pub fn is_neighbor(&self, other: &Self) -> (out: bool)
        ensures
            out == neighbors(self@, other@),
    {
        if self.vars.len() != other.vars.len() {
            return false;
        }
        let mut has_differed = false;
        let ghost mut at: int = 0;
        for k in 0..self.vars.len()
            invariant
                self.vars.len() == other.vars.len(),
                forall|p: int| 0 <= p < k ==> (#[trigger] self@[p]).name == other@[p].name,
                has_differed ==> 0 <= at < k && self@[at].dual(other@[at]),
                forall|p: int| 0 <= p < k && !(has_differed && p == at)
                    ==> !(#[trigger] self@[p]).dual(other@[p]),
        {
            let var1 = &self.vars[k];
            let var2 = &other.vars[k];
            if !var1.has_same_name(var2) {
                return false;
            }
            if var1.is_dual(var2) {
                if has_differed {
                    assert(!neighbors(self@, other@)) by {
                        assert(self@[at].dual(other@[at])
                            && self@[k as int].dual(other@[k as int]));
                    }
                    return false;
                }
                has_differed = true;
                proof {
                    at = k as int;
                }
            }
        }
        proof {
            if has_differed {
                assert(differ_only_at(self@, other@, at));
            } else {
                assert(forall|p: int| !differ_only_at(self@, other@, p));
            }
        }
        has_differed
    }

    /// The merge of two neighbors, and nothing for two terms that are none.
    /// The merge is put in order again, which leaves it as it is: a term
    /// without one of its literals is still in order.
    pub fn new_from_neighbors(term1: &Self, term2: &Self) -> (out: Option<Self>)
        ensures
            out is Some <==> neighbors(term1@, term2@),
            out matches Some(term) ==> term@ == in_order(merged(term1@, term2@)),
            out matches Some(term) ==> term@ == merged(term1@, term2@),
    {
        if !term1.is_neighbor(term2) {
            return None;
        }
        let ghost at = choose|at: int| differ_only_at(term1@, term2@, at);
        let mut merged_vars: Vec<Var> = Vec::new();
        for k in 0..term1.vars.len()
            invariant
                term1.vars.len() == term2.vars.len(),
                differ_only_at(term1@, term2@, at),
                merged_vars@ == (if k <= at {
                    term1@.take(k as int)
                } else {
                    term1@.take(k as int).remove(at)
                }),
        {
            let e1 = &term1.vars[k];
            let e2 = &term2.vars[k];
            if e1.is_dual(e2) {
                assert(k == at);
                assert(term1@.take(k as int) =~= term1@.take(k + 1).remove(at));
            } else {
                assert(merged_vars@.push(*e1) =~= (if k + 1 <= at {
                    term1@.take(k + 1)
                } else {
                    term1@.take(k + 1).remove(at)
                }));
                merged_vars.push(*e1);
            }
        }
        proof {
            use_type_invariant(term1);
            assert(term1@.take(term1@.len() as int) =~= term1@);
            lemma_in_order_of_ascending(merged(term1@, term2@));
        }
        Some(Self::new_from_vars(merged_vars))
    }

    /// Whether the term holds the literal, with this name and this sign.
    pub fn has_var(&self, var: Var) -> (out: bool)
        ensures
            out == self@.contains(var),
    {
        for k in 0..self.vars.len()
            invariant
                forall|p: int| 0 <= p < k ==> self@[p] != var,
        {
            if var == self.vars[k] {
                return true;
            }
        }
        false
    }

    /// Returns None if none are redundant. If first is redundant, it returns 1, otherwise 2.
    pub fn is_one_redundant(term1: &Self, term2: &Self) -> (out: Option<i8>)
        ensures
            out == redundant_one(term1@, term2@),
    {
        let (shorter, longer, swapped) = if term1.vars.len() <= term2.vars.len() {
            (term1, term2, false)
        } else {
            (term2, term1, true)
        };
        for k in 0..shorter.vars.len()
            invariant
                shorter@.len() <= longer@.len(),
                redundant_one(term1@, term2@) == (if covers(shorter@, longer@) {
                    Some(if swapped {
                        1i8
                    } else {
                        2i8
                    })
                } else {
                    None
                }),
                forall|p: int| 0 <= p < k ==> longer@.contains(#[trigger] shorter@[p]),
        {
            if !longer.has_var(shorter.vars[k]) {
                return None;
            }
        }
        if !swapped {
            Some(2)
        } else {
            Some(1)
        }
    }

    /// The display form of the term: its literals, one after the other, in parentheses.
    pub fn to_string(&self) -> (out: String)
        ensures
            out@ == term_text(self@),
    {
        let mut out = String::new();
        push_char(&mut out, '(');
        for k in 0..self.vars.len()
            invariant
                out@ == seq!['('] + literals_text(self@, k as int),
        {
            let text = self.vars[k].to_string();
            out.append(text.as_str());
        }
        push_char(&mut out, ')');
        out
    }
}

impl Clone for Term {
    fn clone(&self) -> (out: Self)
        ensures
            out@ == self@,
    {
        let mut vars: Vec<Var> = Vec::new();
        for k in 0..self.vars.len()
            invariant
                vars@ == self@.take(k as int),
        {
            vars.push(self.vars[k]);
            assert(self@.take(k as int).push(self@[k as int]) =~= self@.take(k + 1));
        }
        proof {
            use_type_invariant(self);
            assert(self@.take(self@.len() as int) =~= self@);
        }
        Term { vars }
    }
}

impl VarVisibility for Term {
    open spec fn used_variables(&self) -> Set<VarName> {
        term_variables(self@)
    }

    fn get_used_variables(&self, varset: &mut VarSet) {
        assert(varset@ =~= old(varset)@.union(term_variables(self@.take(0))));
        for k in 0..self.vars.len()
            invariant
                varset@ == old(varset)@.union(term_variables(self@.take(k as int))),
        {
            self.vars[k].get_used_variables(varset);
            assert(varset@ =~= old(varset)@.union(term_variables(self@.take(k + 1)))) by {
                let before = term_variables(self@.take(k as int));
                let after = term_variables(self@.take(k + 1));
                let name = self@[k as int].name;
                assert forall|n: VarName| after.contains(n)
                    <==> before.contains(n) || n == name by {
                    if before.contains(n) {
                        let i = choose|i: int|
                            0 <= i < k && (#[trigger] self@.take(k as int)[i]).name == n;
                        assert(self@.take(k + 1)[i].name == n);
                    }
                    if n == name {
                        assert(self@.take(k + 1)[k as int].name == n);
                    }
                    if after.contains(n) {
                        let i = choose|i: int|
                            0 <= i < k + 1 && (#[trigger] self@.take(k + 1)[i]).name == n;
                        if i < k {
                            assert(self@.take(k as int)[i].name == n);
                        }
                    }
                }
            }
        }
        assert(self@.take(self@.len() as int) =~= self@);
    }
}

impl Eval for Term {
    open spec fn value_under(&self, values: Values) -> Outcome {
        value(Formula::Term(self@), values)
    }

    fn evaluate(&self, scope: &VarScope) -> (out: Result<Constant, String>) {
        for k in 0..self.vars.len()
            invariant
                term_value(self@, scope@, 0) == term_value(self@, scope@, k as int),
        {
            match self.vars[k].evaluate(scope) {
                Err(message) => {
                    return Err(message);
                },
                Ok(Constant::ZERO) => {
                    return Ok(Constant::ZERO);
                },
                Ok(Constant::ONE) => {},
            }
        }
        Ok(Constant::ONE)
    }
}

impl Simplify for Term {
    open spec fn simplified_under(&self, values: Option<Values>) -> Formula {
        simplified(Formula::Term(self@), values)
    }

    fn simplify_with(self, scope: &VarScope) -> (out: Expression) {
        let mut required_vars: Vec<Var> = Vec::new();
        assert(self@.take(0).filter(unvalued(scope@)) =~= required_vars@);
        for k in 0..self.vars.len()
            invariant
                required_vars@ == self@.take(k as int).filter(unvalued(scope@)),
                forall|p: int|
                    0 <= p < k ==> literal_value(#[trigger] self@[p], scope@) != Some(
                        Constant::ZERO,
                    ),
        {
            let var = self.vars[k];
            proof {
                assert(self@.take(k as int).push(var) =~= self@.take(k + 1));
                self@.take(k as int).lemma_filter_push(var, unvalued(scope@));
            }
            match var.resolve(scope) {
                Some(Constant::ZERO) => {
                    return Expression::Constant(Constant::ZERO);
                },
                Some(Constant::ONE) => {},
                None => {
                    required_vars.push(var);
                },
            }
        }
        assert(self@.take(self@.len() as int) =~= self@);
        if required_vars.len() == 0 {
            Expression::Constant(Constant::ONE)
        } else {
            let unset = Term::new_from_vars(required_vars);
            proof {
                lemma_in_order_of_ascending(unset@);
            }
            Expression::Term(unset)
        }
    }

    fn simplify(self) -> (out: Expression) {
        // A term is in order, so a repeated literal and a dual pair stand side by side.
        let n = self.vars.len();
        let mut redundant_vars: Vec<bool> = vec![false; n];
        for i in 0..n
            invariant
                n == self@.len(),
                redundant_vars.len() == n,
                forall|p: int| 0 <= p < i && p + 1 < n
                    ==> !(#[trigger] self@[p]).dual(self@[p + 1]),
                forall|p: int|
                    0 <= p < n ==> #[trigger] redundant_vars[p] == (1 <= p <= i && self@[p - 1]
                        == self@[p]),
        {
            let var1 = self.vars[i];
            if i != n - 1 {
                let var2 = self.vars[i + 1];
                // check for duplicates, dual forms
                if var1 == var2 {
                    redundant_vars[i + 1] = true;
                } else if var1.is_dual(&var2) {
                    // x & ~x = 0
                    return Expression::Constant(Constant::ZERO);
                }
            }
        }
        let mut kept_vars: Vec<Var> = Vec::new();
        for i in 0..n
            invariant
                n == self@.len(),
                redundant_vars.len() == n,
                forall|p: int|
                    0 <= p < n ==> #[trigger] redundant_vars[p] == (1 <= p && self@[p - 1]
                        == self@[p]),
                kept_vars@ == without_repeats(self@, i as int),
        {
            if !redundant_vars[i] {
                kept_vars.push(self.vars[i]);
            }
        }
        let rest = Term::new_from_vars(kept_vars);
        proof {
            lemma_in_order_of_ascending(rest@);
        }
        Expression::Term(rest)
    }
}

/// A term is never its own neighbor.
pub proof fn lemma_term_not_own_neighbor(term: Term)
    ensures
        !neighbors(term@, term@),
{
    lemma_not_own_neighbor(term@);
}

/// The merge of two neighbors has strictly fewer literals than either of
/// them: one less.
pub proof fn lemma_merge_has_fewer_literals(a: Term, b: Term)
    requires
        neighbors(a@, b@),
    ensures
        merged(a@, b@).len() < a@.len(),
        merged(a@, b@).len() < b@.len(),
        merged(a@, b@).len() == a@.len() - 1,
{
    lemma_merged_is_shorter(a@, b@);
}

/// No sequence of literals is its own neighbor.
pub proof fn lemma_not_own_neighbor(term: Seq<Var>)
    ensures
        !neighbors(term, term),
{
}

/// Neighbors are neighbors in either order.
pub proof fn lemma_neighbors_symmetric(a: Seq<Var>, b: Seq<Var>)
    requires
        neighbors(a, b),
    ensures
        neighbors(b, a),
{
    let at = choose|at: int| differ_only_at(a, b, at);
    assert(differ_only_at(b, a, at));
}

/// The merge of two neighboring sequences of literals has one literal less
/// than either of them.
pub proof fn lemma_merged_is_shorter(a: Seq<Var>, b: Seq<Var>)
    requires
        neighbors(a, b),
    ensures
        merged(a, b).len() == a.len() - 1,
        merged(a, b).len() == b.len() - 1,
        merged(a, b).len() < a.len(),
        merged(a, b).len() < b.len(),
{
}

} // verus!
