//! Variables and literals, their order and their display form.

use crate::text::push_char;
use crate::types::constant::Constant;
use crate::types::expression::Expression;
use crate::types::formula::{
    literal_value, simplified, undefined_text, value, Formula, Outcome, Values,
};
use crate::types::scope::VarScope;
use crate::types::traits::{Eval, Simplify, VarVisibility};
use crate::types::varset::VarSet;
use vstd::prelude::*;

verus! {

/// The combining overline that marks a negated literal.
pub const OVERLINE: char = '\u{0304}';

/// The identity of a variable: a letter and an optional subscript.
#[derive(Debug, Clone, Copy, PartialEq, Eq, Structural, PartialOrd, Ord, Hash)]
pub struct VarName {
    pub name: char,
    pub subscript: Option<u8>,
}

/// A literal: a variable or its complement.
#[derive(Debug, Clone, Copy, Eq, PartialEq, Structural, PartialOrd, Ord, Hash)]
pub struct Var {
    pub name: VarName,
    pub negated: bool,
}

/// The rank of a subscript in the order of identities: an absent subscript
/// comes before every present one.
pub open spec fn subscript_rank(subscript: Option<u8>) -> int {
    match subscript {
        None => 0,
        Some(s) => s as int + 1,
    }
}

/// The subscript glyph of one decimal digit.
pub open spec fn subscript_glyph(digit: int) -> char {
    if digit == 0 {
        '\u{2080}'
    } else if digit == 1 {
        '\u{2081}'
    } else if digit == 2 {
        '\u{2082}'
    } else if digit == 3 {
        '\u{2083}'
    } else if digit == 4 {
        '\u{2084}'
    } else if digit == 5 {
        '\u{2085}'
    } else if digit == 6 {
        '\u{2086}'
    } else if digit == 7 {
        '\u{2087}'
    } else if digit == 8 {
        '\u{2088}'
    } else {
        '\u{2089}'
    }
}

/// A number written in decimal with subscript glyphs, most significant digit first.
pub open spec fn subscript_text(num: nat) -> Seq<char>
    decreases num,
{
    if num < 10 {
        seq![subscript_glyph(num as int)]
    } else {
        subscript_text(num / 10).push(subscript_glyph((num % 10) as int))
    }
}

/// The display form of an identity: its letter, an overline if it is shown
/// negated, and its subscript if it has one.
pub open spec fn name_text(name: VarName, negated: bool) -> Seq<char> {
    seq![name.name] + (if negated {
        seq![OVERLINE]
    } else {
        Seq::<char>::empty()
    }) + (match name.subscript {
        Some(s) => subscript_text(s as nat),
        None => Seq::<char>::empty(),
    })
}

fn subscript_char(digit: u32) -> (out: char)
    requires
        digit < 10,
    ensures
        out == subscript_glyph(digit as int),
{
    if digit == 0 {
        '\u{2080}'
    } else if digit == 1 {
        '\u{2081}'
    } else if digit == 2 {
        '\u{2082}'
    } else if digit == 3 {
        '\u{2083}'
    } else if digit == 4 {
        '\u{2084}'
    } else if digit == 5 {
        '\u{2085}'
    } else if digit == 6 {
        '\u{2086}'
    } else if digit == 7 {
        '\u{2087}'
    } else if digit == 8 {
        '\u{2088}'
    } else {
        '\u{2089}'
    }
}

fn push_subscript(out: &mut String, num: u32)
    ensures
        final(out)@ == old(out)@ + subscript_text(num as nat),
    decreases num,
{
    if num >= 10 {
        push_subscript(out, num / 10);
    }
    push_char(out, subscript_char(num % 10));
}

/// Writes a number in decimal with subscript glyphs.
pub fn decimal_to_subscript(num: u32) -> (out: String)
    ensures
        out@ == subscript_text(num as nat),
{
    let mut result = String::new();
    push_subscript(&mut result, num);
    result
}

impl VarName {
    /// The order of identities: by letter, then by subscript.
    pub open spec fn at_most(self, other: VarName) -> bool {
        self.name < other.name || (self.name == other.name && subscript_rank(self.subscript)
            <= subscript_rank(other.subscript))
    }

    /// The identity with this letter and this subscript.
    pub fn new(name: char, subscript: Option<u8>) -> (out: Self)
        ensures
            out == (VarName { name, subscript }),
    {
        VarName { name, subscript }
    }

    /// The display form of the identity, with an overline if `negated`.
    pub fn get_string(&self, negated: bool) -> (out: String)
        ensures
            out@ == name_text(*self, negated),
    {
        let mut out = String::new();
        push_char(&mut out, self.name);
        if negated {
            push_char(&mut out, OVERLINE);
        }
        if let Some(subscript) = self.subscript {
            let digits = decimal_to_subscript(subscript as u32);
            out.append(digits.as_str());
        }
        out
    }

    /// Whether `self` comes before `other` in the order of identities, or equals it.
    pub fn is_at_most(&self, other: &VarName) -> (out: bool)
        ensures
            out == self.at_most(*other),
    {
        if self.name != other.name {
            self.name < other.name
        } else {
            match (self.subscript, other.subscript) {
                (None, _) => true,
                (Some(_), None) => false,
                (Some(a), Some(b)) => a <= b,
            }
        }
    }
}

impl Var {
    /// Two literals are dual when they name the same variable with opposite signs.
    pub open spec fn dual(self, other: Var) -> bool {
        self.name == other.name && self.negated != other.negated
    }

    /// The order of literals: by identity, then the plain literal before the negated one.
    pub open spec fn at_most(self, other: Var) -> bool {
        if self.name == other.name {
            !self.negated || other.negated
        } else {
            self.name.at_most(other.name)
        }
    }

    /// The literal of the variable with this letter and this subscript.
    pub fn new(name: char, subscript: Option<u8>, negated: bool) -> (out: Self)
        ensures
            out == (Var { name: VarName { name, subscript }, negated }),
    {
        Var { name: VarName::new(name, subscript), negated }
    }

    /// Whether the two literals name the same variable with opposite signs.
    pub fn is_dual(&self, other: &Self) -> (out: bool)
        ensures
            out == self.dual(*other),
    {
        self.negated != other.negated && self.has_same_name(other)
    }

    /// Whether the two literals name the same variable.
    pub fn has_same_name(&self, other: &Self) -> (out: bool)
        ensures
            out == (self.name == other.name),
    {
        self.name == other.name
    }

    /// The display form of the literal.
    pub fn to_string(&self) -> (out: String)
        ensures
            out@ == name_text(self.name, self.negated),
    {
        self.name.get_string(self.negated)
    }

    /// Whether `self` comes before `other` in the order of literals, or equals it.
    pub fn is_at_most(&self, other: &Var) -> (out: bool)
        ensures
            out == self.at_most(*other),
    {
        if self.name == other.name {
            !self.negated || other.negated
        } else {
            self.name.is_at_most(&other.name)
        }
    }
}

/// The message of the failure to find a value for a variable.
pub fn undefined_message(name: &VarName) -> (out: String)
    ensures
        out@ == undefined_text(*name),
{
    let mut out = String::from_str("Variable '");
    let shown = name.get_string(false);
    out.append(shown.as_str());
    out.append("' isn't defined in this scope!");
    out
}

impl Var {
    /// The value of the literal where the scope has one for its variable.
    pub fn resolve(&self, scope: &VarScope) -> (out: Option<Constant>)
        ensures
            out == literal_value(*self, scope@),
    {
        match scope.get_key_value(&self.name) {
            None => None,
            Some((_, constant)) => Some(constant.negate_if(self.negated)),
        }
    }
}

impl Eval for Var {
    open spec fn value_under(&self, values: Values) -> Outcome {
        value(Formula::Var(*self), values)
    }

    fn evaluate(&self, scope: &VarScope) -> (out: Result<Constant, String>) {
        match self.resolve(scope) {
            None => Err(undefined_message(&self.name)),
            Some(constant) => Ok(constant),
        }
    }
}

impl VarVisibility for Var {
    open spec fn used_variables(&self) -> Set<VarName> {
        Set::empty().insert(self.name)
    }

    fn get_used_variables(&self, varset: &mut VarSet) {
        varset.insert(self.name);
        assert(old(varset)@.insert(self.name) =~= old(varset)@.union(
            Set::empty().insert(self.name),
        ));
    }
}

impl Simplify for Var {
    open spec fn simplified_under(&self, values: Option<Values>) -> Formula {
        simplified(Formula::Var(*self), values)
    }

    fn simplify(self) -> (out: Expression) {
        Expression::Var(self)
    }

    fn simplify_with(self, scope: &VarScope) -> (out: Expression) {
        match self.resolve(scope) {
            None => Expression::Var(self),
            Some(value) => Expression::Constant(value),
        }
    }
}

} // verus!
