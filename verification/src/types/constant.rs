//! The two Boolean constants.

use crate::types::expression::Expression;
use crate::types::formula::{Formula, Outcome, Values};
use crate::types::scope::VarScope;
use crate::types::traits::{Eval, Simplify, VarVisibility};
use crate::types::var::VarName;
use crate::types::varset::VarSet;
use vstd::prelude::*;
use vstd::std_specs::convert::FromSpecImpl;

verus! {

/// A Boolean constant.
#[allow(clippy::upper_case_acronyms)]
#[derive(Clone, Copy, Debug, PartialEq, Eq, Structural, PartialOrd, Ord)]
pub enum Constant {
    ZERO,
    ONE,
}

impl Constant {
    /// The truth value the constant stands for.
    pub open spec fn truth(self) -> bool {
        self == Constant::ONE
    }

    /// The constant that stands for a truth value.
    pub open spec fn of_truth(value: bool) -> Constant {
        if value {
            Constant::ONE
        } else {
            Constant::ZERO
        }
    }

    /// The complement of the constant.
    pub open spec fn negated(self) -> Constant {
        Constant::of_truth(!self.truth())
    }

    /// The complement of the constant.
    pub fn negate(self) -> (out: Constant)
        ensures
            out == self.negated(),
    {
        match self {
            Self::ZERO => Constant::ONE,
            Self::ONE => Constant::ZERO,
        }
    }

    /// The complement of the constant if `condition` holds, else the constant.
    pub fn negate_if(self, condition: bool) -> (out: Constant)
        ensures
            out == (if condition {
                self.negated()
            } else {
                self
            }),
    {
        if condition {
            self.negate()
        } else {
            self
        }
    }
}

impl From<bool> for Constant {
    fn from(value: bool) -> (out: Self) {
        if value {
            Constant::ONE
        } else {
            Constant::ZERO
        }
    }
}

impl FromSpecImpl<bool> for Constant {
    open spec fn obeys_from_spec() -> bool {
        true
    }

    open spec fn from_spec(value: bool) -> Self {
        Constant::of_truth(value)
    }
}

impl VarVisibility for Constant {
    open spec fn used_variables(&self) -> Set<VarName> {
        Set::empty()
    }

    fn get_used_variables(&self, _varset: &mut VarSet) {
        assert(_varset@.union(Set::<VarName>::empty()) =~= _varset@);
    }
}

impl Eval for Constant {
    open spec fn value_under(&self, values: Values) -> Outcome {
        Ok(*self)
    }

    fn evaluate(&self, _scope: &VarScope) -> (out: Result<Constant, String>) {
        Ok(*self)
    }
}

impl Simplify for Constant {
    open spec fn simplified_under(&self, values: Option<Values>) -> Formula {
        Formula::Constant(*self)
    }

    fn simplify(self) -> (out: Expression) {
        Expression::Constant(self)
    }

    fn simplify_with(self, _scope: &VarScope) -> (out: Expression) {
        Expression::Constant(self)
    }
}

} // verus!
