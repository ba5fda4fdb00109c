//! Scopes: values for variables, with an optional enclosing scope.

use crate::types::constant::Constant;
use crate::types::var::{subscript_rank, VarName};
use std::collections::HashMap;
use vstd::prelude::*;

verus! {

broadcast use vstd::std_specs::hash::group_hash_axioms;

/// A scope that gives variables Boolean values.
pub type VarScope<'a> = VarValue<'a, Constant>;

/// The number under which a scope files an identity. Different identities
/// have different numbers.
pub open spec fn name_code(name: VarName) -> u64 {
    (name.name as u64 * 512 + subscript_rank(name.subscript)) as u64
}

/// Different identities have different numbers.
pub proof fn lemma_name_code_injective(a: VarName, b: VarName)
    requires
        name_code(a) == name_code(b),
    ensures
        a == b,
{
    assert(a.name as u64 == b.name as u64);
    assert(subscript_rank(a.subscript) == subscript_rank(b.subscript));
}

fn code_of(name: &VarName) -> (out: u64)
    ensures
        out == name_code(*name),
{
    let rank: u64 = match name.subscript {
        None => 0,
        Some(s) => s as u64 + 1,
    };
    (name.name as u64) * 512 + rank
}

/// Values for variables, with an optional enclosing scope that is asked for
/// the variables that this one does not define. The scope files an identity
/// under its number and keeps the identity beside the value.
pub struct VarValue<'a, T> {
    mappings: HashMap<u64, (VarName, T)>,
    fallback: Option<&'a VarValue<'a, T>>,
}

impl<'a, T> VarValue<'a, T> {
    #[verifier::type_invariant]
    spec fn filed_by_code(self) -> bool {
        forall|code: u64| #[trigger]
            self.mappings@.contains_key(code) ==> name_code(self.mappings@[code].0) == code
    }

    /// What the scope itself defines.
    pub closed spec fn own(&self) -> Map<VarName, T> {
        Map::new(
            |name: VarName| self.mappings@.contains_key(name_code(name)),
            |name: VarName| self.mappings@[name_code(name)].1,
        )
    }

    /// What the enclosing scope gives, if there is one.
    pub closed spec fn outer(&self) -> Option<Map<VarName, T>>
        decreases self,
    {
        match self.fallback {
            None => None,
            Some(scope) => Some(
                match scope.outer() {
                    None => scope.own(),
                    Some(beyond) => beyond.union_prefer_right(scope.own()),
                },
            ),
        }
    }

    /// What the scope gives: its own definitions, and for the other variables
    /// what the enclosing scope gives.
    pub open spec fn view(&self) -> Map<VarName, T> {
        match self.outer() {
            None => self.own(),
            Some(beyond) => beyond.union_prefer_right(self.own()),
        }
    }

    /// A scope that defines nothing and has no enclosing scope.
    pub fn new() -> (out: Self)
        ensures
            out.own() == Map::<VarName, T>::empty(),
            out.outer() is None,
            out@ == Map::<VarName, T>::empty(),
    {
        let out = VarValue { mappings: HashMap::new(), fallback: None };
        assert(out.own() =~= Map::<VarName, T>::empty());
        out
    }

    /// A scope that defines nothing itself and is enclosed by `fallback`.
    pub fn with_fallback(fallback: &'a VarValue<'a, T>) -> (out: Self)
        ensures
            out.own() == Map::<VarName, T>::empty(),
            out.outer() == Some(fallback@),
            out@ == fallback@,
    {
        let out = VarValue { mappings: HashMap::new(), fallback: Some(fallback) };
        assert(out.own() =~= Map::<VarName, T>::empty());
        assert(out@ =~= fallback@);
        out
    }

    /// Defines a variable in this scope, and returns the value that this
    /// scope itself had for it before.
    pub fn insert(&mut self, key: VarName, value: T) -> (out: Option<T>)
        ensures
            final(self).own() == old(self).own().insert(key, value),
            final(self).outer() == old(self).outer(),
            final(self)@ == old(self)@.insert(key, value),
            out == old(self).own().get(key),
    {
        proof {
            use_type_invariant(&*self);
            assert forall|other: VarName| name_code(other) == name_code(key) implies other
                == key by {
                lemma_name_code_injective(other, key);
            }
        }
        // The map is taken out for the insertion and put back after it.
        let mut mappings: HashMap<u64, (VarName, T)> = HashMap::new();
        std::mem::swap(&mut self.mappings, &mut mappings);
        let before = mappings.insert(code_of(&key), (key, value));
        std::mem::swap(&mut self.mappings, &mut mappings);
        proof {
            assert(final(self).own() =~= old(self).own().insert(key, value));
            assert(final(self)@ =~= old(self)@.insert(key, value));
        }
        match before {
            Some(pair) => Some(pair.1),
            None => None,
        }
    }

    /// The value of a variable: that of this scope if it defines the
    /// variable, else that of the enclosing scope, if there is one.
    pub fn get(&self, key: &VarName) -> (out: Option<&T>)
        ensures
            out is Some <==> self@.contains_key(*key),
            out matches Some(value) ==> *value == self@[*key],
        decreases self,
    {
        match self.mappings.get(&code_of(key)) {
            Some(pair) => Some(&pair.1),
            None => match self.fallback {
                Some(scope) => scope.get(key),
                None => None,
            },
        }
    }

    /// As `get`, with the identity beside the value.
    pub fn get_key_value(&self, key: &VarName) -> (out: Option<(&VarName, &T)>)
        ensures
            out is Some <==> self@.contains_key(*key),
            out matches Some(pair) ==> *pair.0 == *key && *pair.1 == self@[*key],
        decreases self,
    {
        match self.mappings.get(&code_of(key)) {
            Some(pair) => {
                proof {
                    use_type_invariant(self);
                    lemma_name_code_injective(pair.0, *key);
                }
                Some((&pair.0, &pair.1))
            },
            None => match self.fallback {
                Some(scope) => scope.get_key_value(key),
                None => None,
            },
        }
    }
}

} // verus!
