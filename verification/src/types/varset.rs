//! Sets of variables.

use crate::types::var::VarName;
use vstd::prelude::*;

verus! {

/// Whether the identities ascend strictly in the order of identities.
pub open spec fn strictly_ascending(names: Seq<VarName>) -> bool {
    forall|i: int, j: int|
        0 <= i < j < names.len() ==> (#[trigger] names[i]).at_most(#[trigger] names[j]) && names[i]
            != names[j]
}

/// A set of variables, kept in the order of identities.
#[derive(Debug)]
pub struct VarSet {
    names: Vec<VarName>,
}

impl VarSet {
    #[verifier::type_invariant]
    spec fn kept_in_order(self) -> bool {
        strictly_ascending(self.names@)
    }

    /// The variables of the set.
    pub closed spec fn view(&self) -> Set<VarName> {
        self.names@.to_set()
    }

    /// The empty set.
    pub fn new() -> (out: Self)
        ensures
            out@ == Set::<VarName>::empty(),
    {
        let out = VarSet { names: Vec::new() };
        assert(out@ =~= Set::<VarName>::empty());
        out
    }

    /// The first place whose identity does not come before `name`.
    fn place_of(&self, name: &VarName) -> (out: usize)
        ensures
            out <= self.names@.len(),
            forall|i: int| 0 <= i < out
                ==> (#[trigger] self.names@[i]).at_most(*name) && self.names@[i] != *name,
            out < self.names@.len() ==> name.at_most(self.names@[out as int]),
    {
        let mut place: usize = 0;
        while place < self.names.len() && !name.is_at_most(&self.names[place])
            invariant
                place <= self.names@.len(),
                forall|i: int|
                    0 <= i < place ==> (#[trigger] self.names@[i]).at_most(*name) && self.names@[i]
                        != *name,
            decreases self.names@.len() - place,
        {
            place += 1;
        }
        place
    }

    /// Whether the variable is in the set.
    pub fn contains(&self, name: &VarName) -> (out: bool)
        ensures
            out == self@.contains(*name),
    {
        proof {
            use_type_invariant(self);
        }
        let place = self.place_of(name);
        let found = place < self.names.len() && self.names[place] == *name;
        proof {
            if !found && self.names@.contains(*name) {
                let at = choose|at: int| 0 <= at < self.names@.len() && self.names@[at] == *name;
                if place < self.names@.len() && at > place {
                    assert(self.names@[place as int].at_most(self.names@[at]));
                }
            }
        }
        found
    }

    /// Puts the variable into the set, and says whether it was new.
    pub fn insert(&mut self, name: VarName) -> (out: bool)
        ensures
            final(self)@ == old(self)@.insert(name),
            out == !old(self)@.contains(name),
    {
        proof {
            use_type_invariant(&*self);
        }
        if self.contains(&name) {
            assert(self@.insert(name) =~= self@);
            return false;
        }
        let place = self.place_of(&name);
        let ghost before = self.names@;
        // The list is taken out for the insertion and put back after it.
        let mut names: Vec<VarName> = Vec::new();
        std::mem::swap(&mut self.names, &mut names);
        names.insert(place, name);
        proof {
            let after = names@;
            assert(after == before.insert(place as int, name));
            assert forall|i: int, j: int| 0 <= i < j < after.len()
                implies (#[trigger] after[i]).at_most(
                #[trigger] after[j],
            ) && after[i] != after[j] by {
                let from_i = if i < place {
                    i
                } else {
                    i - 1
                };
                let from_j = if j < place {
                    j
                } else {
                    j - 1
                };
                if i != place && j != place {
                    assert(after[i] == before[from_i] && after[j] == before[from_j]);
                } else if i == place {
                    assert(after[j] == before[from_j]);
                    assert(before[place as int].at_most(before[from_j]) || place == from_j);
                    assert(before.contains(before[from_j]));
                } else {
                    assert(after[i] == before[from_i]);
                }
            }
            assert(after.to_set() =~= before.to_set().insert(name)) by {
                assert forall|n: VarName| after.contains(n) <==> before.contains(n) || n
                    == name by {
                    if after.contains(n) {
                        let at = choose|at: int| 0 <= at < after.len() && after[at] == n;
                        if at < place {
                            assert(before[at] == n);
                        } else if at > place {
                            assert(before[at - 1] == n);
                        }
                    }
                    if before.contains(n) {
                        let at = choose|at: int| 0 <= at < before.len() && before[at] == n;
                        if at < place {
                            assert(after[at] == n);
                        } else {
                            assert(after[at + 1] == n);
                        }
                    }
                    if n == name {
                        assert(after[place as int] == n);
                    }
                }
            }
        }
        std::mem::swap(&mut self.names, &mut names);
        true
    }

    /// The number of variables in the set.
    pub fn len(&self) -> (out: usize)
        ensures
            out == self@.len(),
    {
        proof {
            use_type_invariant(self);
            self.names@.unique_seq_to_set();
        }
        self.names.len()
    }

    /// The variables of the set in the order of identities.
    pub fn names(&self) -> (out: &Vec<VarName>)
        ensures
            out@.to_set() == self@,
            strictly_ascending(out@),
    {
        proof {
            use_type_invariant(self);
        }
        &self.names
    }
}

} // verus!
