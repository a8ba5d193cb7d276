//! The variables of an interpreter session.
use vstd::prelude::*;
use crate::object::{Object, Value};

verus! {

/// No name occurs twice in `vars`, and `bindings` is what `vars` binds.
spec fn binds(vars: Seq<(String, Object)>, bindings: Map<Seq<char>, Value>) -> bool {
    &&& forall|i: int, j: int|
        0 <= i < j < vars.len() ==> #[trigger] vars[i].0@ != #[trigger] vars[j].0@
    &&& forall|i: int|
        0 <= i < vars.len() ==> #[trigger] bindings.contains_key(vars[i].0@) && bindings[vars[i].0@]
            == vars[i].1@
    &&& forall|k: Seq<char>| #[trigger]
        bindings.contains_key(k) ==> exists|i: int| 0 <= i < vars.len() && #[trigger] vars[i].0@ == k
}

/// The variables of a session, each name bound to one value.
pub struct Environment {
    variables: Vec<(String, Object)>,
    bindings: Ghost<Map<Seq<char>, Value>>,
}

impl Environment {
    /// No name occurs twice, and `bindings` is what the list binds.
    #[verifier::type_invariant]
    spec fn well_formed(self) -> bool {
        binds(self.variables@, self.bindings@)
    }
}

impl View for Environment {
    type V = Map<Seq<char>, Value>;

    closed spec fn view(&self) -> Map<Seq<char>, Value> {
        self.bindings@
    }
}

impl Environment {
    /// An environment with no variables.
    pub fn new() -> (e: Environment)
        ensures
            e@ == Map::<Seq<char>, Value>::empty(),
    {
        Environment { variables: Vec::new(), bindings: Ghost(Map::empty()) }
    }

    /// A copy of the value bound to `name`, if any.
    pub fn get(&self, name: &String) -> (r: Option<Object>)
        ensures
            r is Some <==> self@.contains_key(name@),
            r matches Some(o) ==> o@ == self@[name@],
    {
        proof {
            use_type_invariant(self);
        }
        let n = self.variables.len();
        let mut i: usize = 0;
        while i < n
            invariant
                i <= n == self.variables.len(),
                forall|j: int| 0 <= j < i ==> self.variables[j].0@ != name@,
            decreases n - i,
        {
            if self.variables[i].0 == *name {
                proof {
                    use_type_invariant(self);
                }
                return Some(self.variables[i].1.clone());
            }
            i = i + 1;
        }
        proof {
            if self@.contains_key(name@) {
                let j = choose|j: int| 0 <= j < self.variables.len() && self.variables[j].0@ == name@;
                assert(self.variables[j].0@ == name@);
            }
        }
        None
    }

    /// Binds `name` to `value`, in place of any value it had.
    pub fn insert(&mut self, name: String, value: Object)
        ensures
            final(self)@ == old(self)@.insert(name@, value@),
    {
        let mut taken = Environment::new();
        std::mem::swap(self, &mut taken);
        proof {
            use_type_invariant(&taken);
        }
        let ghost old_bindings = taken.bindings@;
        let mut variables = taken.variables;
        let ghost old_vars = variables@;
        let n = variables.len();
        let mut i: usize = 0;
        while i < n && !(variables[i].0 == name)
            invariant
                i <= n == variables.len(),
                variables@ == old_vars,
                forall|j: int| 0 <= j < i ==> variables[j].0@ != name@,
            decreases n - i,
        {
            i = i + 1;
        }
        let ghost new_bindings = old_bindings.insert(name@, value@);
        if i < n {
            variables.set(i, (name, value));
            assert forall|k: Seq<char>| #[trigger] new_bindings.contains_key(k) implies exists|j: int|
                0 <= j < variables.len() && #[trigger] variables[j].0@ == k by {
                if k != variables[i as int].0@ {
                    let j = choose|j: int| 0 <= j < old_vars.len() && old_vars[j].0@ == k;
                    assert(variables[j].0@ == k);
                }
            }
        } else {
            variables.push((name, value));
            assert forall|k: Seq<char>| #[trigger] new_bindings.contains_key(k) implies exists|j: int|
                0 <= j < variables.len() && #[trigger] variables[j].0@ == k by {
                if k != variables[n as int].0@ {
                    let j = choose|j: int| 0 <= j < old_vars.len() && old_vars[j].0@ == k;
                    assert(variables[j].0@ == k);
                }
            }
        }
        assert forall|a: int, b: int|
            0 <= a < b < variables.len() implies #[trigger] variables[a].0@
                != #[trigger] variables[b].0@ by {
            if i < n {
                if a != i && b != i {
                    assert(variables[a] == old_vars[a] && variables[b] == old_vars[b]);
                } else if a == i {
                    assert(variables[b] == old_vars[b]);
                } else {
                    assert(variables[a] == old_vars[a]);
                }
            } else if b == n {
                assert(variables[a] == old_vars[a]);
            } else {
                assert(variables[a] == old_vars[a] && variables[b] == old_vars[b]);
            }
        }
        assert forall|a: int| 0 <= a < variables.len() implies #[trigger] new_bindings.contains_key(
            variables[a].0@,
        ) && new_bindings[variables[a].0@] == variables[a].1@ by {
            if variables[a].0@ != name@ {
                assert(variables[a] == old_vars[a]);
            }
        }
        assert(binds(variables@, new_bindings));
        *self = Environment { variables, bindings: Ghost(new_bindings) };
    }
}

} // verus!
