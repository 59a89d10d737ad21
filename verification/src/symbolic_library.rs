//! Templates, functions and components known to the symbolic executor.
use crate::ast::{DebugStatement, SignalType, VariableType};
use crate::name_map::NameSet;
use crate::symbolic_value::{SpecValue, SymbolicValue};
use crate::tables::{fx_get, fx_insert, fx_keys, fx_name_get, fx_name_insert, fx_name_len, name_ids, IdTable};
use rustc_hash::FxHashMap;
use std::rc::Rc;
use vstd::prelude::*;

verus! {

/// A template: its parameters, input and output signals, declared kinds and body.
#[derive(Debug)]
pub struct SymbolicTemplate {
    pub template_parameter_names: Vec<usize>,
    pub inputs: Vec<usize>,
    pub outputs: Vec<usize>,
    pub unrolled_outputs: NameSet,
    pub var2type: FxHashMap<usize, VariableType>,
    pub body: Rc<Vec<DebugStatement>>,
}

/// A function: its parameters and body.
#[derive(Debug)]
pub struct SymbolicFunction {
    pub function_argument_names: Vec<usize>,
    pub body: Rc<Vec<DebugStatement>>,
}

/// A component instance: its template, arguments, and the inputs given to it so far.
#[derive(Debug)]
pub struct SymbolicComponent {
    pub template_name: usize,
    pub args: Vec<Rc<SymbolicValue>>,
    pub inputs: FxHashMap<usize, Option<SymbolicValue>>,
    pub is_done: bool,
}

/// The templates and functions of a program, with the tables of interned names.
#[derive(Debug)]
pub struct SymbolicLibrary {
    pub template_library: FxHashMap<usize, SymbolicTemplate>,
    pub name2id: FxHashMap<String, usize>,
    pub id2name: FxHashMap<usize, String>,
    pub function_library: FxHashMap<usize, SymbolicFunction>,
    pub function_counter: FxHashMap<usize, usize>,
}

/// The names that a table of kinds declares signals of the role `role` (inputs or outputs,
/// say), each once, in no particular order.
pub fn signals_of_kind(var2type: &FxHashMap<usize, VariableType>, role: SignalType) -> (r: Vec<usize>)
    ensures
        r@.no_duplicates(),
        forall|k: usize| r@.contains(k) <==> (var2type@.contains_key(k)
            && (var2type@[k] matches VariableType::Signal(t, _) && t == role)),
{
    let keys = fx_keys(var2type);
    let mut r: Vec<usize> = Vec::new();
    let mut i: usize = 0;
    while i < keys.len()
        invariant
            i <= keys@.len(),
            keys@.no_duplicates(),
            keys@.to_set() == var2type@.dom(),
            r@.no_duplicates(),
            forall|k: usize| r@.contains(k) <==> (exists|j: int| 0 <= j < i && keys@[j] == k)
                && var2type@.contains_key(k) && (var2type@[k] matches VariableType::Signal(t, _) && t == role),
        decreases keys.len() - i,
    {
        let k = keys[i];
        let hit = match fx_get(var2type, k) {
            Some(VariableType::Signal(t, _)) => *t == role,
            _ => false,
        };
        let ghost r0 = r@;
        if hit {
            proof {
                if r0.contains(k) {
                    let j2 = choose|j2: int| 0 <= j2 < i && keys@[j2] == k;
                    assert(keys@[j2] == keys@[i as int]);
                }
            }
            r.push(k);
        }
        proof {
            assert forall|x: usize| r@.contains(x) <==> ((exists|j: int| 0 <= j < i + 1 && keys@[j] == x)
                && var2type@.contains_key(x) && (var2type@[x] matches VariableType::Signal(t, _) && t == role)) by {
                if hit {
                    assert(r@ == r0.push(k));
                    if r@.contains(x) && x != k {
                        let j = choose|j: int| 0 <= j < r@.len() && r@[j] == x;
                        assert(r0[j] == x);
                    }
                    if r0.contains(x) {
                        let j = choose|j: int| 0 <= j < r0.len() && r0[j] == x;
                        assert(r@[j] == x);
                    }
                    if x == k {
                        assert(r@[r0.len() as int] == k);
                    }
                }
                if x == k {
                    assert(keys@[i as int] == k);
                }
                if (exists|j: int| 0 <= j < i + 1 && keys@[j] == x) && x != k {
                    let j = choose|j: int| 0 <= j < i + 1 && keys@[j] == x;
                    assert(j != i);
                }
            }
        }
        i = i + 1;
    }
    proof {
        assert forall|k: usize| var2type@.contains_key(k) implies (exists|j: int| 0 <= j < keys@.len() && keys@[j] == k) by {
            assert(keys@.to_set().contains(k));
        }
    }
    r
}

impl SymbolicComponent {
    /// Whether every input of the component has been given a value.
    pub open spec fn spec_all_inputs_given(&self) -> bool {
        forall|k: usize| #[trigger] self.inputs@.contains_key(k) ==> self.inputs@[k] is Some
    }
}

impl SymbolicLibrary {
    /// The number of `name` in the table of names; a name that has none yet gets the next
    /// free number, the count of names in the table, in both tables.
    pub fn intern(&mut self, name: &str) -> (r: usize)
        ensures
            name_ids(old(self).name2id).contains_key(name@) ==> {
                &&& r == name_ids(old(self).name2id)[name@]
                &&& final(self).name2id == old(self).name2id
                &&& final(self).id2name == old(self).id2name
            },
            !name_ids(old(self).name2id).contains_key(name@) ==> {
                &&& r == name_ids(old(self).name2id).len()
                &&& name_ids(final(self).name2id) == name_ids(old(self).name2id).insert(name@, r)
                &&& final(self).id2name@ == old(self).id2name@.insert(r, final(self).id2name@[r])
                &&& final(self).id2name@[r]@ == name@
            },
            final(self).template_library == old(self).template_library,
            final(self).function_library == old(self).function_library,
            final(self).function_counter == old(self).function_counter,
    {
        match fx_name_get(&self.name2id, name) {
            Some(i) => i,
            None => {
                let i = fx_name_len(&self.name2id);
                fx_name_insert(&mut self.name2id, String::from_str(name), i);
                fx_insert(&mut self.id2name, i, String::from_str(name));
                i
            },
        }
    }

    /// Resets the instance counter of every function to zero.
    pub fn clear_function_counter(&mut self)
        ensures
            final(self).function_counter@.dom() == old(self).function_counter@.dom(),
            forall|k: usize| #[trigger] final(self).function_counter@.contains_key(k) ==> final(self).function_counter@[k] == 0,
            final(self).template_library == old(self).template_library,
            final(self).function_library == old(self).function_library,
            final(self).name2id == old(self).name2id,
            final(self).id2name == old(self).id2name,
    {
        let keys = fx_keys(&self.function_counter);
        let ghost dom = self.function_counter@.dom();
        let mut i: usize = 0;
        while i < keys.len()
            invariant
                i <= keys@.len(),
                keys@.to_set() == dom,
                self.function_counter@.dom() == dom,
                forall|j: int| 0 <= j < i ==> self.function_counter@[#[trigger] keys@[j]] == 0,
                self.template_library == old(self).template_library,
                self.function_library == old(self).function_library,
                self.name2id == old(self).name2id,
                self.id2name == old(self).id2name,
            decreases keys.len() - i,
        {
            proof {
                assert(keys@.to_set().contains(keys@[i as int]));
            }
            fx_insert(&mut self.function_counter, keys[i], 0);
            proof {
                assert(self.function_counter@.dom() =~= dom);
            }
            i = i + 1;
        }
        proof {
            assert forall|k: usize| #[trigger] self.function_counter@.contains_key(k) implies self.function_counter@[k] == 0 by {
                assert(keys@.to_set().contains(k));
                let j = choose|j: int| 0 <= j < keys@.len() && keys@[j] == k;
                assert(self.function_counter@[keys@[j]] == 0);
            }
        }
    }
}

} // verus!
