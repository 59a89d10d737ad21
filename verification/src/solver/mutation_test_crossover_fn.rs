//! Crossover of two trace mutations.
use crate::random::rand_bool;
use crate::symbolic_value::SymbolicValue;
use crate::tables::{fx_get, fx_insert, fx_keys, fx_new};
use rand::rngs::StdRng;
use rustc_hash::FxHashMap;
use vstd::prelude::*;

verus! {

/// A child of two mutations: each position of the first parent keeps its value there or,
/// by a coin toss, takes the second parent's value at that position where it has one.
pub fn random_crossover(
    parent1: &FxHashMap<usize, SymbolicValue>,
    parent2: &FxHashMap<usize, SymbolicValue>,
    rng: &mut StdRng,
) -> (r: FxHashMap<usize, SymbolicValue>)
    ensures
        r@.dom() == parent1@.dom(),
        forall|k: usize| #[trigger] r@.contains_key(k) ==> r@[k]@ == parent1@[k]@
            || (parent2@.contains_key(k) && r@[k]@ == parent2@[k]@),
{
    let keys = fx_keys(parent1);
    let mut child: FxHashMap<usize, SymbolicValue> = fx_new();
    let mut i: usize = 0;
    while i < keys.len()
        invariant
            i <= keys@.len(),
            keys@.to_set() == parent1@.dom(),
            keys@.no_duplicates(),
            child@.dom() == keys@.take(i as int).to_set(),
            forall|k: usize| #[trigger] child@.contains_key(k) ==> child@[k]@ == parent1@[k]@
                || (parent2@.contains_key(k) && child@[k]@ == parent2@[k]@),
        decreases keys.len() - i,
    {
        let k = keys[i];
        proof {
            assert(keys@.to_set().contains(k));
        }
        let own = match fx_get(parent1, k) {
            Some(v) => v,
            None => {
                proof {
                    assert(false);
                }
                i = i + 1;
                continue;
            },
        };
        let take_own = rand_bool(rng);
        let v = if take_own {
            own.copy()
        } else {
            match fx_get(parent2, k) {
                Some(w) => w.copy(),
                None => own.copy(),
            }
        };
        fx_insert(&mut child, k, v);
        proof {
            assert(keys@.take(i + 1) =~= keys@.take(i as int).push(k));
            keys@.take(i as int).lemma_push_to_set_commute(k);
        }
        i = i + 1;
    }
    proof {
        assert(keys@.take(keys@.len() as int) =~= keys@);
    }
    child
}

} // verus!
