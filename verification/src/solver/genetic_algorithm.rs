//! The genetic search for a counterexample: a population of assignments, parents drawn from
//! it, children made by crossover and mutation, and the fitness that picks the member to
//! verify. An assignment has the best fitness where exactly one of the two lists of
//! constraints holds entirely.
use crate::bignum::{big_random_range, BigNum};
use crate::name_map::{lemma_entries_absent, lemma_entries_first, lemma_entries_view_same, lemma_first_occurrence, NameMap, NameSet};
use crate::random::{rand_bool, rand_index, rand_ratio};
use crate::solver::brute_force::{distinct_names, over_constrained, side_only};
use crate::solver::utils::{
    all_boolean, concrete_run_disagrees, count_satisfied_constraints, extract_variables, is_vulnerable,
    law_all_hold_iff_all_counted, names_view, spec_count_satisfied, spec_is_vulnerable, spec_outputs_differ, vars_of_seq,
    verify_assignment, CounterExample, VerificationResult, VerificationSetting,
};
use crate::symbolic_execution::SymbolicExecutor;
use crate::symbolic_value::{values_view, SpecName, SpecValue, SymbolicName, SymbolicValue};
use crate::tables::name_ids;
use rand::rngs::StdRng;
use std::rc::Rc;
use vstd::prelude::*;

verus! {

/// The assignment gives, in order, the variables of `vars` values in `-2..2`.
pub open spec fn small_assignment(vars: Seq<SymbolicName>, a: NameMap<BigNum>) -> bool {
    &&& a.entries@.len() == vars.len()
    &&& forall|j: int| 0 <= j < vars.len() ==> (#[trigger] a.entries@[j]).0@ == vars[j]@ && -2 <= a.entries@[j].1@ < 2
}

/// `size` assignments, each giving every variable a random value in `-2..2`.
pub fn initialize_population(variables: &[SymbolicName], prime: &BigNum, size: usize, rng: &mut StdRng) -> (r: Vec<NameMap<BigNum>>)
    ensures
        r@.len() == size,
        forall|i: int| 0 <= i < size ==> small_assignment(variables@, #[trigger] r@[i]),
{
    let lo = BigNum::from_i64(-2);
    let hi = BigNum::from_i64(2);
    let mut population: Vec<NameMap<BigNum>> = Vec::new();
    let mut i: usize = 0;
    while i < size
        invariant
            i <= size,
            lo@ == -2,
            hi@ == 2,
            population@.len() == i,
            forall|t: int| 0 <= t < i ==> small_assignment(variables@, #[trigger] population@[t]),
        decreases size - i,
    {
        let mut entries: Vec<(SymbolicName, BigNum)> = Vec::new();
        let mut j: usize = 0;
        while j < variables.len()
            invariant
                j <= variables@.len(),
                lo@ == -2,
                hi@ == 2,
                entries@.len() == j,
                forall|t: int| 0 <= t < j ==> (#[trigger] entries@[t]).0@ == variables@[t]@ && -2 <= entries@[t].1@ < 2,
            decreases variables.len() - j,
        {
            let v = big_random_range(rng, &lo, &hi);
            entries.push((variables[j].copy(), v));
            j = j + 1;
        }
        population.push(NameMap { entries });
        i = i + 1;
    }
    population
}

/// A member of the population, drawn at random.
pub fn selection<'a>(population: &'a [NameMap<BigNum>], rng: &mut StdRng) -> (r: &'a NameMap<BigNum>)
    requires
        population@.len() > 0,
    ensures
        exists|i: int| 0 <= i < population@.len() && *r == population@[i],
{
    let i = rand_index(rng, population.len());
    &population[i]
}

/// A child of two assignments: each variable of the first parent keeps its value there or
/// takes the second parent's, by a coin toss.
pub fn crossover(parent1: &NameMap<BigNum>, parent2: &NameMap<BigNum>, rng: &mut StdRng) -> (r: NameMap<BigNum>)
    requires
        forall|j: int| 0 <= j < parent1.entries@.len() ==> parent2@.contains_key(#[trigger] parent1.entries@[j].0@),
    ensures
        r.entries@.len() == parent1.entries@.len(),
        forall|j: int| 0 <= j < parent1.entries@.len() ==> {
            &&& (#[trigger] r.entries@[j]).0@ == parent1.entries@[j].0@
            &&& (r.entries@[j].1@ == parent1.entries@[j].1@ || r.entries@[j].1@ == parent2@[parent1.entries@[j].0@])
        },
{
    let mut entries: Vec<(SymbolicName, BigNum)> = Vec::new();
    let mut j: usize = 0;
    while j < parent1.entries.len()
        invariant
            j <= parent1.entries@.len(),
            entries@.len() == j,
            forall|t: int| 0 <= t < parent1.entries@.len() ==> parent2@.contains_key(#[trigger] parent1.entries@[t].0@),
            forall|t: int| 0 <= t < j ==> {
                &&& (#[trigger] entries@[t]).0@ == parent1.entries@[t].0@
                &&& (entries@[t].1@ == parent1.entries@[t].1@ || entries@[t].1@ == parent2@[parent1.entries@[t].0@])
            },
        decreases parent1.entries.len() - j,
    {
        let (var, val) = &parent1.entries[j];
        if rand_bool(rng) {
            entries.push((var.copy(), val.copy()));
        } else {
            proof {
                assert(parent2@.contains_key(parent1.entries@[j as int].0@));
            }
            match parent2.get(var) {
                Some(other) => entries.push((var.copy(), other.copy())),
                None => {
                    proof {
                        assert(false);
                    }
                    entries.push((var.copy(), val.copy()));
                },
            }
        }
        j = j + 1;
    }
    NameMap { entries }
}

/// Gives one variable of the assignment, drawn at random, a random value in `-2..2`.
pub fn mutate(individual: &mut NameMap<BigNum>, prime: &BigNum, rng: &mut StdRng)
    requires
        old(individual).entries@.len() > 0,
    ensures
        exists|j: int, x: int| #![trigger old(individual).entries@[j], old(individual)@.insert(old(individual).entries@[j].0@, x)]
            0 <= j < old(individual).entries@.len() && -2 <= x < 2
            && final(individual)@ == old(individual)@.insert(old(individual).entries@[j].0@, x),
        final(individual).entries@.len() == old(individual).entries@.len(),
        forall|j: int| 0 <= j < old(individual).entries@.len() ==> {
            &&& (#[trigger] final(individual).entries@[j]).0@ == old(individual).entries@[j].0@
            &&& (final(individual).entries@[j].1@ == old(individual).entries@[j].1@ || -2 <= final(individual).entries@[j].1@ < 2)
        },
{
    let j = rand_index(rng, individual.entries.len());
    let var = individual.entries[j].0.copy();
    let v = big_random_range(rng, &BigNum::from_i64(-2), &BigNum::from_i64(2));
    let ghost x = v@;
    proof {
        lemma_first_occurrence(individual.entries@, j as int, var@);
    }
    individual.insert(var, v);
    proof {
        assert(individual@ == old(individual)@.insert(old(individual).entries@[j as int].0@, x));
    }
}


/// An assignment of exactly the names `vars`, each to a value in `-2..2`.
pub open spec fn small_on(vars: Set<SpecName>, asg: Map<SpecName, int>) -> bool {
    &&& asg.dom() == vars
    &&& forall|k: SpecName| #[trigger] asg.contains_key(k) ==> -2 <= asg[k] < 2
}

/// The variables that the two lists of constraints mention.
pub open spec fn search_vars(tc: Seq<SpecValue>, sc: Seq<SpecValue>) -> Set<SpecName> {
    vars_of_seq(tc) + vars_of_seq(sc)
}

/// Every constraint of both lists evaluates to a boolean on every assignment of their
/// variables to values in `-2..2`.
pub open spec fn evaluable_on_small(p: int, tc: Seq<SpecValue>, sc: Seq<SpecValue>) -> bool {
    forall|asg: Map<SpecName, int>| #[trigger] small_on(search_vars(tc, sc), asg)
        ==> all_boolean(p, tc, asg) && all_boolean(p, sc, asg)
}

/// The best fitness an assignment can have: both lists have constraints, and exactly one of
/// them holds entirely.
pub open spec fn best_fit(p: int, tc: Seq<SpecValue>, sc: Seq<SpecValue>, asg: Map<SpecName, int>) -> bool {
    &&& tc.len() > 0
    &&& sc.len() > 0
    &&& (spec_count_satisfied(p, tc, asg) == tc.len()) != (spec_count_satisfied(p, sc, asg) == sc.len())
}

/// No assignment of the variables to values in `-2..2` has the side constraints holding while
/// the trace constraints fail, so the search never needs to run the template concretely.
pub open spec fn no_small_side_only(p: int, tc: Seq<SpecValue>, sc: Seq<SpecValue>) -> bool {
    forall|asg: Map<SpecName, int>| #[trigger] small_on(search_vars(tc, sc), asg) ==> !side_only(p, tc, sc, asg)
}

/// Whether the assignment has the best fitness: both lists have constraints, and exactly one
/// of them holds entirely.
pub fn has_best_fitness(
    prime: &BigNum,
    trace_constraints: &[Rc<SymbolicValue>],
    side_constraints: &[Rc<SymbolicValue>],
    assignment: &NameMap<BigNum>,
) -> (r: bool)
    requires
        prime@ != 0,
        all_boolean(prime@, values_view(trace_constraints@), assignment@),
        all_boolean(prime@, values_view(side_constraints@), assignment@),
    ensures
        r == best_fit(prime@, values_view(trace_constraints@), values_view(side_constraints@), assignment@),
{
    if trace_constraints.len() == 0 || side_constraints.len() == 0 {
        return false;
    }
    let t = count_satisfied_constraints(prime, trace_constraints, assignment);
    let s = count_satisfied_constraints(prime, side_constraints, assignment);
    (t == trace_constraints.len()) != (s == side_constraints.len())
}

/// A copy of an assignment, entry by entry.
fn copy_assignment(a: &NameMap<BigNum>) -> (r: NameMap<BigNum>)
    ensures
        r.entries@.len() == a.entries@.len(),
        forall|j: int| 0 <= j < a.entries@.len()
            ==> (#[trigger] r.entries@[j]).0@ == a.entries@[j].0@ && r.entries@[j].1@ == a.entries@[j].1@,
        r@ == a@,
{
    let mut entries: Vec<(SymbolicName, BigNum)> = Vec::new();
    let mut j: usize = 0;
    while j < a.entries.len()
        invariant
            j <= a.entries@.len(),
            entries@.len() == j,
            forall|t: int| 0 <= t < j ==> (#[trigger] entries@[t]).0@ == a.entries@[t].0@ && entries@[t].1@ == a.entries@[t].1@,
        decreases a.entries.len() - j,
    {
        entries.push((a.entries[j].0.copy(), a.entries[j].1.copy()));
        j = j + 1;
    }
    proof {
        lemma_entries_view_same(entries@, a.entries@);
    }
    NameMap { entries }
}

/// The variables of both lists of constraints, each once.
fn search_variables(trace_constraints: &[Rc<SymbolicValue>], side_constraints: &[Rc<SymbolicValue>]) -> (r: Vec<SymbolicName>)
    ensures
        distinct_names(r@),
        names_view(r@) == search_vars(values_view(trace_constraints@), values_view(side_constraints@)),
{
    let mut set = NameSet::new();
    let tv = extract_variables(trace_constraints);
    let sv = extract_variables(side_constraints);
    let mut i: usize = 0;
    while i < tv.len()
        invariant
            i <= tv@.len(),
            set.wf(),
            set@ == names_view(tv@.take(i as int)),
        decreases tv.len() - i,
    {
        set.insert(tv[i].copy());
        proof {
            assert(names_view(tv@.take(i + 1)) =~= names_view(tv@.take(i as int)).insert(tv@[i as int]@)) by {
                assert forall|n: SpecName| names_view(tv@.take(i + 1)).contains(n) implies names_view(tv@.take(i as int)).insert(tv@[i as int]@).contains(n) by {
                    let t = choose|t: int| 0 <= t < tv@.take(i + 1).len() && (#[trigger] tv@.take(i + 1)[t])@ == n;
                    if t < i {
                        assert(tv@.take(i as int)[t] == tv@[t]);
                    }
                }
                assert forall|n: SpecName| names_view(tv@.take(i as int)).insert(tv@[i as int]@).contains(n) implies names_view(tv@.take(i + 1)).contains(n) by {
                    if n == tv@[i as int]@ {
                        assert(tv@.take(i + 1)[i as int] == tv@[i as int]);
                    } else {
                        let t = choose|t: int| 0 <= t < tv@.take(i as int).len() && (#[trigger] tv@.take(i as int)[t])@ == n;
                        assert(tv@.take(i + 1)[t] == tv@[t]);
                    }
                }
            }
        }
        i = i + 1;
    }
    let mut k: usize = 0;
    proof {
        assert(tv@.take(tv@.len() as int) =~= tv@);
    }
    while k < sv.len()
        invariant
            k <= sv@.len(),
            set.wf(),
            set@ == names_view(tv@) + names_view(sv@.take(k as int)),
        decreases sv.len() - k,
    {
        set.insert(sv[k].copy());
        proof {
            assert(names_view(sv@.take(k + 1)) =~= names_view(sv@.take(k as int)).insert(sv@[k as int]@)) by {
                assert forall|n: SpecName| names_view(sv@.take(k + 1)).contains(n) implies names_view(sv@.take(k as int)).insert(sv@[k as int]@).contains(n) by {
                    let t = choose|t: int| 0 <= t < sv@.take(k + 1).len() && (#[trigger] sv@.take(k + 1)[t])@ == n;
                    if t < k {
                        assert(sv@.take(k as int)[t] == sv@[t]);
                    }
                }
                assert forall|n: SpecName| names_view(sv@.take(k as int)).insert(sv@[k as int]@).contains(n) implies names_view(sv@.take(k + 1)).contains(n) by {
                    if n == sv@[k as int]@ {
                        assert(sv@.take(k + 1)[k as int] == sv@[k as int]);
                    } else {
                        let t = choose|t: int| 0 <= t < sv@.take(k as int).len() && (#[trigger] sv@.take(k as int)[t])@ == n;
                        assert(sv@.take(k + 1)[t] == sv@[t]);
                    }
                }
            }
            assert(set@ =~= names_view(tv@) + names_view(sv@.take(k + 1)));
        }
        k = k + 1;
    }
    proof {
        assert(sv@.take(sv@.len() as int) =~= sv@);
        assert(names_view(set.items@) =~= set@);
    }
    set.items
}

/// An assignment that gives distinct variables, in order, values in `-2..2` denotes the map
/// from exactly those variables to those values.
proof fn lemma_small_view(vars: Seq<SymbolicName>, a: NameMap<BigNum>)
    requires
        distinct_names(vars),
        small_assignment(vars, a),
    ensures
        small_on(names_view(vars), a@),
        forall|j: int| 0 <= j < vars.len() ==> a@.contains_key(#[trigger] vars[j]@) && a@[vars[j]@] == a.entries@[j].1@,
{
    assert forall|j: int| 0 <= j < vars.len() implies a@.contains_key(#[trigger] vars[j]@) && a@[vars[j]@] == a.entries@[j].1@ by {
        assert(a.entries@[j].0@ == vars[j]@);
        assert forall|t: int| 0 <= t < j implies a.entries@[t].0@ != vars[j]@ by {
            assert(a.entries@[t].0@ == vars[t]@);
        }
        lemma_entries_first(a.entries@, j, vars[j]@);
    }
    assert forall|k: SpecName| a@.contains_key(k) implies names_view(vars).contains(k) by {
        if !names_view(vars).contains(k) {
            assert forall|t: int| 0 <= t < a.entries@.len() implies a.entries@[t].0@ != k by {
                assert(a.entries@[t].0@ == vars[t]@);
            }
            lemma_entries_absent(a.entries@, k);
        }
    }
    assert(a@.dom() =~= names_view(vars));
    assert forall|k: SpecName| #[trigger] a@.contains_key(k) implies -2 <= a@[k] < 2 by {
        let t = choose|t: int| 0 <= t < vars.len() && (#[trigger] vars[t])@ == k;
        assert(a@[vars[t]@] == a.entries@[t].1@);
    }
}


/// Searches at random for a counterexample: a population of assignments of the variables to
/// values in `-2..2` evolves for a fixed number of generations, children made by crossover
/// (half the time) and mutation (three times in ten). In each generation the last member of
/// the best fitness, where there is one, is verified; the first vulnerable verdict ends the
/// search with its assignment. `None` where no generation found one. Where the trace
/// constraints are not empty and every such assignment is over-constrained, the first
/// generation finds one.
pub fn genetic_algorithm_search(
    sexe: &mut SymbolicExecutor,
    trace_constraints: &Vec<Rc<SymbolicValue>>,
    side_constraints: &Vec<Rc<SymbolicValue>>,
    setting: &VerificationSetting,
    rng: &mut StdRng,
) -> (r: Option<CounterExample>)
    requires
        old(sexe).wf(),
        setting.prime@ != 0,
        evaluable_on_small(setting.prime@, values_view(trace_constraints@), values_view(side_constraints@)),
        name_ids(old(sexe).symbolic_library.name2id).contains_key("main"@)
            || no_small_side_only(setting.prime@, values_view(trace_constraints@), values_view(side_constraints@)),
    ensures
        final(sexe).wf(),
        r matches Some(ce) ==> {
            let (p, tc, sc) = (setting.prime@, values_view(trace_constraints@), values_view(side_constraints@));
            &&& spec_is_vulnerable(ce.flag)
            &&& small_on(search_vars(tc, sc), ce.assignment@)
            &&& best_fit(p, tc, sc, ce.assignment@)
            &&& (ce.flag == VerificationResult::OverConstrained ==> over_constrained(p, tc, sc, ce.assignment@))
            &&& (ce.flag == VerificationResult::UnderConstrained ==> side_only(p, tc, sc, ce.assignment@))
            &&& (ce.flag == VerificationResult::UnderConstrained
                ==> concrete_run_disagrees(*final(sexe), setting.id@, ce.assignment.entries@))
        },
        ({
            let (p, tc, sc) = (setting.prime@, values_view(trace_constraints@), values_view(side_constraints@));
            tc.len() > 0 && (forall|asg: Map<SpecName, int>| #[trigger] small_on(search_vars(tc, sc), asg)
                ==> over_constrained(p, tc, sc, asg)) ==> r is Some
        }),
{
    let ghost (p, tc, sc) = (setting.prime@, values_view(trace_constraints@), values_view(side_constraints@));
    let ghost all_over = tc.len() > 0 && (forall|asg: Map<SpecName, int>| #[trigger] small_on(search_vars(tc, sc), asg)
        ==> over_constrained(p, tc, sc, asg));
    let variables = search_variables(trace_constraints.as_slice(), side_constraints.as_slice());
    let population_size: usize = 100;
    let max_generations: usize = 1000;
    let mut population = initialize_population(variables.as_slice(), &setting.prime, population_size, rng);
    let mut generation: usize = 0;
    while generation < max_generations
        invariant
            sexe.wf(),
            p == setting.prime@,
            p != 0,
            tc == values_view(trace_constraints@),
            sc == values_view(side_constraints@),
            evaluable_on_small(p, tc, sc),
            name_ids(sexe.symbolic_library.name2id).contains_key("main"@) || no_small_side_only(p, tc, sc),
            population_size == 100,
            population@.len() == population_size,
            distinct_names(variables@),
            names_view(variables@) == search_vars(tc, sc),
            forall|i: int| 0 <= i < population@.len() ==> small_assignment(variables@, #[trigger] population@[i]),
            all_over == (tc.len() > 0 && (forall|asg: Map<SpecName, int>| #[trigger] small_on(search_vars(tc, sc), asg)
                ==> over_constrained(p, tc, sc, asg))),
            all_over ==> generation == 0,
        decreases max_generations - generation,
    {
        let mut next: Vec<NameMap<BigNum>> = Vec::new();
        let mut k: usize = 0;
        while k < population_size
            invariant
                k <= population_size,
                population_size == 100,
                population@.len() == population_size,
                next@.len() == k,
                distinct_names(variables@),
                forall|i: int| 0 <= i < population@.len() ==> small_assignment(variables@, #[trigger] population@[i]),
                forall|i: int| 0 <= i < next@.len() ==> small_assignment(variables@, #[trigger] next@[i]),
            decreases population_size - k,
        {
            let parent1 = selection(population.as_slice(), rng);
            let parent2 = selection(population.as_slice(), rng);
            proof {
                lemma_small_view(variables@, *parent1);
                lemma_small_view(variables@, *parent2);
            }
            let mut child = if rand_ratio(rng, 1, 2) {
                crossover(parent1, parent2, rng)
            } else {
                copy_assignment(parent1)
            };
            proof {
                assert forall|j: int| 0 <= j < variables@.len() implies
                    (#[trigger] child.entries@[j]).0@ == variables@[j]@ && -2 <= child.entries@[j].1@ < 2 by {
                    assert(parent1.entries@[j].0@ == variables@[j]@);
                    assert(parent2@[variables@[j]@] == parent2.entries@[j].1@);
                }
            }
            if rand_ratio(rng, 3, 10) && child.entries.len() > 0 {
                mutate(&mut child, &setting.prime, rng);
            }
            next.push(child);
            k = k + 1;
        }
        population = next;
        let mut best: Option<usize> = None;
        let mut i: usize = 0;
        while i < population.len()
            invariant
                i <= population@.len(),
                population@.len() == population_size,
                p == setting.prime@,
                p != 0,
                tc == values_view(trace_constraints@),
                sc == values_view(side_constraints@),
                evaluable_on_small(p, tc, sc),
                distinct_names(variables@),
                names_view(variables@) == search_vars(tc, sc),
                forall|t: int| 0 <= t < population@.len() ==> small_assignment(variables@, #[trigger] population@[t]),
                best matches Some(b) ==> b < population@.len() && best_fit(p, tc, sc, population@[b as int]@),
                all_over == (tc.len() > 0 && (forall|asg: Map<SpecName, int>| #[trigger] small_on(search_vars(tc, sc), asg)
                    ==> over_constrained(p, tc, sc, asg))),
                all_over && i > 0 ==> best is Some,
            decreases population.len() - i,
        {
            proof {
                lemma_small_view(variables@, population@[i as int]);
                assert(small_on(search_vars(tc, sc), population@[i as int]@));
                if all_over {
                    let asg = population@[i as int]@;
                    assert(over_constrained(p, tc, sc, asg));
                    law_all_hold_iff_all_counted(p, tc, asg);
                    law_all_hold_iff_all_counted(p, sc, asg);
                    assert(best_fit(p, tc, sc, asg));
                }
            }
            if has_best_fitness(&setting.prime, trace_constraints.as_slice(), side_constraints.as_slice(), &population[i]) {
                best = Some(i);
            }
            i = i + 1;
        }
        match best {
            Some(b) => {
                let ghost asg = population@[b as int]@;
                proof {
                    lemma_small_view(variables@, population@[b as int]);
                    assert(small_on(search_vars(tc, sc), asg));
                    law_all_hold_iff_all_counted(p, tc, asg);
                    law_all_hold_iff_all_counted(p, sc, asg);
                    if all_over {
                        assert(over_constrained(p, tc, sc, asg));
                    }
                }
                let flag = verify_assignment(sexe, trace_constraints.as_slice(), side_constraints.as_slice(), &population[b], setting);
                if is_vulnerable(&flag) {
                    let assignment = copy_assignment(&population[b]);
                    proof {
                        let (e1, e2) = (assignment.entries@, population@[b as int].entries@);
                        assert forall|j: int| 0 <= j < e1.len() implies (#[trigger] e1[j]).0.name == e2[j].0.name by {
                            assert(e1[j].0@ == e2[j].0@);
                        }
                        if flag == VerificationResult::UnderConstrained {
                            let outs = sexe.symbolic_library.template_library@[name_ids(sexe.symbolic_library.name2id)[setting.id@]].outputs@;
                            let vals = sexe.symbolic_store.final_states@[0].values@;
                            assert(spec_outputs_differ(outs, vals, e2));
                            let j = choose|j: int| #![trigger e2[j]] 0 <= j < e2.len() && outs.contains(e2[j].0.name)
                                && vals.contains_key(e2[j].0@)
                                && (vals[e2[j].0@] matches SpecValue::Int(x) && x != e2[j].1@);
                            assert(e1[j].0.name == e2[j].0.name);
                            assert(spec_outputs_differ(outs, vals, e1));
                        }
                    }
                    return Some(CounterExample { flag, assignment });
                }
            },
            None => {},
        }
        generation = generation + 1;
    }
    None
}

} // verus!
