//! Exhaustive search for an assignment on which the trace constraints and the side
//! constraints of a circuit disagree.
use crate::bignum::{big_add, big_lt, big_neg, big_sub, BigNum};
use crate::name_map::{entries_view, lemma_entries_push, NameMap, NameSet};
use crate::name_map::{lemma_entries_absent, lemma_entries_first};
use crate::solver::utils::{
    concrete_disagreement, concrete_outcome, concrete_run, concrete_run_disagrees, extract_variables, is_vulnerable,
    lemma_same_program_trans, names_view, same_program, spec_all_hold, spec_is_vulnerable, spec_outputs_differ, vars_of_seq,
    verify_assignment, CounterExample, VerificationResult, VerificationSetting,
};
use crate::symbolic_execution::assigned_values;
use crate::symbolic_execution::SymbolicExecutor;
use crate::tables::name_ids;
use crate::symbolic_value::{values_view, SpecName, SpecValue, SymbolicName, SymbolicValue};
use std::rc::Rc;
use vstd::prelude::*;

verus! {

/// The values that the search tries for each variable: `0`, `1` and `-1` in quick mode;
/// `-range..=range` and `prime - range..prime` in heuristics mode; `0..prime` otherwise.
pub open spec fn is_candidate(setting: &VerificationSetting, x: int) -> bool {
    if setting.quick_mode {
        x == 0 || x == 1 || x == -1
    } else if setting.heuristics_mode {
        (-setting.range@ <= x <= setting.range@) || (setting.prime@ - setting.range@ <= x < setting.prime@)
    } else {
        0 <= x < setting.prime@
    }
}

/// `asg` gives every variable of `vars` (and nothing else) a candidate value, and agrees
/// with `prefix` where `prefix` gives one.
pub open spec fn completes(setting: &VerificationSetting, prefix: Map<SpecName, int>, vars: Set<SpecName>, asg: Map<SpecName, int>) -> bool {
    &&& asg.dom() == vars
    &&& forall|k: SpecName| #[trigger] asg.contains_key(k) ==> is_candidate(setting, asg[k])
    &&& forall|k: SpecName| #[trigger] prefix.contains_key(k) ==> asg.contains_key(k) && asg[k] == prefix[k]
}

/// The trace constraints hold and the side constraints fail.
pub open spec fn over_constrained(p: int, tc: Seq<SpecValue>, sc: Seq<SpecValue>, asg: Map<SpecName, int>) -> bool {
    spec_all_hold(p, tc, asg) == Some(true) && spec_all_hold(p, sc, asg) == Some(false)
}

/// The side constraints hold and the trace constraints fail.
pub open spec fn side_only(p: int, tc: Seq<SpecValue>, sc: Seq<SpecValue>, asg: Map<SpecName, int>) -> bool {
    spec_all_hold(p, tc, asg) == Some(false) && spec_all_hold(p, sc, asg) == Some(true)
}

/// No assignment that the search may reach from `prefix` is over-constrained.
pub open spec fn clear_from(setting: &VerificationSetting, tc: Seq<SpecValue>, sc: Seq<SpecValue>, vars: Set<SpecName>, prefix: Map<SpecName, int>) -> bool {
    forall|asg: Map<SpecName, int>| #[trigger] completes(setting, prefix, vars, asg) ==> !over_constrained(setting.prime@, tc, sc, asg)
}

/// No candidate assignment has the side constraints holding while the trace constraints fail,
/// so the search never needs to run the template concretely.
pub open spec fn no_side_only(setting: &VerificationSetting, tc: Seq<SpecValue>, sc: Seq<SpecValue>, vars: Set<SpecName>) -> bool {
    forall|asg: Map<SpecName, int>| #[trigger] completes(setting, Map::empty(), vars, asg) ==> !side_only(setting.prime@, tc, sc, asg)
}

/// The values an assignment binds: each variable its constant.
pub open spec fn assigned_constants(asg: Map<SpecName, int>) -> Map<SpecName, SpecValue> {
    asg.map_values(|x: int| SpecValue::Int(x))
}

/// The concrete run that checks the assignment `asg` (`concrete_run`) ends with a final
/// state, and the first one gives some assigned output signal of the template a constant
/// other than the assigned one.
pub open spec fn run_disagrees_on(e: SymbolicExecutor, setting: VerificationSetting, asg: Map<SpecName, int>) -> bool {
    let ids = name_ids(e.symbolic_library.name2id);
    let outputs = e.symbolic_library.template_library@[ids[setting.id@]].outputs@;
    &&& concrete_run(e, setting, assigned_constants(asg)) matches Some(o)
    &&& o.finals.len() > 0
    &&& exists|k: SpecName| #[trigger] asg.contains_key(k) && outputs.contains(k.name) && o.finals[0].values.contains_key(k)
        && (o.finals[0].values[k] matches SpecValue::Int(x) && x != asg[k])
}

/// Every candidate assignment that the search may reach from `prefix`, on which the side
/// constraints hold and the trace constraints fail, has a concrete run that does not
/// disagree with it, run on an executor that keeps the program of `e` (`same_program`).
pub open spec fn agrees_from(
    e: SymbolicExecutor,
    setting: &VerificationSetting,
    tc: Seq<SpecValue>,
    sc: Seq<SpecValue>,
    vars: Set<SpecName>,
    prefix: Map<SpecName, int>,
) -> bool {
    forall|asg: Map<SpecName, int>| #[trigger] completes(setting, prefix, vars, asg) && side_only(setting.prime@, tc, sc, asg)
        ==> exists|b: SymbolicExecutor| same_program(e, b) && !run_disagrees_on(b, *setting, asg)
}

/// Entries with distinct names, each binding its name in turn, bind the constants of the map
/// they denote, and disagree with a run exactly where that map does.
proof fn lemma_entries_disagreement(e: SymbolicExecutor, setting: VerificationSetting, entries: Seq<(SymbolicName, BigNum)>)
    requires
        forall|i: int, j: int| 0 <= i < entries.len() && 0 <= j < entries.len() && i != j ==> entries[i].0@ != entries[j].0@,
    ensures
        assigned_values(Map::empty(), entries) == assigned_constants(entries_view(entries)),
        concrete_disagreement(e, setting, entries) == run_disagrees_on(e, setting, entries_view(entries)),
    decreases entries.len(),
{
    let asg = entries_view(entries);
    if entries.len() > 0 {
        let s = entries.drop_last();
        let x = entries.last();
        lemma_entries_disagreement(e, setting, s);
        assert forall|j: int| 0 <= j < s.len() implies s[j].0@ != x.0@ by {
            assert(s[j] == entries[j]);
        }
        lemma_entries_push(s, x);
        assert(s.push(x) =~= entries);
        assert(assigned_values(Map::empty(), entries) =~= assigned_constants(asg));
    } else {
        assert(assigned_values(Map::empty(), entries) =~= assigned_constants(asg));
    }
    let ids = name_ids(e.symbolic_library.name2id);
    let outputs = e.symbolic_library.template_library@[ids[setting.id@]].outputs@;
    if concrete_outcome(e, setting, entries) is Some {
        let o = concrete_outcome(e, setting, entries).unwrap();
        let values = o.finals[0].values;
        if spec_outputs_differ(outputs, values, entries) {
            let j = choose|j: int| #![trigger entries[j]] 0 <= j < entries.len()
                && outputs.contains(entries[j].0.name)
                && values.contains_key(entries[j].0@)
                && (values[entries[j].0@] matches SpecValue::Int(x) && x != entries[j].1@);
            lemma_entries_first(entries, j, entries[j].0@);
            assert(asg.contains_key(entries[j].0@));
        }
        if exists|k: SpecName| #[trigger] asg.contains_key(k) && outputs.contains(k.name) && values.contains_key(k)
            && (values[k] matches SpecValue::Int(x) && x != asg[k]) {
            let k = choose|k: SpecName| #[trigger] asg.contains_key(k) && outputs.contains(k.name) && values.contains_key(k)
                && (values[k] matches SpecValue::Int(x) && x != asg[k]);
            if forall|j: int| 0 <= j < entries.len() ==> entries[j].0@ != k {
                lemma_entries_absent(entries, k);
            }
            let j = choose|j: int| 0 <= j < entries.len() && entries[j].0@ == k;
            lemma_entries_first(entries, j, k);
            assert(entries[j].0@.name == entries[j].0.name);
            assert(outputs.contains(entries[j].0.name) && values.contains_key(entries[j].0@)
                && (values[entries[j].0@] matches SpecValue::Int(x) && x != entries[j].1@));
        }
    }
}

/// Where the search agrees from `prefix` on an executor that keeps the program of `a`, it
/// agrees on `a` too.
proof fn lemma_agrees_keep(
    a: SymbolicExecutor,
    b0: SymbolicExecutor,
    setting: &VerificationSetting,
    tc: Seq<SpecValue>,
    sc: Seq<SpecValue>,
    vars: Set<SpecName>,
    prefix: Map<SpecName, int>,
)
    requires
        same_program(a, b0),
        agrees_from(b0, setting, tc, sc, vars, prefix),
    ensures
        agrees_from(a, setting, tc, sc, vars, prefix),
{
    assert forall|asg: Map<SpecName, int>| #[trigger] completes(setting, prefix, vars, asg) && side_only(setting.prime@, tc, sc, asg)
        implies exists|b: SymbolicExecutor| same_program(a, b) && !run_disagrees_on(b, *setting, asg) by {
        let b = choose|b: SymbolicExecutor| same_program(b0, b) && !run_disagrees_on(b, *setting, asg);
        lemma_same_program_trans(a, b0, b);
    }
}

/// Where the search agrees for every candidate value of `v`, it agrees from `prefix`.
proof fn lemma_agrees_by_value(
    e: SymbolicExecutor,
    setting: &VerificationSetting,
    tc: Seq<SpecValue>,
    sc: Seq<SpecValue>,
    vars: Set<SpecName>,
    prefix: Map<SpecName, int>,
    v: SpecName,
)
    requires
        vars.contains(v),
        forall|c: int| is_candidate(setting, c) ==> #[trigger] agrees_from(e, setting, tc, sc, vars, prefix.insert(v, c)),
    ensures
        agrees_from(e, setting, tc, sc, vars, prefix),
{
    assert forall|asg: Map<SpecName, int>| #[trigger] completes(setting, prefix, vars, asg) && side_only(setting.prime@, tc, sc, asg)
        implies exists|b: SymbolicExecutor| same_program(e, b) && !run_disagrees_on(b, *setting, asg) by {
        let c = asg[v];
        assert(asg.contains_key(v));
        assert(is_candidate(setting, c));
        assert(agrees_from(e, setting, tc, sc, vars, prefix.insert(v, c)));
        assert(completes(setting, prefix.insert(v, c), vars, asg));
    }
}

/// Both lists of constraints evaluate to a boolean on every assignment of candidate values.
pub open spec fn evaluable_on_candidates(setting: &VerificationSetting, tc: Seq<SpecValue>, sc: Seq<SpecValue>, vars: Set<SpecName>) -> bool {
    forall|asg: Map<SpecName, int>| #[trigger] completes(setting, Map::empty(), vars, asg)
        ==> spec_all_hold(setting.prime@, tc, asg) is Some && spec_all_hold(setting.prime@, sc, asg) is Some
}

/// No two names of the list have the same meaning.
pub open spec fn distinct_names(vars: Seq<SymbolicName>) -> bool {
    forall|i: int, j: int| 0 <= i < vars.len() && 0 <= j < vars.len() && i != j ==> vars[i]@ != vars[j]@
}

/// The entries assign, in order, candidate values to the first `n` variables.
pub open spec fn prefix_ok(setting: &VerificationSetting, vars: Seq<SymbolicName>, entries: Seq<(SymbolicName, BigNum)>, n: int) -> bool {
    &&& entries.len() == n
    &&& n <= vars.len()
    &&& forall|j: int| 0 <= j < n ==> (#[trigger] entries[j]).0@ == vars[j]@ && is_candidate(setting, entries[j].1@)
}

/// Entries that assign the first `n` distinct variables denote the map from those variables
/// to their values.
proof fn lemma_prefix_view(setting: &VerificationSetting, vars: Seq<SymbolicName>, entries: Seq<(SymbolicName, BigNum)>, n: int)
    requires
        0 <= n,
        distinct_names(vars),
        prefix_ok(setting, vars, entries, n),
    ensures
        entries_view(entries).dom() == names_view(vars.take(n)),
        forall|j: int| 0 <= j < n ==> #[trigger] entries_view(entries)[vars[j]@] == entries[j].1@,
    decreases n,
{
    if n == 0 {
        assert(entries =~= Seq::<(SymbolicName, BigNum)>::empty());
        assert(entries_view(entries).dom() =~= names_view(vars.take(n)));
    } else {
        let s = entries.drop_last();
        let e = entries.last();
        assert(prefix_ok(setting, vars, s, n - 1)) by {
            assert forall|j: int| 0 <= j < n - 1 implies (#[trigger] s[j]).0@ == vars[j]@ && is_candidate(setting, s[j].1@) by {
                assert(s[j] == entries[j]);
            }
        }
        lemma_prefix_view(setting, vars, s, n - 1);
        assert forall|j: int| 0 <= j < s.len() implies s[j].0@ != e.0@ by {
            assert(s[j] == entries[j]);
            assert(entries[n - 1].0@ == vars[n - 1]@);
        }
        lemma_entries_push(s, e);
        assert(s.push(e) =~= entries);
        assert(entries_view(entries).dom() =~= names_view(vars.take(n))) by {
            assert forall|k: SpecName| #[trigger] names_view(vars.take(n)).contains(k) <==> names_view(vars.take(n - 1)).contains(k) || k == vars[n - 1]@ by {
                let t1 = vars.take(n);
                let t0 = vars.take(n - 1);
                if names_view(t1).contains(k) {
                    let j = choose|j: int| 0 <= j < t1.len() && t1[j]@ == k;
                    if j < n - 1 {
                        assert(t0[j]@ == k);
                    }
                }
                if names_view(t0).contains(k) {
                    let j = choose|j: int| 0 <= j < t0.len() && t0[j]@ == k;
                    assert(t1[j]@ == k);
                }
                if k == vars[n - 1]@ {
                    assert(t1[n - 1]@ == k);
                }
            }
        }
        assert forall|j: int| 0 <= j < n implies #[trigger] entries_view(entries)[vars[j]@] == entries[j].1@ by {
            if j < n - 1 {
                assert(vars[j]@ != vars[n - 1]@);
                assert(entries_view(s)[vars[j]@] == s[j].1@);
                assert(s[j] == entries[j]);
            }
        }
    }
}

/// Tries one value for the variable at `index`: assigns it, searches the remaining
/// variables, and takes the value back out unless a counterexample was found.
fn try_value(
    sexe: &mut SymbolicExecutor,
    symbolic_trace: &[Rc<SymbolicValue>],
    side_constraints: &[Rc<SymbolicValue>],
    setting: &VerificationSetting,
    index: usize,
    variables: &Vec<SymbolicName>,
    assignment: &mut NameMap<BigNum>,
    value: &BigNum,
) -> (r: VerificationResult)
    requires
        old(sexe).wf(),
        setting.prime@ != 0,
        index < variables.len(),
        distinct_names(variables@),
        prefix_ok(setting, variables@, old(assignment).entries@, index as int),
        is_candidate(setting, value@),
        evaluable_on_candidates(setting, values_view(symbolic_trace@), values_view(side_constraints@), names_view(variables@)),
        name_ids(old(sexe).symbolic_library.name2id).contains_key("main"@)
            || no_side_only(setting, values_view(symbolic_trace@), values_view(side_constraints@), names_view(variables@)),
    ensures
        final(sexe).wf(),
        name_ids(final(sexe).symbolic_library.name2id).contains_key("main"@)
            || no_side_only(setting, values_view(symbolic_trace@), values_view(side_constraints@), names_view(variables@)),
        !spec_is_vulnerable(r) ==> final(assignment).entries@ == old(assignment).entries@ && clear_from(
            setting,
            values_view(symbolic_trace@),
            values_view(side_constraints@),
            names_view(variables@),
            old(assignment)@.insert(variables@[index as int]@, value@),
        ),
        spec_is_vulnerable(r) ==> found(setting, symbolic_trace@, side_constraints@, variables@, final(assignment).entries@, r)
            && final(assignment).entries@.take(index as int) == old(assignment).entries@,
        r == VerificationResult::UnderConstrained ==> concrete_run_disagrees(*final(sexe), setting.id@, final(assignment).entries@),
        same_program(*old(sexe), *final(sexe)),
        !spec_is_vulnerable(r) && setting.id@ != "__return__"@ ==> agrees_from(
            *old(sexe),
            setting,
            values_view(symbolic_trace@),
            values_view(side_constraints@),
            names_view(variables@),
            old(assignment)@.insert(variables@[index as int]@, value@),
        ),
    decreases variables@.len() - index, 0u64,
{
    let ghost prefix = assignment@;
    let ghost e = (variables@[index as int], *value);
    proof {
        lemma_prefix_view(setting, variables@, assignment.entries@, index as int);
        assert forall|j: int| 0 <= j < assignment.entries@.len() implies assignment.entries@[j].0@ != variables@[index as int]@ by {
            assert(assignment.entries@[j].0@ == variables@[j]@);
        }
    }
    let ghost before = assignment.entries@;
    assignment.entries.push((variables[index].copy(), value.copy()));
    proof {
        lemma_entries_push(before, (assignment.entries@[index as int].0, assignment.entries@[index as int].1));
        assert(before.push(assignment.entries@[index as int]) =~= assignment.entries@);
        assert(assignment@ == prefix.insert(variables@[index as int]@, value@));
        assert(prefix_ok(setting, variables@, assignment.entries@, index + 1)) by {
            assert forall|j: int| 0 <= j < index + 1 implies (#[trigger] assignment.entries@[j]).0@ == variables@[j]@ && is_candidate(setting, assignment.entries@[j].1@) by {
                if j < index {
                    assert(assignment.entries@[j] == before[j]);
                }
            }
        }
    }
    let result = search(sexe, symbolic_trace, side_constraints, setting, index + 1, variables, assignment);
    if is_vulnerable(&result) {
        proof {
            assert(assignment.entries@.take(index as int) =~= before);
        }
        return result;
    }
    assignment.entries.pop();
    proof {
        assert(assignment.entries@ =~= before);
    }
    result
}

/// A counterexample: the entries assign candidate values to all the variables, and the
/// verdict says how the constraints disagree on them.
pub open spec fn found(setting: &VerificationSetting, tc: Seq<Rc<SymbolicValue>>, sc: Seq<Rc<SymbolicValue>>, vars: Seq<SymbolicName>, entries: Seq<(SymbolicName, BigNum)>, r: VerificationResult) -> bool {
    &&& prefix_ok(setting, vars, entries, vars.len() as int)
    &&& (r == VerificationResult::OverConstrained ==> over_constrained(setting.prime@, values_view(tc), values_view(sc), entries_view(entries)))
    &&& (r == VerificationResult::UnderConstrained ==> side_only(setting.prime@, values_view(tc), values_view(sc), entries_view(entries)))
}

/// Searches the candidate values of the variables from `index` on, the earlier ones being
/// assigned; stops at the first assignment whose verdict is not well constrained.
fn search(
    sexe: &mut SymbolicExecutor,
    symbolic_trace: &[Rc<SymbolicValue>],
    side_constraints: &[Rc<SymbolicValue>],
    setting: &VerificationSetting,
    index: usize,
    variables: &Vec<SymbolicName>,
    assignment: &mut NameMap<BigNum>,
) -> (r: VerificationResult)
    requires
        old(sexe).wf(),
        setting.prime@ != 0,
        index <= variables@.len(),
        distinct_names(variables@),
        prefix_ok(setting, variables@, old(assignment).entries@, index as int),
        evaluable_on_candidates(setting, values_view(symbolic_trace@), values_view(side_constraints@), names_view(variables@)),
        name_ids(old(sexe).symbolic_library.name2id).contains_key("main"@)
            || no_side_only(setting, values_view(symbolic_trace@), values_view(side_constraints@), names_view(variables@)),
    ensures
        final(sexe).wf(),
        name_ids(final(sexe).symbolic_library.name2id).contains_key("main"@)
            || no_side_only(setting, values_view(symbolic_trace@), values_view(side_constraints@), names_view(variables@)),
        !spec_is_vulnerable(r) ==> final(assignment).entries@ == old(assignment).entries@ && clear_from(
            setting,
            values_view(symbolic_trace@),
            values_view(side_constraints@),
            names_view(variables@),
            old(assignment)@,
        ),
        spec_is_vulnerable(r) ==> found(setting, symbolic_trace@, side_constraints@, variables@, final(assignment).entries@, r)
            && final(assignment).entries@.take(index as int) == old(assignment).entries@,
        r == VerificationResult::UnderConstrained ==> concrete_run_disagrees(*final(sexe), setting.id@, final(assignment).entries@),
        same_program(*old(sexe), *final(sexe)),
        !spec_is_vulnerable(r) && setting.id@ != "__return__"@ ==> agrees_from(
            *old(sexe),
            setting,
            values_view(symbolic_trace@),
            values_view(side_constraints@),
            names_view(variables@),
            old(assignment)@,
        ),
    decreases variables@.len() - index, 1u64,
{
    let ghost tcv = values_view(symbolic_trace@);
    let ghost scv = values_view(side_constraints@);
    let ghost vars = names_view(variables@);
    let ghost prefix = assignment@;
    let ghost s0 = *sexe;
    proof {
        lemma_prefix_view(setting, variables@, assignment.entries@, index as int);
    }
    if index == variables.len() {
        proof {
            assert(variables@.take(index as int) =~= variables@);
            assert(completes(setting, Map::empty(), vars, prefix)) by {
                assert forall|k: SpecName| #[trigger] prefix.contains_key(k) implies is_candidate(setting, prefix[k]) by {
                    let j = choose|j: int| 0 <= j < variables@.len() && variables@[j]@ == k;
                    assert(prefix[variables@[j]@] == assignment.entries@[j].1@);
                }
            }
        }
        let r = verify_assignment(sexe, symbolic_trace, side_constraints, assignment, setting);
        proof {
            if !spec_is_vulnerable(r) && setting.id@ != "__return__"@ {
                let entries = assignment.entries@;
                assert forall|i: int, j: int| 0 <= i < entries.len() && 0 <= j < entries.len() && i != j
                    implies entries[i].0@ != entries[j].0@ by {
                    assert(entries[i].0@ == variables@[i]@);
                    assert(entries[j].0@ == variables@[j]@);
                }
                lemma_entries_disagreement(s0, *setting, entries);
                assert forall|asg: Map<SpecName, int>| #[trigger] completes(setting, prefix, vars, asg) && side_only(setting.prime@, tcv, scv, asg)
                    implies exists|b: SymbolicExecutor| same_program(s0, b) && !run_disagrees_on(b, *setting, asg) by {
                    assert(asg =~= prefix);
                    assert(!concrete_disagreement(s0, *setting, entries));
                    assert(same_program(s0, s0));
                }
            }
            assert(assignment.entries@.take(index as int) =~= assignment.entries@);
            assert forall|asg: Map<SpecName, int>| #[trigger] completes(setting, prefix, vars, asg) implies !over_constrained(setting.prime@, tcv, scv, asg) || spec_is_vulnerable(r) by {
                assert(asg =~= prefix);
            }
        }
        return r;
    }
    let ghost v = variables@[index as int]@;
    proof {
        assert(vars.contains(v));
    }
    if setting.quick_mode {
        let cands: Vec<BigNum> = vec![BigNum::from_i64(0), BigNum::from_i64(1), BigNum::from_i64(-1)];
        let mut t: usize = 0;
        while t < cands.len()
            invariant
                t <= cands@.len(),
                cands@.len() == 3,
                cands@[0]@ == 0,
                cands@[1]@ == 1,
                cands@[2]@ == -1,
                setting.quick_mode,
                sexe.wf(),
                same_program(s0, *sexe),
                s0 == *old(sexe),
                name_ids(sexe.symbolic_library.name2id).contains_key("main"@) || no_side_only(setting, tcv, scv, vars),
                setting.prime@ != 0,
                index < variables@.len(),
                distinct_names(variables@),
                prefix_ok(setting, variables@, assignment.entries@, index as int),
                assignment.entries@ == old(assignment).entries@,
                prefix == assignment@,
                v == variables@[index as int]@,
                tcv == values_view(symbolic_trace@),
                scv == values_view(side_constraints@),
                vars == names_view(variables@),
                evaluable_on_candidates(setting, tcv, scv, vars),
                forall|u: int| 0 <= u < t ==> #[trigger] clear_from(setting, tcv, scv, vars, prefix.insert(v, cands@[u]@)),
                setting.id@ != "__return__"@ ==> forall|u: int| 0 <= u < t ==> #[trigger] agrees_from(s0, setting, tcv, scv, vars, prefix.insert(v, cands@[u]@)),
            decreases cands.len() - t,
        {
            let ghost before = *sexe;
            let r = try_value(sexe, symbolic_trace, side_constraints, setting, index, variables, assignment, &cands[t]);
            proof {
                lemma_same_program_trans(s0, before, *sexe);
                if !spec_is_vulnerable(r) && setting.id@ != "__return__"@ {
                    lemma_agrees_keep(s0, before, setting, tcv, scv, vars, prefix.insert(v, cands@[t as int]@));
                }
            }
            if is_vulnerable(&r) {
                return r;
            }
            t = t + 1;
        }
        proof {
            assert(clear_from(setting, tcv, scv, vars, prefix.insert(v, cands@[0]@)));
            assert(clear_from(setting, tcv, scv, vars, prefix.insert(v, cands@[1]@)));
            assert(clear_from(setting, tcv, scv, vars, prefix.insert(v, cands@[2]@)));
            lemma_clear_by_value(setting, tcv, scv, vars, prefix, v);
            if setting.id@ != "__return__"@ {
                assert(agrees_from(s0, setting, tcv, scv, vars, prefix.insert(v, cands@[0]@)));
                assert(agrees_from(s0, setting, tcv, scv, vars, prefix.insert(v, cands@[1]@)));
                assert(agrees_from(s0, setting, tcv, scv, vars, prefix.insert(v, cands@[2]@)));
                lemma_agrees_by_value(s0, setting, tcv, scv, vars, prefix, v);
            }
        }
    } else if setting.heuristics_mode {
        let mut value = big_neg(&setting.range);
        let one = BigNum::from_i64(1);
        while !big_lt(&setting.range, &value)
            invariant
                !setting.quick_mode,
                setting.heuristics_mode,
                one@ == 1,
                -setting.range@ <= value@,
                sexe.wf(),
                same_program(s0, *sexe),
                s0 == *old(sexe),
                name_ids(sexe.symbolic_library.name2id).contains_key("main"@) || no_side_only(setting, tcv, scv, vars),
                setting.prime@ != 0,
                index < variables@.len(),
                distinct_names(variables@),
                prefix_ok(setting, variables@, assignment.entries@, index as int),
                assignment.entries@ == old(assignment).entries@,
                prefix == assignment@,
                v == variables@[index as int]@,
                tcv == values_view(symbolic_trace@),
                scv == values_view(side_constraints@),
                vars == names_view(variables@),
                evaluable_on_candidates(setting, tcv, scv, vars),
                forall|c: int| -setting.range@ <= c < value@ ==> #[trigger] clear_from(setting, tcv, scv, vars, prefix.insert(v, c)),
                setting.id@ != "__return__"@ ==> forall|c: int| -setting.range@ <= c < value@ ==> #[trigger] agrees_from(s0, setting, tcv, scv, vars, prefix.insert(v, c)),
            decreases setting.range@ - value@ + 1,
        {
            let ghost before = *sexe;
            let r = try_value(sexe, symbolic_trace, side_constraints, setting, index, variables, assignment, &value);
            proof {
                lemma_same_program_trans(s0, before, *sexe);
                if !spec_is_vulnerable(r) && setting.id@ != "__return__"@ {
                    lemma_agrees_keep(s0, before, setting, tcv, scv, vars, prefix.insert(v, value@));
                }
            }
            if is_vulnerable(&r) {
                return r;
            }
            value = big_add(&value, &one);
        }
        let mut value = big_sub(&setting.prime, &setting.range);
        while big_lt(&value, &setting.prime)
            invariant
                !setting.quick_mode,
                setting.heuristics_mode,
                one@ == 1,
                setting.prime@ - setting.range@ <= value@,
                sexe.wf(),
                same_program(s0, *sexe),
                s0 == *old(sexe),
                name_ids(sexe.symbolic_library.name2id).contains_key("main"@) || no_side_only(setting, tcv, scv, vars),
                setting.prime@ != 0,
                index < variables@.len(),
                distinct_names(variables@),
                prefix_ok(setting, variables@, assignment.entries@, index as int),
                assignment.entries@ == old(assignment).entries@,
                prefix == assignment@,
                v == variables@[index as int]@,
                tcv == values_view(symbolic_trace@),
                scv == values_view(side_constraints@),
                vars == names_view(variables@),
                evaluable_on_candidates(setting, tcv, scv, vars),
                forall|c: int| (-setting.range@ <= c <= setting.range@ || setting.prime@ - setting.range@ <= c < value@)
                    ==> #[trigger] clear_from(setting, tcv, scv, vars, prefix.insert(v, c)),
                setting.id@ != "__return__"@ ==> forall|c: int| (-setting.range@ <= c <= setting.range@ || setting.prime@ - setting.range@ <= c < value@)
                    ==> #[trigger] agrees_from(s0, setting, tcv, scv, vars, prefix.insert(v, c)),
            decreases setting.prime@ - value@,
        {
            let ghost before = *sexe;
            let r = try_value(sexe, symbolic_trace, side_constraints, setting, index, variables, assignment, &value);
            proof {
                lemma_same_program_trans(s0, before, *sexe);
                if !spec_is_vulnerable(r) && setting.id@ != "__return__"@ {
                    lemma_agrees_keep(s0, before, setting, tcv, scv, vars, prefix.insert(v, value@));
                }
            }
            if is_vulnerable(&r) {
                return r;
            }
            value = big_add(&value, &one);
        }
        proof {
            lemma_clear_by_value(setting, tcv, scv, vars, prefix, v);
            if setting.id@ != "__return__"@ {
                lemma_agrees_by_value(s0, setting, tcv, scv, vars, prefix, v);
            }
        }
    } else {
        let mut value = BigNum::from_i64(0);
        let one = BigNum::from_i64(1);
        while big_lt(&value, &setting.prime)
            invariant
                !setting.quick_mode,
                !setting.heuristics_mode,
                one@ == 1,
                0 <= value@,
                sexe.wf(),
                same_program(s0, *sexe),
                s0 == *old(sexe),
                name_ids(sexe.symbolic_library.name2id).contains_key("main"@) || no_side_only(setting, tcv, scv, vars),
                setting.prime@ != 0,
                index < variables@.len(),
                distinct_names(variables@),
                prefix_ok(setting, variables@, assignment.entries@, index as int),
                assignment.entries@ == old(assignment).entries@,
                prefix == assignment@,
                v == variables@[index as int]@,
                tcv == values_view(symbolic_trace@),
                scv == values_view(side_constraints@),
                vars == names_view(variables@),
                evaluable_on_candidates(setting, tcv, scv, vars),
                forall|c: int| 0 <= c < value@ ==> #[trigger] clear_from(setting, tcv, scv, vars, prefix.insert(v, c)),
                setting.id@ != "__return__"@ ==> forall|c: int| 0 <= c < value@ ==> #[trigger] agrees_from(s0, setting, tcv, scv, vars, prefix.insert(v, c)),
            decreases setting.prime@ - value@,
        {
            let ghost before = *sexe;
            let r = try_value(sexe, symbolic_trace, side_constraints, setting, index, variables, assignment, &value);
            proof {
                lemma_same_program_trans(s0, before, *sexe);
                if !spec_is_vulnerable(r) && setting.id@ != "__return__"@ {
                    lemma_agrees_keep(s0, before, setting, tcv, scv, vars, prefix.insert(v, value@));
                }
            }
            if is_vulnerable(&r) {
                return r;
            }
            value = big_add(&value, &one);
        }
        proof {
            lemma_clear_by_value(setting, tcv, scv, vars, prefix, v);
            if setting.id@ != "__return__"@ {
                lemma_agrees_by_value(s0, setting, tcv, scv, vars, prefix, v);
            }
        }
    }
    VerificationResult::WellConstrained
}

/// Where every candidate value of `v` leaves no over-constrained assignment, none is
/// reachable from `prefix` either.
proof fn lemma_clear_by_value(
    setting: &VerificationSetting,
    tc: Seq<SpecValue>,
    sc: Seq<SpecValue>,
    vars: Set<SpecName>,
    prefix: Map<SpecName, int>,
    v: SpecName,
)
    requires
        vars.contains(v),
        forall|c: int| is_candidate(setting, c) ==> #[trigger] clear_from(setting, tc, sc, vars, prefix.insert(v, c)),
    ensures
        clear_from(setting, tc, sc, vars, prefix),
{
    assert forall|asg: Map<SpecName, int>| #[trigger] completes(setting, prefix, vars, asg) implies !over_constrained(setting.prime@, tc, sc, asg) by {
        let c = asg[v];
        assert(asg.contains_key(v));
        assert(is_candidate(setting, c));
        assert(clear_from(setting, tc, sc, vars, prefix.insert(v, c)));
        assert(completes(setting, prefix.insert(v, c), vars, asg));
    }
}

/// Searches the candidate assignments of all the variables of both lists of constraints for
/// one on which they disagree: the trace holding and the side failing (over-constrained),
/// or the side holding while the trace fails and a concrete run gives some output another
/// value (under-constrained). Returns the first such assignment found; `None` where there
/// is none, in which case no candidate assignment is over-constrained, and every candidate
/// assignment on which the side constraints hold and the trace constraints fail had a
/// concrete run that did not disagree with it (`agrees_from`; the runs take place one after
/// another on the same executor, which keeps the program but may carry declared kinds over
/// from one run to the next; a template named like the return slot is left out).
pub fn brute_force_search(
    sexe: &mut SymbolicExecutor,
    symbolic_trace: &Vec<Rc<SymbolicValue>>,
    side_constraints: &Vec<Rc<SymbolicValue>>,
    setting: &VerificationSetting,
) -> (r: Option<CounterExample>)
    requires
        old(sexe).wf(),
        setting.prime@ != 0,
        evaluable_on_candidates(
            setting,
            values_view(symbolic_trace@),
            values_view(side_constraints@),
            vars_of_seq(values_view(symbolic_trace@)) + vars_of_seq(values_view(side_constraints@)),
        ),
        name_ids(old(sexe).symbolic_library.name2id).contains_key("main"@) || no_side_only(
            setting,
            values_view(symbolic_trace@),
            values_view(side_constraints@),
            vars_of_seq(values_view(symbolic_trace@)) + vars_of_seq(values_view(side_constraints@)),
        ),
    ensures
        final(sexe).wf(),
        r is None ==> clear_from(
            setting,
            values_view(symbolic_trace@),
            values_view(side_constraints@),
            vars_of_seq(values_view(symbolic_trace@)) + vars_of_seq(values_view(side_constraints@)),
            Map::empty(),
        ),
        r is None && setting.id@ != "__return__"@ ==> agrees_from(
            *old(sexe),
            setting,
            values_view(symbolic_trace@),
            values_view(side_constraints@),
            vars_of_seq(values_view(symbolic_trace@)) + vars_of_seq(values_view(side_constraints@)),
            Map::empty(),
        ),
        r matches Some(ce) ==> {
            &&& spec_is_vulnerable(ce.flag)
            &&& completes(
                setting,
                Map::empty(),
                vars_of_seq(values_view(symbolic_trace@)) + vars_of_seq(values_view(side_constraints@)),
                ce.assignment@,
            )
            &&& (ce.flag == VerificationResult::OverConstrained ==> over_constrained(
                setting.prime@,
                values_view(symbolic_trace@),
                values_view(side_constraints@),
                ce.assignment@,
            ))
            &&& (ce.flag == VerificationResult::UnderConstrained ==> side_only(
                setting.prime@,
                values_view(symbolic_trace@),
                values_view(side_constraints@),
                ce.assignment@,
            ))
            &&& (ce.flag == VerificationResult::UnderConstrained
                ==> concrete_run_disagrees(*final(sexe), setting.id@, ce.assignment.entries@))
        },
{
    let trace_variables = extract_variables(symbolic_trace.as_slice());
    let side_variables = extract_variables(side_constraints.as_slice());
    let mut set = NameSet::new();
    let mut i: usize = 0;
    while i < trace_variables.len()
        invariant
            i <= trace_variables@.len(),
            set.wf(),
            set@ == names_view(trace_variables@.take(i as int)),
        decreases trace_variables.len() - i,
    {
        set.insert(trace_variables[i].copy());
        proof {
            lemma_names_view_step(trace_variables@, i as int);
        }
        i = i + 1;
    }
    proof {
        assert(trace_variables@.take(trace_variables@.len() as int) =~= trace_variables@);
        assert(names_view(side_variables@.take(0)) =~= Set::<SpecName>::empty());
        assert(set@ =~= names_view(trace_variables@) + names_view(side_variables@.take(0)));
    }
    let mut j: usize = 0;
    while j < side_variables.len()
        invariant
            j <= side_variables@.len(),
            set.wf(),
            set@ == names_view(trace_variables@) + names_view(side_variables@.take(j as int)),
        decreases side_variables.len() - j,
    {
        set.insert(side_variables[j].copy());
        proof {
            lemma_names_view_step(side_variables@, j as int);
            assert(set@ =~= names_view(trace_variables@) + names_view(side_variables@.take(j + 1)));
        }
        j = j + 1;
    }
    let variables = set.items;
    let ghost vars = vars_of_seq(values_view(symbolic_trace@)) + vars_of_seq(values_view(side_constraints@));
    proof {
        assert(trace_variables@.take(trace_variables@.len() as int) =~= trace_variables@);
        assert(side_variables@.take(side_variables@.len() as int) =~= side_variables@);
        assert(names_view(variables@) =~= vars);
    }
    let mut assignment: NameMap<BigNum> = NameMap { entries: Vec::new() };
    let flag = search(sexe, symbolic_trace.as_slice(), side_constraints.as_slice(), setting, 0, &variables, &mut assignment);
    if is_vulnerable(&flag) {
        proof {
            lemma_prefix_view(setting, variables@, assignment.entries@, variables@.len() as int);
            assert(variables@.take(variables@.len() as int) =~= variables@);
            let m = assignment@;
            assert forall|k: SpecName| #[trigger] m.contains_key(k) implies is_candidate(setting, m[k]) by {
                let t = choose|t: int| 0 <= t < variables@.len() && variables@[t]@ == k;
                assert(m[variables@[t]@] == assignment.entries@[t].1@);
            }
        }
        Some(CounterExample { flag: flag, assignment: assignment })
    } else {
        proof {
            assert(Map::<SpecName, int>::empty() =~= entries_view(Seq::<(SymbolicName, BigNum)>::empty()));
        }
        None
    }
}

/// The names of a list's first `i + 1` items are those of its first `i` and the next one.
proof fn lemma_names_view_step(v: Seq<SymbolicName>, i: int)
    requires
        0 <= i < v.len(),
    ensures
        names_view(v.take(i + 1)) == names_view(v.take(i)).insert(v[i]@),
{
    let t1 = v.take(i + 1);
    let t0 = v.take(i);
    assert forall|k: SpecName| #[trigger] names_view(t1).contains(k) <==> names_view(t0).insert(v[i]@).contains(k) by {
        if names_view(t1).contains(k) {
            let j = choose|j: int| 0 <= j < t1.len() && t1[j]@ == k;
            if j < i {
                assert(t0[j]@ == k);
            }
        }
        if names_view(t0).contains(k) {
            let j = choose|j: int| 0 <= j < t0.len() && t0[j]@ == k;
            assert(t1[j]@ == k);
        }
        if k == v[i]@ {
            assert(t1[i]@ == k);
        }
    }
    assert(names_view(t1) =~= names_view(t0).insert(v[i]@));
}

} // verus!
