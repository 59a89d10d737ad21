//! Evaluation of constraints under an assignment, and the variables they mention.
use crate::arith::{fold_bool_binop, fold_int_binop, fold_int_constants, binop_defined};
use crate::ast::{DebugExpression, ExpressionInfixOpcode, ExpressionPrefixOpcode, VariableType};
use crate::bignum::{big_eq, big_lt, big_neg, big_rem, trunc_rem, BigNum};
use crate::name_map::{entry_or_empty, names_in, NameMap, NameSet};
use crate::symbolic_execution::{
    assigned_frame, assigned_values, bound_arguments, frames_of, kind_flags, kinds_of, library_kept, operator_arguments,
    fold_seq, pending_of, run_list, spec_fold, template_context, template_types, Frame, Outcome, RunContext, SymbolicExecutor,
};
use crate::symbolic_value::{value_view, values_view, OwnerName, SpecName, SpecValue, SymbolicName, SymbolicValue};
use crate::tables::{fx_get, fx_name_get, name_ids};
use std::rc::Rc;
use vstd::prelude::*;

verus! {

/// The result of a constraint verification process.
#[derive(Clone, Copy, Debug, PartialEq, Eq, Structural)]
pub enum VerificationResult {
    UnderConstrained,
    OverConstrained,
    WellConstrained,
}

/// A counterexample: the kind of inconsistency and the assignment that shows it.
#[derive(Debug)]
pub struct CounterExample {
    pub flag: VerificationResult,
    pub assignment: NameMap<BigNum>,
}

/// Whether a verification result indicates a vulnerability.
pub open spec fn spec_is_vulnerable(vr: VerificationResult) -> bool {
    vr != VerificationResult::WellConstrained
}

/// Determines if a given verification result indicates a vulnerability.
pub fn is_vulnerable(vr: &VerificationResult) -> (r: bool)
    ensures
        r == spec_is_vulnerable(*vr),
{
    match vr {
        VerificationResult::UnderConstrained => true,
        VerificationResult::OverConstrained => true,
        VerificationResult::WellConstrained => false,
    }
}

/// The variables that a value mentions (the accesses of a variable are not searched).
pub open spec fn vars_of(v: SpecValue) -> Set<SpecName>
    decreases v,
{
    match v {
        SpecValue::Var(n) => set![n],
        SpecValue::BinaryOp(l, _, r) => vars_of(*l) + vars_of(*r),
        SpecValue::Assign(l, r) => vars_of(*l) + vars_of(*r),
        SpecValue::Conditional(c, t, e) => vars_of(*c) + vars_of(*t) + vars_of(*e),
        SpecValue::UnaryOp(_, e) => vars_of(*e),
        SpecValue::Array(es) => vars_of_seq(es),
        SpecValue::Tuple(es) => vars_of_seq(es),
        SpecValue::UniformArray(e, s) => vars_of(*e) + vars_of(*s),
        SpecValue::Call(_, es) => vars_of_seq(es),
        _ => Set::empty(),
    }
}

/// The variables that a sequence of values mentions.
pub open spec fn vars_of_seq(es: Seq<SpecValue>) -> Set<SpecName>
    decreases es,
{
    if es.len() == 0 {
        Set::empty()
    } else {
        vars_of_seq(es.drop_last()) + vars_of(es.last())
    }
}

/// Two tables of values agree on the names of `s`: each has a value for such a name exactly
/// when the other has, and then the same one.
pub open spec fn agree_on(a: Map<SpecName, SpecValue>, b: Map<SpecName, SpecValue>, s: Set<SpecName>) -> bool {
    forall|n: SpecName| #[trigger] s.contains(n) ==> a.contains_key(n) == b.contains_key(n) && (a.contains_key(n) ==> a[n] == b[n])
}

proof fn lemma_agree_sub(a: Map<SpecName, SpecValue>, b: Map<SpecName, SpecValue>, s: Set<SpecName>, t: Set<SpecName>)
    requires
        agree_on(a, b, s),
        t.subset_of(s),
    ensures
        agree_on(a, b, t),
{
    assert forall|n: SpecName| #[trigger] t.contains(n) implies a.contains_key(n) == b.contains_key(n) && (a.contains_key(n) ==> a[n] == b[n]) by {
        assert(s.contains(n));
    }
}

/// Folding a value reads the table of values only at the variables extracted from it: two
/// tables that agree on those variables fold it alike, whatever they hold elsewhere. So every
/// variable that folding can replace, in any part of the value (the condition of a
/// conditional included), is among the extracted ones.
pub proof fn law_fold_reads_only_extracted(
    p: int,
    a: Map<SpecName, SpecValue>,
    b: Map<SpecName, SpecValue>,
    types: Map<usize, VariableType>,
    v: SpecValue,
    only_constant: bool,
)
    requires
        agree_on(a, b, vars_of(v)),
    ensures
        spec_fold(p, a, types, v, only_constant) == spec_fold(p, b, types, v, only_constant),
    decreases v,
{
    match v {
        SpecValue::Var(n) => {
            assert(vars_of(v).contains(n));
        },
        SpecValue::BinaryOp(l, _, r) => {
            lemma_agree_sub(a, b, vars_of(v), vars_of(*l));
            lemma_agree_sub(a, b, vars_of(v), vars_of(*r));
            law_fold_reads_only_extracted(p, a, b, types, *l, only_constant);
            law_fold_reads_only_extracted(p, a, b, types, *r, only_constant);
        },
        SpecValue::Conditional(c, t, e) => {
            lemma_agree_sub(a, b, vars_of(v), vars_of(*c));
            lemma_agree_sub(a, b, vars_of(v), vars_of(*t));
            lemma_agree_sub(a, b, vars_of(v), vars_of(*e));
            law_fold_reads_only_extracted(p, a, b, types, *c, only_constant);
            law_fold_reads_only_extracted(p, a, b, types, *t, only_constant);
            law_fold_reads_only_extracted(p, a, b, types, *e, only_constant);
        },
        SpecValue::UnaryOp(_, e) => {
            law_fold_reads_only_extracted(p, a, b, types, *e, only_constant);
        },
        SpecValue::Array(es) => {
            law_fold_seq_reads_only_extracted(p, a, b, types, es, only_constant);
        },
        SpecValue::Tuple(es) => {
            law_fold_seq_reads_only_extracted(p, a, b, types, es, only_constant);
        },
        SpecValue::UniformArray(e, c) => {
            lemma_agree_sub(a, b, vars_of(v), vars_of(*e));
            lemma_agree_sub(a, b, vars_of(v), vars_of(*c));
            law_fold_reads_only_extracted(p, a, b, types, *e, only_constant);
            law_fold_reads_only_extracted(p, a, b, types, *c, only_constant);
        },
        SpecValue::Call(_, es) => {
            law_fold_seq_reads_only_extracted(p, a, b, types, es, only_constant);
        },
        _ => {},
    }
}

/// Folding a list of values reads the table of values only at the variables extracted from
/// the list.
pub proof fn law_fold_seq_reads_only_extracted(
    p: int,
    a: Map<SpecName, SpecValue>,
    b: Map<SpecName, SpecValue>,
    types: Map<usize, VariableType>,
    es: Seq<SpecValue>,
    only_constant: bool,
)
    requires
        agree_on(a, b, vars_of_seq(es)),
    ensures
        fold_seq(p, a, types, es, only_constant) == fold_seq(p, b, types, es, only_constant),
    decreases es,
{
    if es.len() > 0 {
        lemma_agree_sub(a, b, vars_of_seq(es), vars_of_seq(es.drop_last()));
        lemma_agree_sub(a, b, vars_of_seq(es), vars_of(es.last()));
        law_fold_seq_reads_only_extracted(p, a, b, types, es.drop_last(), only_constant);
        law_fold_reads_only_extracted(p, a, b, types, es.last(), only_constant);
    }
}

/// Evaluation reads the assignment only at the variables extracted from the value: two
/// assignments that agree on them give the same value, whatever they hold elsewhere.
pub proof fn law_eval_reads_only_extracted(p: int, v: SpecValue, a: Map<SpecName, int>, b: Map<SpecName, int>)
    requires
        forall|n: SpecName| #[trigger] vars_of(v).contains(n) ==> a.contains_key(n) == b.contains_key(n) && (a.contains_key(n) ==> a[n] == b[n]),
    ensures
        spec_eval(p, v, a) == spec_eval(p, v, b),
    decreases v,
{
    match v {
        SpecValue::Var(n) => {
            assert(vars_of(v).contains(n));
        },
        SpecValue::BinaryOp(l, _, r) => {
            assert forall|n: SpecName| #[trigger] vars_of(*l).contains(n) implies a.contains_key(n) == b.contains_key(n) && (a.contains_key(n) ==> a[n] == b[n]) by {
                assert(vars_of(v).contains(n));
            }
            assert forall|n: SpecName| #[trigger] vars_of(*r).contains(n) implies a.contains_key(n) == b.contains_key(n) && (a.contains_key(n) ==> a[n] == b[n]) by {
                assert(vars_of(v).contains(n));
            }
            law_eval_reads_only_extracted(p, *l, a, b);
            law_eval_reads_only_extracted(p, *r, a, b);
        },
        SpecValue::Assign(l, r) => {
            assert forall|n: SpecName| #[trigger] vars_of(*l).contains(n) implies a.contains_key(n) == b.contains_key(n) && (a.contains_key(n) ==> a[n] == b[n]) by {
                assert(vars_of(v).contains(n));
            }
            assert forall|n: SpecName| #[trigger] vars_of(*r).contains(n) implies a.contains_key(n) == b.contains_key(n) && (a.contains_key(n) ==> a[n] == b[n]) by {
                assert(vars_of(v).contains(n));
            }
            law_eval_reads_only_extracted(p, *l, a, b);
            law_eval_reads_only_extracted(p, *r, a, b);
        },
        SpecValue::UnaryOp(_, e) => {
            assert forall|n: SpecName| #[trigger] vars_of(*e).contains(n) implies a.contains_key(n) == b.contains_key(n) && (a.contains_key(n) ==> a[n] == b[n]) by {
                assert(vars_of(v).contains(n));
            }
            law_eval_reads_only_extracted(p, *e, a, b);
        },
        _ => {},
    }
}

/// Evaluation needs every extracted variable: where the assignment leaves one of them out,
/// the value has no value.
pub proof fn law_eval_needs_extracted(p: int, v: SpecValue, asg: Map<SpecName, int>, n: SpecName)
    requires
        vars_of(v).contains(n),
        !asg.contains_key(n),
    ensures
        spec_eval(p, v, asg) is None,
    decreases v,
{
    match v {
        SpecValue::BinaryOp(l, _, r) => {
            if vars_of(*l).contains(n) {
                law_eval_needs_extracted(p, *l, asg, n);
            } else {
                law_eval_needs_extracted(p, *r, asg, n);
            }
        },
        SpecValue::Assign(l, r) => {
            if vars_of(*l).contains(n) {
                law_eval_needs_extracted(p, *l, asg, n);
            } else {
                law_eval_needs_extracted(p, *r, asg, n);
            }
        },
        SpecValue::UnaryOp(_, e) => {
            law_eval_needs_extracted(p, *e, asg, n);
        },
        _ => {},
    }
}

/// The names that a vector holds.
pub open spec fn names_view(v: Seq<SymbolicName>) -> Set<SpecName> {
    Set::new(|n: SpecName| exists|i: int| 0 <= i < v.len() && v[i]@ == n)
}

proof fn lemma_vars_of_seq_step(es: Seq<SpecValue>, i: int)
    requires
        0 <= i < es.len(),
    ensures
        vars_of_seq(es.take(i + 1)) == vars_of_seq(es.take(i)) + vars_of(es[i]),
{
    assert(es.take(i + 1).drop_last() =~= es.take(i));
}

/// Recursively extracts the variables that a symbolic value mentions into `variables`.
pub fn extract_variables_from_symbolic_value(value: &SymbolicValue, variables: &mut NameSet)
    requires
        old(variables).wf(),
    ensures
        final(variables).wf(),
        final(variables)@ == old(variables)@ + vars_of(value@),
    decreases value,
{
    match value {
        SymbolicValue::Variable(name) => {
            variables.insert(name.copy());
            proof {
                assert(vars_of(value@) =~= set![name@]);
            }
        },
        SymbolicValue::Assign(lhs, rhs) => {
            extract_variables_from_symbolic_value(lhs, variables);
            extract_variables_from_symbolic_value(rhs, variables);
            proof {
                assert(final(variables)@ =~= old(variables)@ + vars_of(value@));
            }
        },
        SymbolicValue::BinaryOp(lhs, _, rhs) => {
            extract_variables_from_symbolic_value(lhs, variables);
            extract_variables_from_symbolic_value(rhs, variables);
            proof {
                assert(final(variables)@ =~= old(variables)@ + vars_of(value@));
            }
        },
        SymbolicValue::Conditional(cond, if_true, if_false) => {
            extract_variables_from_symbolic_value(cond, variables);
            extract_variables_from_symbolic_value(if_true, variables);
            extract_variables_from_symbolic_value(if_false, variables);
            proof {
                assert(final(variables)@ =~= old(variables)@ + vars_of(value@));
            }
        },
        SymbolicValue::UnaryOp(_, expr) => {
            extract_variables_from_symbolic_value(expr, variables);
        },
        SymbolicValue::Array(elements) | SymbolicValue::Tuple(elements) | SymbolicValue::Call(_, elements) => {
            let ghost es = values_view(elements@);
            proof {
                assert(vars_of(value@) == vars_of_seq(es)) by {
                    match value {
                        SymbolicValue::Array(_) => assert(value@->Array_0 =~= es),
                        SymbolicValue::Tuple(_) => assert(value@->Tuple_0 =~= es),
                        SymbolicValue::Call(_, _) => assert(value@->Call_1 =~= es),
                        _ => {},
                    }
                }
                assert(es.take(0) =~= Seq::<SpecValue>::empty());
                assert(old(variables)@ + vars_of_seq(es.take(0)) =~= old(variables)@);
            }
            let mut i: usize = 0;
            while i < elements.len()
                invariant
                    i <= elements@.len(),
                    es == values_view(elements@),
                    variables.wf(),
                    variables@ == old(variables)@ + vars_of_seq(es.take(i as int)),
                    forall|j: int| 0 <= j < elements@.len() ==> decreases_to!(value => elements@[j]),
                decreases elements.len() - i,
            {
                extract_variables_from_symbolic_value(&elements[i], variables);
                proof {
                    lemma_vars_of_seq_step(es, i as int);
                    assert(variables@ =~= old(variables)@ + vars_of_seq(es.take(i + 1)));
                }
                i = i + 1;
            }
            proof {
                assert(es.take(elements@.len() as int) =~= es);
            }
        },
        SymbolicValue::UniformArray(elem, size) => {
            extract_variables_from_symbolic_value(elem, variables);
            extract_variables_from_symbolic_value(size, variables);
            proof {
                assert(final(variables)@ =~= old(variables)@ + vars_of(value@));
            }
        },
        _ => {
            proof {
                assert(final(variables)@ =~= old(variables)@ + vars_of(value@));
            }
        },
    }
}

/// Extracts all unique variable names referenced in a set of constraints.
pub fn extract_variables(constraints: &[Rc<SymbolicValue>]) -> (r: Vec<SymbolicName>)
    ensures
        names_view(r@) == vars_of_seq(values_view(constraints@)),
        forall|i: int, j: int| 0 <= i < r@.len() && 0 <= j < r@.len() && i != j ==> r@[i]@ != r@[j]@,
{
    let ghost es = values_view(constraints@);
    let mut variables = NameSet::new();
    proof {
        assert(es.take(0) =~= Seq::<SpecValue>::empty());
        assert(variables@ =~= vars_of_seq(es.take(0)));
    }
    let mut i: usize = 0;
    while i < constraints.len()
        invariant
            i <= constraints@.len(),
            es == values_view(constraints@),
            variables.wf(),
            variables@ == vars_of_seq(es.take(i as int)),
        decreases constraints.len() - i,
    {
        extract_variables_from_symbolic_value(&constraints[i], &mut variables);
        proof {
            lemma_vars_of_seq_step(es, i as int);
            assert(variables@ =~= vars_of_seq(es.take(i + 1)));
        }
        i = i + 1;
    }
    proof {
        assert(es.take(constraints@.len() as int) =~= es);
        assert(names_view(variables.items@) =~= variables@);
    }
    variables.items
}

/// The graph with every two distinct names of `vars` linked both ways.
pub open spec fn link_all(g: Map<SpecName, Set<SpecName>>, vars: Set<SpecName>) -> Map<SpecName, Set<SpecName>> {
    Map::new(
        |k: SpecName| g.contains_key(k) || (vars.contains(k) && exists|x: SpecName| vars.contains(x) && x != k),
        |k: SpecName| if vars.contains(k) { entry_or_empty(g, k) + vars.remove(k) } else { g[k] },
    )
}

/// The graph after one value: an assignment makes its target depend on the variables of
/// its right side; a binary or unary operation links the variables it mentions.
pub open spec fn dep_step(g: Map<SpecName, Set<SpecName>>, v: SpecValue) -> Map<SpecName, Set<SpecName>> {
    match v {
        SpecValue::Assign(l, r) => match *l {
            SpecValue::Var(n) => g.insert(n, entry_or_empty(g, n) + vars_of(*r)),
            _ => g,
        },
        SpecValue::BinaryOp(l, _, r) => link_all(g, vars_of(*l) + vars_of(*r)),
        SpecValue::UnaryOp(_, e) => link_all(g, vars_of(*e)),
        _ => g,
    }
}

/// The graph after the values of a sequence, in order.
pub open spec fn dep_graph(g: Map<SpecName, Set<SpecName>>, vs: Seq<SpecValue>) -> Map<SpecName, Set<SpecName>>
    decreases vs.len(),
{
    if vs.len() == 0 {
        g
    } else {
        dep_step(dep_graph(g, vs.drop_last()), vs.last())
    }
}

/// The values that a dependency graph takes: assignments to a variable, binary and unary
/// operations.
pub open spec fn dep_input(v: SpecValue) -> bool {
    match v {
        SpecValue::Assign(l, _) => *l is Var,
        SpecValue::BinaryOp(..) => true,
        SpecValue::UnaryOp(..) => true,
        _ => false,
    }
}

/// `link_all` on the names of a prefix of the list only.
spec fn link_prefix(g: Map<SpecName, Set<SpecName>>, vars: Set<SpecName>, ks: Seq<SymbolicName>) -> Map<SpecName, Set<SpecName>> {
    Map::new(
        |k: SpecName| g.contains_key(k) || names_view(ks).contains(k),
        |k: SpecName| if names_view(ks).contains(k) { entry_or_empty(g, k) + vars.remove(k) } else { g[k] },
    )
}

/// Links every two distinct names of `vars` both ways in `graph`.
fn link_names(graph: &mut NameMap<NameSet>, vars: &NameSet)
    requires
        vars.wf(),
    ensures
        final(graph)@ == link_all(old(graph)@, vars@),
{
    let ghost g0 = graph@;
    let n = vars.items.len();
    if n < 2 {
        proof {
            assert forall|k: SpecName| vars@.contains(k) implies !(exists|x: SpecName| vars@.contains(x) && x != k) by {
                assert(vars.items@[0]@ == k);
            }
            assert forall|k: SpecName| #[trigger] g0.contains_key(k) && vars@.contains(k) implies entry_or_empty(g0, k) + vars@.remove(k) == g0[k] by {
                assert(vars@.remove(k) =~= Set::<SpecName>::empty()) by {
                    assert forall|x: SpecName| !vars@.remove(k).contains(x) by {
                        if vars@.contains(x) {
                            assert(vars.items@[0]@ == x);
                            assert(vars.items@[0]@ == k);
                        }
                    }
                }
                assert(entry_or_empty(g0, k) + vars@.remove(k) =~= g0[k]);
            }
            assert(link_all(g0, vars@) =~= g0);
        }
        return;
    }
    proof {
        assert(names_view(vars.items@.take(0)) =~= Set::<SpecName>::empty());
        assert(link_prefix(g0, vars@, vars.items@.take(0)) =~= g0);
    }
    let mut i: usize = 0;
    while i < n
        invariant
            i <= n,
            n == vars.items@.len(),
            n >= 2,
            vars.wf(),
            graph@ == link_prefix(g0, vars@, vars.items@.take(i as int)),
        decreases n - i,
    {
        let ghost before = graph@;
        let ghost ki = vars.items@[i as int]@;
        graph.union_into(&vars.items[i], &vars.items, true);
        proof {
            assert(names_in(vars.items@, ki, true) =~= vars@.remove(ki)) by {
                assert forall|x: SpecName| #[trigger] vars@.remove(ki).contains(x) implies names_in(vars.items@, ki, true).contains(x) by {
                    let j = choose|j: int| 0 <= j < vars.items@.len() && vars.items@[j]@ == x;
                    assert(vars.items@[j]@ == x);
                }
            }
            assert(!names_view(vars.items@.take(i as int)).contains(ki)) by {
                if names_view(vars.items@.take(i as int)).contains(ki) {
                    let j = choose|j: int| 0 <= j < vars.items@.take(i as int).len() && vars.items@.take(i as int)[j]@ == ki;
                    assert(vars.items@[j]@ == ki);
                }
            }
            assert(entry_or_empty(before, ki) == entry_or_empty(g0, ki));
            let t1 = vars.items@.take(i + 1);
            let t0 = vars.items@.take(i as int);
            assert forall|k: SpecName| #[trigger] names_view(t1).contains(k) <==> names_view(t0).contains(k) || k == ki by {
                if names_view(t1).contains(k) {
                    let j = choose|j: int| 0 <= j < t1.len() && #[trigger] t1[j]@ == k;
                    if j < i {
                        assert(t0[j]@ == k);
                    }
                }
                if names_view(t0).contains(k) {
                    let j = choose|j: int| 0 <= j < t0.len() && #[trigger] t0[j]@ == k;
                    assert(t1[j]@ == k);
                }
                if k == ki {
                    assert(t1[i as int]@ == k);
                }
            }
            assert(graph@ =~= link_prefix(g0, vars@, vars.items@.take(i + 1)));
        }
        i = i + 1;
    }
    proof {
        assert(vars.items@.take(n as int) =~= vars.items@);
        assert(names_view(vars.items@) =~= vars@);
        assert forall|k: SpecName| vars@.contains(k) implies exists|x: SpecName| vars@.contains(x) && x != k by {
            assert(vars@.contains(vars.items@[0]@));
            assert(vars@.contains(vars.items@[1]@));
            assert(vars.items@[0]@ != vars.items@[1]@);
        }
        assert(graph@ =~= link_all(g0, vars@));
    }
}

/// Builds the dependency graph of a list of values into `graph`: an assignment adds the
/// variables of its right side to the entry of its target; a binary or unary operation links
/// each two distinct variables it mentions, both ways.
pub fn get_dependency_graph(values: &[Rc<SymbolicValue>], graph: &mut NameMap<NameSet>)
    requires
        forall|i: int| 0 <= i < values@.len() ==> dep_input(#[trigger] values_view(values@)[i]),
    ensures
        final(graph)@ == dep_graph(old(graph)@, values_view(values@)),
{
    let ghost vs = values_view(values@);
    let ghost g0 = graph@;
    proof {
        assert(vs.take(0) =~= Seq::<SpecValue>::empty());
    }
    let mut i: usize = 0;
    while i < values.len()
        invariant
            i <= values@.len(),
            vs == values_view(values@),
            forall|j: int| 0 <= j < values@.len() ==> dep_input(#[trigger] vs[j]),
            graph@ == dep_graph(g0, vs.take(i as int)),
        decreases values.len() - i,
    {
        proof {
            assert(vs.take(i + 1).drop_last() =~= vs.take(i as int));
            assert(vs.take(i + 1).last() == vs[i as int]);
            assert(vs[i as int] == value_view(&values@[i as int]));
            assert(dep_input(vs[i as int]));
        }
        let ghost before = graph@;
        match &*values[i] {
            SymbolicValue::Assign(lhs, rhs) => {
                proof {
                    assert(vs[i as int] == SpecValue::Assign(Box::new(value_view(lhs)), Box::new(value_view(rhs))));
                }
                match &**lhs {
                    SymbolicValue::Variable(name) => {
                        let mut vars = NameSet::new();
                        extract_variables_from_symbolic_value(rhs, &mut vars);
                        graph.union_into(name, &vars.items, false);
                        proof {
                            assert(names_in(vars.items@, name@, false) =~= vars@);
                            assert(vars@ =~= vars_of(rhs@));
                            assert(graph@ == dep_step(before, vs[i as int]));
                        }
                    },
                    _ => {
                        proof {
                            assert(false);
                        }
                    },
                }
            },
            SymbolicValue::BinaryOp(lhs, op, rhs) => {
                let mut vars = NameSet::new();
                extract_variables_from_symbolic_value(lhs, &mut vars);
                extract_variables_from_symbolic_value(rhs, &mut vars);
                link_names(graph, &vars);
                proof {
                    assert(vars@ =~= vars_of(lhs@) + vars_of(rhs@));
                    assert(vs[i as int] == SpecValue::BinaryOp(Box::new(value_view(lhs)), op.0, Box::new(value_view(rhs))));
                    assert(graph@ == dep_step(before, vs[i as int]));
                }
            },
            SymbolicValue::UnaryOp(_, expr) => {
                let mut vars = NameSet::new();
                extract_variables_from_symbolic_value(expr, &mut vars);
                link_names(graph, &vars);
                proof {
                    assert(vars@ =~= vars_of(expr@));
                    assert(graph@ == dep_step(before, vs[i as int]));
                }
            },
            _ => {
                proof {
                    assert(false);
                }
            },
        }
        i = i + 1;
    }
    proof {
        assert(vs.take(values@.len() as int) =~= vs);
    }
}

/// Whether a value mentions any variable at all. The name argument plays no part: the
/// variable case compares the bound name with itself.
pub fn is_contain_key(value: &SymbolicValue, name: &SymbolicName) -> (r: bool)
    ensures
        r == (vars_of(value@) != Set::<SpecName>::empty()),
    decreases value,
{
    let mut vars = NameSet::new();
    extract_variables_from_symbolic_value(value, &mut vars);
    let r = vars.items.len() > 0;
    proof {
        if r {
            assert(vars@.contains(vars.items@[0]@));
        } else {
            assert(vars@ =~= Set::<SpecName>::empty());
        }
        assert(vars@ =~= vars_of(value@));
    }
    r
}

/// Whether an operator compares two numbers.
pub open spec fn is_comparison(op: ExpressionInfixOpcode) -> bool {
    match op {
        ExpressionInfixOpcode::Lesser | ExpressionInfixOpcode::Greater | ExpressionInfixOpcode::LesserEq
        | ExpressionInfixOpcode::GreaterEq | ExpressionInfixOpcode::Eq | ExpressionInfixOpcode::NotEq => true,
        _ => false,
    }
}

/// The value of a binary operator on two evaluated operands, or `None` where evaluation stops.
pub open spec fn eval_binop(op: ExpressionInfixOpcode, l: SpecValue, r: SpecValue, p: int) -> Option<SpecValue> {
    match (l, r) {
        (SpecValue::Int(a), SpecValue::Int(b)) => if binop_defined(op, l, r) {
            fold_int_binop(op, a, b, p)
        } else {
            None
        },
        (SpecValue::Bool(a), SpecValue::Bool(b)) => fold_bool_binop(op, a, b),
        _ => None,
    }
}

/// The value of a unary operator on an evaluated operand, or `None` where evaluation stops.
pub open spec fn eval_unop(op: ExpressionPrefixOpcode, e: SpecValue) -> Option<SpecValue> {
    match (e, op) {
        (SpecValue::Int(v), ExpressionPrefixOpcode::Sub) => Some(SpecValue::Int(-v)),
        (SpecValue::Bool(b), ExpressionPrefixOpcode::BoolNot) => Some(SpecValue::Bool(!b)),
        _ => None,
    }
}

/// The value of a symbolic value under an assignment of its variables, modulo `p`;
/// `None` where evaluation stops (an unassigned variable, an operator that has no value on
/// its operands, or a form that is not evaluated).
pub open spec fn spec_eval(p: int, v: SpecValue, asg: Map<SpecName, int>) -> Option<SpecValue>
    decreases v,
{
    match v {
        SpecValue::Bool(_) => Some(v),
        SpecValue::Int(_) => Some(v),
        SpecValue::Var(n) => if asg.contains_key(n) {
            Some(SpecValue::Int(asg[n]))
        } else {
            None
        },
        SpecValue::Assign(l, r) => match (spec_eval(p, *l, asg), spec_eval(p, *r, asg)) {
            (Some(SpecValue::Int(a)), Some(SpecValue::Int(b))) => Some(
                SpecValue::Bool(trunc_rem(a, p) == trunc_rem(b, p)),
            ),
            _ => None,
        },
        SpecValue::BinaryOp(l, op, r) => match (spec_eval(p, *l, asg), spec_eval(p, *r, asg)) {
            (Some(a), Some(b)) => eval_binop(op, a, b, p),
            _ => None,
        },
        SpecValue::UnaryOp(op, e) => match spec_eval(p, *e, asg) {
            Some(a) => eval_unop(op, a),
            None => None,
        },
        _ => None,
    }
}

/// Evaluates a symbolic value given a variable assignment, modulo `prime`.
pub fn evaluate_symbolic_value(prime: &BigNum, value: &SymbolicValue, assignment: &NameMap<BigNum>) -> (r: SymbolicValue)
    requires
        prime@ != 0,
        spec_eval(prime@, value@, assignment@) is Some,
    ensures
        Some(r@) == spec_eval(prime@, value@, assignment@),
    decreases value,
{
    match value {
        SymbolicValue::ConstantBool(_) => value.copy(),
        SymbolicValue::ConstantInt(_) => value.copy(),
        SymbolicValue::Variable(name) => {
            match assignment.get(name) {
                Some(v) => SymbolicValue::ConstantInt(v.copy()),
                None => {
                    proof {
                        assert(false);
                    }
                    SymbolicValue::ConstantBool(false)
                },
            }
        },
        SymbolicValue::Assign(lhs, rhs) => {
            let lhs_val = evaluate_symbolic_value(prime, lhs, assignment);
            let rhs_val = evaluate_symbolic_value(prime, rhs, assignment);
            match (&lhs_val, &rhs_val) {
                (SymbolicValue::ConstantInt(lv), SymbolicValue::ConstantInt(rv)) => {
                    SymbolicValue::ConstantBool(big_eq(&big_rem(lv, prime), &big_rem(rv, prime)))
                },
                _ => {
                    proof {
                        assert(false);
                    }
                    SymbolicValue::ConstantBool(false)
                },
            }
        },
        SymbolicValue::BinaryOp(lhs, op, rhs) => {
            let lhs_val = evaluate_symbolic_value(prime, lhs, assignment);
            let rhs_val = evaluate_symbolic_value(prime, rhs, assignment);
            let folded = match (&lhs_val, &rhs_val) {
                (SymbolicValue::ConstantInt(lv), SymbolicValue::ConstantInt(rv)) => fold_int_constants(
                    lv,
                    rv,
                    prime,
                    op.0,
                ),
                (SymbolicValue::ConstantBool(lv), SymbolicValue::ConstantBool(rv)) => match op.0 {
                    ExpressionInfixOpcode::BoolAnd => Some(SymbolicValue::ConstantBool(*lv && *rv)),
                    ExpressionInfixOpcode::BoolOr => Some(SymbolicValue::ConstantBool(*lv || *rv)),
                    _ => None,
                },
                _ => None,
            };
            match folded {
                Some(v) => v,
                None => {
                    proof {
                        assert(false);
                    }
                    SymbolicValue::ConstantBool(false)
                },
            }
        },
        SymbolicValue::UnaryOp(op, expr) => {
            let expr_val = evaluate_symbolic_value(prime, expr, assignment);
            match (&expr_val, op.0) {
                (SymbolicValue::ConstantInt(rv), ExpressionPrefixOpcode::Sub) => {
                    SymbolicValue::ConstantInt(big_neg(rv))
                },
                (SymbolicValue::ConstantBool(rv), ExpressionPrefixOpcode::BoolNot) => {
                    SymbolicValue::ConstantBool(!*rv)
                },
                _ => {
                    proof {
                        assert(false);
                    }
                    SymbolicValue::ConstantBool(false)
                },
            }
        },
        _ => {
            proof {
                assert(false);
            }
            SymbolicValue::ConstantBool(false)
        },
    }
}

/// Whether all constraints hold, evaluated in order and stopping at the first that fails;
/// `None` where evaluation stops or a constraint is not a boolean.
pub open spec fn spec_all_hold(p: int, cs: Seq<SpecValue>, asg: Map<SpecName, int>) -> Option<bool>
    decreases cs.len(),
{
    if cs.len() == 0 {
        Some(true)
    } else {
        match spec_eval(p, cs[0], asg) {
            Some(SpecValue::Bool(b)) => if !b {
                Some(false)
            } else {
                spec_all_hold(p, cs.drop_first(), asg)
            },
            _ => None,
        }
    }
}

proof fn lemma_all_hold_skip(p: int, cs: Seq<SpecValue>, asg: Map<SpecName, int>, i: int)
    requires
        0 <= i < cs.len(),
        spec_eval(p, cs[i], asg) == Some(SpecValue::Bool(true)),
    ensures
        spec_all_hold(p, cs.skip(i), asg) == spec_all_hold(p, cs.skip(i + 1), asg),
{
    assert(cs.skip(i)[0] == cs[i]);
    assert(cs.skip(i).drop_first() =~= cs.skip(i + 1));
}

/// Evaluates a set of constraints given a variable assignment: whether all are satisfied.
pub fn evaluate_constraints(prime: &BigNum, constraints: &[Rc<SymbolicValue>], assignment: &NameMap<BigNum>) -> (r: bool)
    requires
        prime@ != 0,
        spec_all_hold(prime@, values_view(constraints@), assignment@) is Some,
    ensures
        r == spec_all_hold(prime@, values_view(constraints@), assignment@).unwrap(),
{
    let ghost cs = values_view(constraints@);
    proof {
        assert(cs.skip(0) =~= cs);
    }
    let mut i: usize = 0;
    while i < constraints.len()
        invariant
            i <= constraints@.len(),
            prime@ != 0,
            cs == values_view(constraints@),
            spec_all_hold(prime@, cs.skip(i as int), assignment@) == spec_all_hold(prime@, cs, assignment@),
            spec_all_hold(prime@, cs, assignment@) is Some,
        decreases constraints.len() - i,
    {
        proof {
            assert(cs.skip(i as int)[0] == cs[i as int]);
            assert(cs[i as int] == value_view(&constraints@[i as int]));
        }
        let sv = evaluate_symbolic_value(prime, &constraints[i], assignment);
        match sv {
            SymbolicValue::ConstantBool(b) => {
                if !b {
                    return false;
                }
                proof {
                    lemma_all_hold_skip(prime@, cs, assignment@, i as int);
                }
            },
            _ => {
                proof {
                    assert(false);
                }
            },
        }
        i = i + 1;
    }
    proof {
        assert(cs.skip(constraints@.len() as int) =~= Seq::<SpecValue>::empty());
    }
    true
}

/// Whether every constraint evaluates to a boolean.
pub open spec fn all_boolean(p: int, cs: Seq<SpecValue>, asg: Map<SpecName, int>) -> bool {
    forall|i: int| 0 <= i < cs.len() ==> (#[trigger] spec_eval(p, cs[i], asg) matches Some(SpecValue::Bool(_)))
}

/// The number of constraints that evaluate to `true`.
pub open spec fn spec_count_satisfied(p: int, cs: Seq<SpecValue>, asg: Map<SpecName, int>) -> nat
    decreases cs.len(),
{
    if cs.len() == 0 {
        0
    } else {
        spec_count_satisfied(p, cs.drop_last(), asg) + if spec_eval(p, cs.last(), asg) == Some(SpecValue::Bool(true)) {
            1nat
        } else {
            0nat
        }
    }
}

/// Every constraint of the list evaluates to `true`.
pub open spec fn every_true(p: int, cs: Seq<SpecValue>, asg: Map<SpecName, int>) -> bool {
    forall|i: int| 0 <= i < cs.len() ==> #[trigger] spec_eval(p, cs[i], asg) == Some(SpecValue::Bool(true))
}

proof fn lemma_count_full(p: int, cs: Seq<SpecValue>, asg: Map<SpecName, int>)
    requires
        all_boolean(p, cs, asg),
    ensures
        spec_count_satisfied(p, cs, asg) <= cs.len(),
        (spec_count_satisfied(p, cs, asg) == cs.len()) == every_true(p, cs, asg),
    decreases cs.len(),
{
    if cs.len() > 0 {
        let init = cs.drop_last();
        assert(all_boolean(p, init, asg)) by {
            assert forall|i: int| 0 <= i < init.len() implies (#[trigger] spec_eval(p, init[i], asg) matches Some(SpecValue::Bool(_))) by {
                assert(init[i] == cs[i]);
            }
        }
        lemma_count_full(p, init, asg);
        assert(spec_eval(p, cs[cs.len() - 1], asg) matches Some(SpecValue::Bool(_)));
        if every_true(p, cs, asg) {
            assert forall|i: int| 0 <= i < init.len() implies #[trigger] spec_eval(p, init[i], asg) == Some(SpecValue::Bool(true)) by {
                assert(init[i] == cs[i]);
            }
            assert(spec_eval(p, cs.last(), asg) == Some(SpecValue::Bool(true)));
        } else if every_true(p, init, asg) {
            let k = choose|k: int| 0 <= k < cs.len() && spec_eval(p, cs[k], asg) != Some(SpecValue::Bool(true));
            if k < cs.len() - 1 {
                assert(init[k] == cs[k]);
            }
            assert(spec_eval(p, cs.last(), asg) != Some(SpecValue::Bool(true)));
        }
    }
}

proof fn lemma_all_hold_every(p: int, cs: Seq<SpecValue>, asg: Map<SpecName, int>)
    requires
        all_boolean(p, cs, asg),
    ensures
        spec_all_hold(p, cs, asg) == Some(every_true(p, cs, asg)),
    decreases cs.len(),
{
    if cs.len() > 0 {
        let rest = cs.drop_first();
        assert(all_boolean(p, rest, asg)) by {
            assert forall|i: int| 0 <= i < rest.len() implies (#[trigger] spec_eval(p, rest[i], asg) matches Some(SpecValue::Bool(_))) by {
                assert(rest[i] == cs[i + 1]);
            }
        }
        lemma_all_hold_every(p, rest, asg);
        assert(spec_eval(p, cs[0], asg) matches Some(SpecValue::Bool(_)));
        if every_true(p, cs, asg) {
            assert forall|i: int| 0 <= i < rest.len() implies #[trigger] spec_eval(p, rest[i], asg) == Some(SpecValue::Bool(true)) by {
                assert(rest[i] == cs[i + 1]);
            }
        } else if spec_eval(p, cs[0], asg) == Some(SpecValue::Bool(true)) {
            let k = choose|k: int| 0 <= k < cs.len() && spec_eval(p, cs[k], asg) != Some(SpecValue::Bool(true));
            assert(k > 0);
            assert(rest[k - 1] == cs[k]);
        }
    }
}

/// A list of constraints, each evaluating to a boolean, all holds exactly when every one
/// of them is counted as satisfied.
pub proof fn law_all_hold_iff_all_counted(p: int, cs: Seq<SpecValue>, asg: Map<SpecName, int>)
    requires
        all_boolean(p, cs, asg),
    ensures
        spec_count_satisfied(p, cs, asg) <= cs.len(),
        spec_all_hold(p, cs, asg) == Some(spec_count_satisfied(p, cs, asg) == cs.len()),
{
    lemma_count_full(p, cs, asg);
    lemma_all_hold_every(p, cs, asg);
}

/// A list of constraints, each evaluating to a boolean, all holds exactly when every one of
/// them evaluates to `true`.
pub proof fn law_all_hold_iff_every_true(p: int, cs: Seq<SpecValue>, asg: Map<SpecName, int>)
    requires
        all_boolean(p, cs, asg),
    ensures
        spec_all_hold(p, cs, asg) == Some(every_true(p, cs, asg)),
{
    lemma_all_hold_every(p, cs, asg);
}

/// Whether a constraint evaluates to `true` under the assignment.
pub open spec fn satisfied_by(p: int, asg: Map<SpecName, int>) -> spec_fn(SpecValue) -> bool {
    |c: SpecValue| spec_eval(p, c, asg) == Some(SpecValue::Bool(true))
}

/// The number of satisfied constraints is the number of constraints of the list that
/// evaluate to `true`, wherever they stand in it: the length of the list filtered by
/// satisfaction.
pub proof fn law_count_is_number_satisfied(p: int, cs: Seq<SpecValue>, asg: Map<SpecName, int>)
    ensures
        spec_count_satisfied(p, cs, asg) == cs.filter(satisfied_by(p, asg)).len(),
    decreases cs.len(),
{
    reveal(Seq::filter);
    if cs.len() > 0 {
        law_count_is_number_satisfied(p, cs.drop_last(), asg);
    }
}

/// Counting over two lists one after the other adds their counts: a constraint that fails
/// does not keep the ones after it from being counted.
pub proof fn law_count_adds(p: int, a: Seq<SpecValue>, b: Seq<SpecValue>, asg: Map<SpecName, int>)
    ensures
        spec_count_satisfied(p, a + b, asg) == spec_count_satisfied(p, a, asg) + spec_count_satisfied(p, b, asg),
    decreases b.len(),
{
    if b.len() == 0 {
        assert(a + b =~= a);
    } else {
        law_count_adds(p, a, b.drop_last(), asg);
        assert((a + b).drop_last() =~= a + b.drop_last());
        assert((a + b).last() == b.last());
    }
}

/// Counts the number of satisfied constraints given a variable assignment.
pub fn count_satisfied_constraints(prime: &BigNum, constraints: &[Rc<SymbolicValue>], assignment: &NameMap<BigNum>) -> (r: usize)
    requires
        prime@ != 0,
        all_boolean(prime@, values_view(constraints@), assignment@),
    ensures
        r == spec_count_satisfied(prime@, values_view(constraints@), assignment@),
{
    let ghost cs = values_view(constraints@);
    let mut count: usize = 0;
    let mut i: usize = 0;
    proof {
        assert(cs.take(0) =~= Seq::<SpecValue>::empty());
    }
    while i < constraints.len()
        invariant
            i <= constraints@.len(),
            prime@ != 0,
            cs == values_view(constraints@),
            all_boolean(prime@, cs, assignment@),
            count == spec_count_satisfied(prime@, cs.take(i as int), assignment@),
            count <= i,
        decreases constraints.len() - i,
    {
        proof {
            assert(cs[i as int] == value_view(&constraints@[i as int]));
            assert(spec_eval(prime@, cs[i as int], assignment@) matches Some(SpecValue::Bool(_)));
            assert(cs.take(i + 1).drop_last() =~= cs.take(i as int));
            assert(cs.take(i + 1).last() == cs[i as int]);
        }
        let sv = evaluate_symbolic_value(prime, &constraints[i], assignment);
        match sv {
            SymbolicValue::ConstantBool(b) => {
                if b {
                    count = count + 1;
                }
            },
            _ => {
                proof {
                    assert(false);
                }
            },
        }
        i = i + 1;
    }
    proof {
        assert(cs.take(constraints@.len() as int) =~= cs);
    }
    count
}

/// The truth value of a comparison or boolean constraint under an assignment, or `None`
/// where evaluation stops.
pub open spec fn spec_constraint_flag(p: int, v: SpecValue, asg: Map<SpecName, int>) -> Option<bool> {
    match v {
        SpecValue::BinaryOp(l, op, r) => match (spec_eval(p, *l, asg), spec_eval(p, *r, asg)) {
            (Some(SpecValue::Int(a)), Some(SpecValue::Int(b))) => if is_comparison(op) {
                match fold_int_binop(op, a, b, p) {
                    Some(SpecValue::Bool(f)) => Some(f),
                    _ => None,
                }
            } else {
                None
            },
            (Some(SpecValue::Bool(a)), Some(SpecValue::Bool(b))) => match fold_bool_binop(op, a, b) {
                Some(SpecValue::Bool(f)) => Some(f),
                _ => None,
            },
            _ => None,
        },
        SpecValue::UnaryOp(op, e) => match spec_eval(p, *e, asg) {
            Some(SpecValue::Bool(b)) => if op == ExpressionPrefixOpcode::BoolNot {
                Some(!b)
            } else {
                None
            },
            _ => None,
        },
        _ => None,
    }
}

/// Runs a trace in order: an assignment `x = e` stores the value of `e` for `x`, a
/// constraint is checked and the run stops with `false` at the first one that fails.
/// `None` where evaluation stops.
pub open spec fn spec_emulate(p: int, vs: Seq<SpecValue>, asg: Map<SpecName, int>) -> Option<(bool, Map<SpecName, int>)>
    decreases vs.len(),
{
    if vs.len() == 0 {
        Some((true, asg))
    } else {
        match vs[0] {
            SpecValue::Bool(b) => if !b {
                Some((false, asg))
            } else {
                spec_emulate(p, vs.drop_first(), asg)
            },
            SpecValue::Assign(l, r) => match (*l, spec_eval(p, *r, asg)) {
                (SpecValue::Var(n), Some(SpecValue::Int(x))) => spec_emulate(p, vs.drop_first(), asg.insert(n, x)),
                _ => None,
            },
            SpecValue::BinaryOp(_, _, _) | SpecValue::UnaryOp(_, _) => match spec_constraint_flag(p, vs[0], asg) {
                Some(f) => if !f {
                    Some((false, asg))
                } else {
                    spec_emulate(p, vs.drop_first(), asg)
                },
                None => None,
            },
            _ => None,
        }
    }
}

/// Emulation stops at the first constraint that fails: what follows it in the trace is not
/// looked at, neither the assignments nor the constraints.
pub proof fn law_emulate_stops_at_false(p: int, vs: Seq<SpecValue>, rest: Seq<SpecValue>, asg: Map<SpecName, int>)
    requires
        spec_emulate(p, vs, asg) matches Some((false, _)),
    ensures
        spec_emulate(p, vs + rest, asg) == spec_emulate(p, vs, asg),
    decreases vs.len(),
{
    assert(vs.len() > 0);
    let whole = vs + rest;
    assert(whole[0] == vs[0]);
    assert(whole.drop_first() =~= vs.drop_first() + rest);
    match vs[0] {
        SpecValue::Bool(b) => {
            if b {
                law_emulate_stops_at_false(p, vs.drop_first(), rest, asg);
            }
        },
        SpecValue::Assign(l, r) => {
            if let (SpecValue::Var(n), Some(SpecValue::Int(x))) = (*l, spec_eval(p, *r, asg)) {
                law_emulate_stops_at_false(p, vs.drop_first(), rest, asg.insert(n, x));
            }
        },
        SpecValue::BinaryOp(_, _, _) | SpecValue::UnaryOp(_, _) => {
            if spec_constraint_flag(p, vs[0], asg) == Some(true) {
                law_emulate_stops_at_false(p, vs.drop_first(), rest, asg);
            }
        },
        _ => {},
    }
}

/// A trace made of one comparison or boolean constraint holds exactly when the constraint
/// evaluates to `true`; emulating it assigns nothing.
pub proof fn law_emulate_one_constraint(p: int, c: SpecValue, asg: Map<SpecName, int>, b: bool)
    requires
        c is BinaryOp || c is UnaryOp,
        spec_eval(p, c, asg) == Some(SpecValue::Bool(b)),
    ensures
        spec_emulate(p, seq![c], asg) == Some((b, asg)),
{
    assert(seq![c].drop_first() =~= Seq::<SpecValue>::empty());
    assert(spec_emulate(p, Seq::<SpecValue>::empty(), asg) == Some((true, asg)));
    assert(seq![c][0] == c);
    assert(spec_constraint_flag(p, c, asg) == Some(b));
}

/// A comparison of two operands that evaluate to the integers `x` and `y` holds, in a trace
/// of that one constraint, exactly when the same comparison holds between `x % p` and
/// `y % p`; it evaluates to that truth value too.
pub proof fn law_emulate_comparison(p: int, l: SpecValue, r: SpecValue, asg: Map<SpecName, int>, x: int, y: int)
    requires
        p != 0,
        spec_eval(p, l, asg) == Some(SpecValue::Int(x)),
        spec_eval(p, r, asg) == Some(SpecValue::Int(y)),
    ensures
        spec_eval(p, SpecValue::BinaryOp(Box::new(l), ExpressionInfixOpcode::Lesser, Box::new(r)), asg)
            == Some(SpecValue::Bool(trunc_rem(x, p) < trunc_rem(y, p))),
        spec_eval(p, SpecValue::BinaryOp(Box::new(l), ExpressionInfixOpcode::Greater, Box::new(r)), asg)
            == Some(SpecValue::Bool(trunc_rem(x, p) > trunc_rem(y, p))),
        spec_eval(p, SpecValue::BinaryOp(Box::new(l), ExpressionInfixOpcode::LesserEq, Box::new(r)), asg)
            == Some(SpecValue::Bool(trunc_rem(x, p) <= trunc_rem(y, p))),
        spec_eval(p, SpecValue::BinaryOp(Box::new(l), ExpressionInfixOpcode::GreaterEq, Box::new(r)), asg)
            == Some(SpecValue::Bool(trunc_rem(x, p) >= trunc_rem(y, p))),
        spec_eval(p, SpecValue::BinaryOp(Box::new(l), ExpressionInfixOpcode::Eq, Box::new(r)), asg)
            == Some(SpecValue::Bool(trunc_rem(x, p) == trunc_rem(y, p))),
        spec_eval(p, SpecValue::BinaryOp(Box::new(l), ExpressionInfixOpcode::NotEq, Box::new(r)), asg)
            == Some(SpecValue::Bool(trunc_rem(x, p) != trunc_rem(y, p))),
        spec_emulate(p, seq![SpecValue::BinaryOp(Box::new(l), ExpressionInfixOpcode::GreaterEq, Box::new(r))], asg)
            == Some((trunc_rem(x, p) >= trunc_rem(y, p), asg)),
        spec_emulate(p, seq![SpecValue::BinaryOp(Box::new(l), ExpressionInfixOpcode::Lesser, Box::new(r))], asg)
            == Some((trunc_rem(x, p) < trunc_rem(y, p), asg)),
{
    law_emulate_one_constraint(p, SpecValue::BinaryOp(Box::new(l), ExpressionInfixOpcode::GreaterEq, Box::new(r)), asg,
        trunc_rem(x, p) >= trunc_rem(y, p));
    law_emulate_one_constraint(p, SpecValue::BinaryOp(Box::new(l), ExpressionInfixOpcode::Lesser, Box::new(r)), asg,
        trunc_rem(x, p) < trunc_rem(y, p));
}

/// An assignment `x = e` at the head of a trace, `e` evaluating to the integer `v`, runs the
/// rest of the trace with `x` given `v`.
pub proof fn law_emulate_assignment(p: int, n: SpecName, e: SpecValue, rest: Seq<SpecValue>, asg: Map<SpecName, int>, v: int)
    requires
        spec_eval(p, e, asg) == Some(SpecValue::Int(v)),
    ensures
        spec_emulate(p, seq![SpecValue::Assign(Box::new(SpecValue::Var(n)), Box::new(e))] + rest, asg)
            == spec_emulate(p, rest, asg.insert(n, v)),
{
    let t = seq![SpecValue::Assign(Box::new(SpecValue::Var(n)), Box::new(e))] + rest;
    assert(t[0] == SpecValue::Assign(Box::new(SpecValue::Var(n)), Box::new(e)));
    assert(t.drop_first() =~= rest);
}

/// A negated constraint holds exactly when the constraint it negates evaluates to `false`:
/// emulating `!e` gives the opposite verdict of `e`'s value.
pub proof fn law_emulate_negation(p: int, e: SpecValue, asg: Map<SpecName, int>, b: bool)
    requires
        spec_eval(p, e, asg) == Some(SpecValue::Bool(b)),
    ensures
        spec_emulate(p, seq![SpecValue::UnaryOp(ExpressionPrefixOpcode::BoolNot, Box::new(e))], asg) == Some((!b, asg)),
{
    let t = seq![SpecValue::UnaryOp(ExpressionPrefixOpcode::BoolNot, Box::new(e))];
    assert(t.drop_first() =~= Seq::<SpecValue>::empty());
    assert(spec_emulate(p, Seq::<SpecValue>::empty(), asg) == Some((true, asg)));
    assert(t[0] == SpecValue::UnaryOp(ExpressionPrefixOpcode::BoolNot, Box::new(e)));
    assert(spec_constraint_flag(p, t[0], asg) == Some(!b));
}

/// Runs a trace of assignments and constraints, storing the assigned values into
/// `assignment`; returns whether every constraint met on the way holds.
pub fn emulate_symbolic_values(prime: &BigNum, values: &[Rc<SymbolicValue>], assignment: &mut NameMap<BigNum>) -> (r: bool)
    requires
        prime@ != 0,
        spec_emulate(prime@, values_view(values@), old(assignment)@) is Some,
    ensures
        spec_emulate(prime@, values_view(values@), old(assignment)@) == Some((r, final(assignment)@)),
{
    let ghost vs = values_view(values@);
    proof {
        assert(vs.skip(0) =~= vs);
    }
    let mut i: usize = 0;
    while i < values.len()
        invariant
            i <= values@.len(),
            prime@ != 0,
            vs == values_view(values@),
            spec_emulate(prime@, vs.skip(i as int), assignment@) == spec_emulate(prime@, vs, old(assignment)@),
            spec_emulate(prime@, vs, old(assignment)@) is Some,
        decreases values.len() - i,
    {
        let ghost cur = vs.skip(i as int);
        proof {
            assert(cur[0] == vs[i as int]);
            assert(vs[i as int] == value_view(&values@[i as int]));
            assert(cur.drop_first() =~= vs.skip(i + 1));
        }
        let value: &SymbolicValue = &values[i];
        match value {
            SymbolicValue::ConstantBool(b) => {
                if !*b {
                    return false;
                }
            },
            SymbolicValue::Assign(lhs, rhs) => {
                proof {
                    assert(cur[0] == SpecValue::Assign(Box::new(value_view(lhs)), Box::new(value_view(rhs))));
                }
                match &**lhs {
                    SymbolicValue::Variable(name) => {
                        let rhs_val = evaluate_symbolic_value(prime, rhs, assignment);
                        match &rhs_val {
                            SymbolicValue::ConstantInt(num) => {
                                assignment.insert(name.copy(), num.copy());
                            },
                            _ => {
                                proof {
                                    assert(false);
                                }
                            },
                        }
                    },
                    _ => {
                        proof {
                            assert(false);
                        }
                    },
                }
            },
            SymbolicValue::BinaryOp(lhs, op, rhs) => {
                let lhs_val = evaluate_symbolic_value(prime, lhs, assignment);
                let rhs_val = evaluate_symbolic_value(prime, rhs, assignment);
                let flag = match (&lhs_val, &rhs_val) {
                    (SymbolicValue::ConstantInt(lv), SymbolicValue::ConstantInt(rv)) => {
                        let lm = big_rem(lv, prime);
                        let rm = big_rem(rv, prime);
                        match op.0 {
                            ExpressionInfixOpcode::Lesser => big_lt(&lm, &rm),
                            ExpressionInfixOpcode::Greater => big_lt(&rm, &lm),
                            ExpressionInfixOpcode::LesserEq => !big_lt(&rm, &lm),
                            ExpressionInfixOpcode::GreaterEq => !big_lt(&lm, &rm),
                            ExpressionInfixOpcode::Eq => big_eq(&lm, &rm),
                            ExpressionInfixOpcode::NotEq => !big_eq(&lm, &rm),
                            _ => {
                                proof {
                                    assert(false);
                                }
                                false
                            },
                        }
                    },
                    (SymbolicValue::ConstantBool(lv), SymbolicValue::ConstantBool(rv)) => {
                        match op.0 {
                            ExpressionInfixOpcode::BoolAnd => *lv && *rv,
                            ExpressionInfixOpcode::BoolOr => *lv || *rv,
                            _ => {
                                proof {
                                    assert(false);
                                }
                                false
                            },
                        }
                    },
                    _ => {
                        proof {
                            assert(false);
                        }
                        false
                    },
                };
                if !flag {
                    return false;
                }
            },
            SymbolicValue::UnaryOp(op, expr) => {
                let expr_val = evaluate_symbolic_value(prime, expr, assignment);
                let flag = match (&expr_val, op.0) {
                    (SymbolicValue::ConstantBool(rv), ExpressionPrefixOpcode::BoolNot) => !*rv,
                    _ => {
                        proof {
                            assert(false);
                        }
                        false
                    },
                };
                if !flag {
                    return false;
                }
            },
            _ => {
                proof {
                    assert(false);
                }
            },
        }
        i = i + 1;
    }
    proof {
        assert(vs.skip(values@.len() as int) =~= Seq::<SpecValue>::empty());
    }
    true
}

/// The settings of a verification run.
#[derive(Debug)]
pub struct VerificationSetting {
    pub id: String,
    pub prime: BigNum,
    pub range: BigNum,
    pub quick_mode: bool,
    pub heuristics_mode: bool,
    pub progress_interval: usize,
    pub template_param_names: Vec<String>,
    pub template_param_values: Vec<DebugExpression>,
}

/// Whether some entry of the assignment names an output signal (by its identifier in
/// `outputs`) whose value in `values` is an integer constant other than the assigned one.
pub open spec fn spec_outputs_differ(outputs: Seq<usize>, values: Map<SpecName, SpecValue>, entries: Seq<(SymbolicName, BigNum)>) -> bool {
    exists|j: int| #![trigger entries[j]]
        0 <= j < entries.len()
        && outputs.contains(entries[j].0.name)
        && values.contains_key(entries[j].0@)
        && (values[entries[j].0@] matches SpecValue::Int(x) && x != entries[j].1@)
}

/// Whether a concrete run of the template `id` left the executor without an error and with a
/// final state that gives some output signal of the template a constant other than the one
/// the assignment gives it.
pub open spec fn concrete_run_disagrees(sexe: SymbolicExecutor, id: Seq<char>, entries: Seq<(SymbolicName, BigNum)>) -> bool {
    let ids = name_ids(sexe.symbolic_library.name2id);
    &&& sexe.symbolic_store.error is None
    &&& sexe.symbolic_store.final_states@.len() > 0
    &&& ids.contains_key(id)
    &&& sexe.symbolic_library.template_library@.contains_key(ids[id])
    &&& spec_outputs_differ(
        sexe.symbolic_library.template_library@[ids[id]].outputs@,
        sexe.symbolic_store.final_states@[0].values@,
        entries,
    )
}

/// Whether the concrete run disagrees with the assignment on an output signal: some
/// assigned name is an output whose computed value is a constant other than the assigned
/// one.
pub fn outputs_differ(outputs: &Vec<usize>, values: &NameMap<Rc<SymbolicValue>>, assignment: &NameMap<BigNum>) -> (r: bool)
    ensures
        r == spec_outputs_differ(outputs@, values@, assignment.entries@),
{
    let mut j: usize = 0;
    while j < assignment.entries.len()
        invariant
            j <= assignment.entries@.len(),
            forall|t: int| #![trigger assignment.entries@[t]] 0 <= t < j ==> !(
                outputs@.contains(assignment.entries@[t].0.name)
                && values@.contains_key(assignment.entries@[t].0@)
                && (values@[assignment.entries@[t].0@] matches SpecValue::Int(x) && x != assignment.entries@[t].1@)),
        decreases assignment.entries.len() - j,
    {
        let (k, v) = &assignment.entries[j];
        let mut is_output = false;
        let mut o: usize = 0;
        while o < outputs.len()
            invariant
                o <= outputs@.len(),
                is_output == (exists|t: int| 0 <= t < o && outputs@[t] == k.name),
            decreases outputs.len() - o,
        {
            if outputs[o] == k.name {
                is_output = true;
            }
            o = o + 1;
        }
        proof {
            assert(is_output == outputs@.contains(k.name));
        }
        if is_output {
            match values.get(k) {
                Some(stored) => {
                    match &**stored {
                        SymbolicValue::ConstantInt(num) => {
                            if !big_eq(num, v) {
                                return true;
                            }
                        },
                        _ => {},
                    }
                },
                None => {},
            }
        }
        j = j + 1;
    }
    false
}

/// The concrete run that checks a side-only assignment, the assignment being given as the
/// values it binds (`assign`): from a cleared executor, under the owner `main`, with the
/// template's parameters bound to the setting's arguments (operator expressions on names the
/// table knows) and then the assigned values bound over them, the body of the template
/// `setting.id` runs as `run_list` says. The declared kinds are those the executor holds.
/// `None` where one of these does not hold or the body is not of the forms `run_list` covers.
pub open spec fn concrete_run(e: SymbolicExecutor, setting: VerificationSetting, assign: Map<SpecName, SpecValue>) -> Option<Outcome> {
    let ids = name_ids(e.symbolic_library.name2id);
    let owner = seq![OwnerName { name: ids["main"@], counter: 0 }];
    let names = setting.template_param_names@;
    let args = setting.template_param_values@;
    if ids.contains_key("main"@) && ids.contains_key(setting.id@)
        && e.symbolic_library.template_library@.contains_key(ids[setting.id@])
        && operator_arguments(names, args, owner)
        && (forall|i: int| 0 <= i < names.len() && i < args.len() ==> ids.contains_key(#[trigger] names[i]@)) {
        let tid = ids[setting.id@];
        let vals = bound_arguments(Map::empty(), ids, names, args, owner, if names.len() < args.len() { names.len() } else { args.len() });
        let c = RunContext {
            prime: e.setting.prime@,
            types: template_types(e.symbolic_library.template_library@, tid),
            owner: owner,
            template_id: tid,
            fold_constant: !e.setting.propagate_assignments,
        };
        let fr = Frame { values: vals.union_prefer_right(assign), trace: Seq::empty(), side: Seq::empty(), depth: 0 };
        run_list(c, kind_flags(e.symbolic_store.variable_types@), Seq::empty(), fr,
            e.symbolic_library.template_library@[tid].body@, 0, u64::MAX as nat)
    } else {
        None
    }
}

/// The concrete run that checks the assignment listed by `entries`, each entry binding its
/// name in turn.
pub open spec fn concrete_outcome(e: SymbolicExecutor, setting: VerificationSetting, entries: Seq<(SymbolicName, BigNum)>) -> Option<Outcome> {
    concrete_run(e, setting, assigned_values(Map::empty(), entries))
}

/// The concrete run of `concrete_outcome` ends with a final state, and the first one gives
/// some output signal of the template a constant other than the one the entries assign it.
pub open spec fn concrete_disagreement(e: SymbolicExecutor, setting: VerificationSetting, entries: Seq<(SymbolicName, BigNum)>) -> bool {
    let ids = name_ids(e.symbolic_library.name2id);
    &&& concrete_outcome(e, setting, entries) matches Some(o)
    &&& o.finals.len() > 0
    &&& spec_outputs_differ(e.symbolic_library.template_library@[ids[setting.id@]].outputs@, o.finals[0].values, entries)
}

/// From `a` to `b` the program that concrete runs read stays: the executor's setting, every
/// name of the table, and what `library_kept` says of the library.
pub open spec fn same_program(a: SymbolicExecutor, b: SymbolicExecutor) -> bool {
    &&& a.setting == b.setting
    &&& name_ids(a.symbolic_library.name2id).dom().subset_of(name_ids(b.symbolic_library.name2id).dom())
    &&& library_kept(*a.symbolic_library, *b.symbolic_library)
}

/// Keeping the program is transitive.
pub proof fn lemma_same_program_trans(a: SymbolicExecutor, b: SymbolicExecutor, c: SymbolicExecutor)
    requires
        same_program(a, b),
        same_program(b, c),
    ensures
        same_program(a, c),
{
    assert forall|k: Seq<char>| #[trigger] name_ids(a.symbolic_library.name2id).contains_key(k) && k != "__return__"@
        implies name_ids(c.symbolic_library.name2id)[k] == name_ids(a.symbolic_library.name2id)[k] by {
        assert(name_ids(b.symbolic_library.name2id).contains_key(k));
    }
    assert forall|t: usize| #[trigger] a.symbolic_library.template_library@.contains_key(t)
        implies c.symbolic_library.template_library@.contains_key(t) by {
        assert(b.symbolic_library.template_library@.contains_key(t));
    }
}

/// Binding the entries in turn over `vals` binds over `vals` what they bind over nothing.
pub proof fn lemma_assigned_values_over(vals: Map<SpecName, SpecValue>, entries: Seq<(SymbolicName, BigNum)>)
    ensures
        assigned_values(vals, entries) == vals.union_prefer_right(assigned_values(Map::empty(), entries)),
    decreases entries.len(),
{
    if entries.len() > 0 {
        lemma_assigned_values_over(vals, entries.drop_last());
        assert(assigned_values(vals, entries) =~= vals.union_prefer_right(assigned_values(Map::empty(), entries)));
    } else {
        assert(assigned_values(vals, entries) =~= vals.union_prefer_right(assigned_values(Map::empty(), entries)));
    }
}

/// Checks one assignment against the trace constraints (what the program computes) and the
/// side constraints (what the circuit states). Both holding, or both failing, is well
/// constrained; the trace holding and the side failing is over-constrained. The side holding
/// and the trace failing calls for a concrete run of the template on the assignment: where
/// the run ends and gives some output a constant other than the assigned one, the circuit
/// is under-constrained, and otherwise well constrained. The run takes place under the owner
/// `main`, which the name table must then know. Where the template's body is of the forms
/// `concrete_outcome` covers, the verdict is that of `concrete_disagreement` on the executor
/// as it was (the template's outputs being read after the run, a template named like the
/// return slot is left out). The run keeps the program (`same_program`).
pub fn verify_assignment(
    sexe: &mut SymbolicExecutor,
    trace_constraints: &[Rc<SymbolicValue>],
    side_constraints: &[Rc<SymbolicValue>],
    assignment: &NameMap<BigNum>,
    setting: &VerificationSetting,
) -> (r: VerificationResult)
    requires
        setting.prime@ != 0,
        old(sexe).wf(),
        spec_all_hold(setting.prime@, values_view(trace_constraints@), assignment@) is Some,
        spec_all_hold(setting.prime@, values_view(side_constraints@), assignment@) is Some,
        spec_all_hold(setting.prime@, values_view(trace_constraints@), assignment@).unwrap()
            || !spec_all_hold(setting.prime@, values_view(side_constraints@), assignment@).unwrap()
            || name_ids(old(sexe).symbolic_library.name2id).contains_key("main"@),
    ensures
        final(sexe).wf(),
        same_program(*old(sexe), *final(sexe)),
        ({
            let tc = spec_all_hold(setting.prime@, values_view(trace_constraints@), assignment@).unwrap();
            let sc = spec_all_hold(setting.prime@, values_view(side_constraints@), assignment@).unwrap();
            &&& (r == VerificationResult::OverConstrained <==> tc && !sc)
            &&& (tc == sc ==> r == VerificationResult::WellConstrained)
            &&& (r == VerificationResult::UnderConstrained ==> !tc && sc)
            &&& (!tc && sc ==> (r == VerificationResult::UnderConstrained <==> concrete_run_disagrees(*final(sexe), setting.id@, assignment.entries@)))
            &&& (tc || !sc ==> *final(sexe) == *old(sexe))
            &&& (!tc && sc ==> (concrete_outcome(*old(sexe), *setting, assignment.entries@) matches Some(o) ==> {
                &&& final(sexe).symbolic_store.error is None
                &&& frames_of(final(sexe).symbolic_store.final_states@) == o.finals
                &&& (r == VerificationResult::UnderConstrained <==> o.finals.len() > 0 && concrete_run_disagrees(*final(sexe), setting.id@, assignment.entries@))
            }))
            &&& (!tc && sc && setting.id@ != "__return__"@ && concrete_outcome(*old(sexe), *setting, assignment.entries@) is Some
                ==> (r == VerificationResult::UnderConstrained <==> concrete_disagreement(*old(sexe), *setting, assignment.entries@)))
        }),
{
    let is_satisfy_tc = evaluate_constraints(&setting.prime, trace_constraints, assignment);
    let is_satisfy_sc = evaluate_constraints(&setting.prime, side_constraints, assignment);
    if is_satisfy_tc && !is_satisfy_sc {
        return VerificationResult::OverConstrained;
    }
    if is_satisfy_tc || !is_satisfy_sc {
        return VerificationResult::WellConstrained;
    }
    sexe.clear();
    let main_id: usize = match fx_name_get(&sexe.symbolic_library.name2id, "main") {
        Some(i) => i,
        None => {
            proof {
                assert(false);
            }
            return VerificationResult::WellConstrained;
        },
    };
    let ghost ec = *sexe;
    sexe.cur_state.add_owner(&OwnerName { name: main_id, counter: 0 });
    let ghost eo = *sexe;
    proof {
        if concrete_outcome(*old(sexe), *setting, assignment.entries@) is Some {
            assert(eo.cur_state.owner_name@ =~= seq![OwnerName { name: main_id, counter: 0 }]);
            assert(eo.cur_state.values@ =~= Map::<SpecName, SpecValue>::empty());
        }
    }
    sexe.feed_arguments(&setting.template_param_names, &setting.template_param_values);
    let ghost ef = *sexe;
    proof {
        if concrete_outcome(*old(sexe), *setting, assignment.entries@) is Some {
            let ids = name_ids(old(sexe).symbolic_library.name2id);
            let tid = ids[setting.id@];
            assert(name_ids(ef.symbolic_library.name2id) == ids);
            assert(ef.symbolic_store.block_end_states@.len() == 0);
            assert(pending_of(ef) =~= Seq::<Frame>::empty());
            assert(kinds_of(ef) == kind_flags(old(sexe).symbolic_store.variable_types@));
            assert(template_context(ef, tid).types == template_types(old(sexe).symbolic_library.template_library@, tid));
            assert(assigned_frame(ef, assignment.entries@).trace =~= Seq::<SpecValue>::empty());
            assert(assigned_frame(ef, assignment.entries@).side =~= Seq::<SpecValue>::empty());
            assert(frames_of(ef.symbolic_store.final_states@) =~= Seq::<Frame>::empty());
            lemma_assigned_values_over(ef.cur_state.values@, assignment.entries@);
        }
        assert(same_program(*old(sexe), ec));
        assert(same_program(ec, eo));
        lemma_same_program_trans(*old(sexe), ec, eo);
        lemma_same_program_trans(*old(sexe), eo, ef);
    }
    sexe.concrete_execute(&setting.id, assignment, true);
    proof {
        lemma_same_program_trans(*old(sexe), ef, *sexe);
        if concrete_outcome(*old(sexe), *setting, assignment.entries@) is Some && setting.id@ != "__return__"@ {
            let o = concrete_outcome(*old(sexe), *setting, assignment.entries@).unwrap();
            let ids = name_ids(old(sexe).symbolic_library.name2id);
            let tid = ids[setting.id@];
            assert(ids.contains_key(setting.id@));
            assert(name_ids(sexe.symbolic_library.name2id)[setting.id@] == tid);
            assert(old(sexe).symbolic_library.template_library@.contains_key(tid));
            assert(sexe.symbolic_library.template_library@.contains_key(tid));
            assert(sexe.symbolic_library.template_library@[tid].outputs == old(sexe).symbolic_library.template_library@[tid].outputs);
            if o.finals.len() > 0 && sexe.symbolic_store.error is None && frames_of(sexe.symbolic_store.final_states@) == o.finals {
                assert(frames_of(sexe.symbolic_store.final_states@)[0] == o.finals[0]);
                assert(sexe.symbolic_store.final_states@[0].values@ == o.finals[0].values);
            }
        }
    }
    if sexe.symbolic_store.final_states.len() == 0 || sexe.symbolic_store.error.is_some() {
        return VerificationResult::WellConstrained;
    }
    let outputs: Option<Vec<usize>> = match fx_name_get(&sexe.symbolic_library.name2id, setting.id.as_str()) {
        Some(tid) => match fx_get(&sexe.symbolic_library.template_library, tid) {
            Some(t) => {
                let outs = t.outputs.clone();
                proof {
                    assert(outs@ =~= t.outputs@);
                }
                Some(outs)
            },
            None => None,
        },
        None => None,
    };
    let flag = match outputs {
        Some(outs) => outputs_differ(&outs, &sexe.symbolic_store.final_states[0].values, assignment),
        None => false,
    };
    if flag {
        VerificationResult::UnderConstrained
    } else {
        VerificationResult::WellConstrained
    }
}

} // verus!
