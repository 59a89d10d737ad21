//! The symbolic executor: it runs the statements of a template on symbolic values,
//! gathering for every path the trace constraints (what the program computes) and the side
//! constraints (what the circuit's constraints state).
use crate::arith::{binop_defined, binop_is_defined, evaluate_binary_op, fold_binop};
use crate::ast::{
    AssignOp, DebugAccess, DebugAssignOp, DebugExpression, DebugExpressionInfixOpcode,
    DebugExpressionPrefixOpcode, DebugStatement, DebugVariableType, ExpressionInfixOpcode,
    ExpressionPrefixOpcode, SignalType, VariableType,
};
use crate::bignum::{big_neg, big_to_usize, BigNum};
use crate::executor::symbolic_setting::SymbolicExecutorSetting;
use crate::lookup::{owners_lookup_text, owners_text};
use crate::name_map::{entries_view, lemma_entries_update, lemma_entries_view_same, NameMap};
use crate::symbolic_library::{SymbolicComponent, SymbolicLibrary};
use crate::symbolic_value::{
    value_view, values_copy, values_view, OwnerName, SpecAccess, SpecName, SpecValue, SymbolicAccess,
    SymbolicName, SymbolicValue,
};
use crate::tables::{name_ids, fx_contains_key, fx_get, fx_insert, fx_keys, fx_name_get, fx_name_insert, fx_new, fx_remove};
use rustc_hash::FxHashMap;
use std::rc::Rc;
use vstd::prelude::*;

verus! {

/// The state of one path of symbolic execution.
#[derive(Debug)]
pub struct SymbolicState {
    pub owner_name: Rc<Vec<OwnerName>>,
    pub template_id: usize,
    pub depth: usize,
    pub values: NameMap<Rc<SymbolicValue>>,
    pub trace_constraints: Vec<Rc<SymbolicValue>>,
    pub side_constraints: Vec<Rc<SymbolicValue>>,
}

impl SymbolicState {
    /// A state never holds more side constraints than trace constraints.
    pub open spec fn wf(&self) -> bool {
        self.side_constraints@.len() <= self.trace_constraints@.len()
    }

    /// An empty state: no owner, no template, depth zero, no values, no constraints.
    pub fn new() -> (r: SymbolicState)
        ensures
            r.owner_name@ == Seq::<OwnerName>::empty(),
            r.template_id == usize::MAX,
            r.depth == 0,
            r.values@ == Map::<SpecName, SpecValue>::empty(),
            r.trace_constraints@.len() == 0,
            r.side_constraints@.len() == 0,
            r.wf(),
    {
        SymbolicState {
            owner_name: Rc::new(Vec::new()),
            template_id: usize::MAX,
            depth: 0,
            values: NameMap::new(),
            trace_constraints: Vec::new(),
            side_constraints: Vec::new(),
        }
    }

    /// A copy of the state (symbolic values are shared).
    pub fn copy(&self) -> (r: SymbolicState)
        ensures
            r.owner_name@ == self.owner_name@,
            r.template_id == self.template_id,
            r.depth == self.depth,
            r.values@ == self.values@,
            values_view(r.trace_constraints@) == values_view(self.trace_constraints@),
            values_view(r.side_constraints@) == values_view(self.side_constraints@),
            r.trace_constraints@.len() == self.trace_constraints@.len(),
            r.side_constraints@.len() == self.side_constraints@.len(),
    {
        let mut entries: Vec<(SymbolicName, Rc<SymbolicValue>)> = Vec::new();
        let mut i: usize = 0;
        while i < self.values.entries.len()
            invariant
                i <= self.values.entries@.len(),
                entries@.len() == i,
                forall|j: int| 0 <= j < i ==> entries@[j].0@ == self.values.entries@[j].0@ && entries@[j].1@ == self.values.entries@[j].1@,
            decreases self.values.entries.len() - i,
        {
            entries.push((self.values.entries[i].0.copy(), self.values.entries[i].1.clone()));
            i = i + 1;
        }
        proof {
            lemma_entries_view_same(entries@, self.values.entries@);
        }
        SymbolicState {
            owner_name: self.owner_name.clone(),
            template_id: self.template_id,
            depth: self.depth,
            values: NameMap { entries },
            trace_constraints: values_copy(&self.trace_constraints),
            side_constraints: values_copy(&self.side_constraints),
        }
    }

    /// Appends `oname` to the owner path of the state.
    pub fn add_owner(&mut self, oname: &OwnerName)
        ensures
            final(self).owner_name@ == old(self).owner_name@.push(*oname),
            final(self).template_id == old(self).template_id,
            final(self).depth == old(self).depth,
            final(self).values == old(self).values,
            final(self).trace_constraints == old(self).trace_constraints,
            final(self).side_constraints == old(self).side_constraints,
    {
        let mut on: Vec<OwnerName> = Vec::new();
        let old_owner: &Vec<OwnerName> = &self.owner_name;
        let mut i: usize = 0;
        while i < old_owner.len()
            invariant
                i <= old_owner@.len(),
                on@ == old_owner@.subrange(0, i as int),
            decreases old_owner.len() - i,
        {
            on.push(old_owner[i]);
            i = i + 1;
            proof {
                assert(on@ =~= old_owner@.subrange(0, i as int));
            }
        }
        on.push(*oname);
        proof {
            assert(on@ =~= old(self).owner_name@.push(*oname));
        }
        self.owner_name = Rc::new(on);
    }

    /// The names of the owner path of the state, separated by dots.
    pub fn get_owner(&self, lookup: &FxHashMap<usize, String>) -> (r: String)
        requires
            forall|i: int| 0 <= i < self.owner_name@.len() ==> lookup@.contains_key(#[trigger] self.owner_name@[i].name),
        ensures
            r@ == owners_text(self.owner_name@, lookup@),
    {
        owners_lookup_text(&self.owner_name, lookup)
    }

    /// Sets the template that the state executes.
    pub fn set_template_id(&mut self, name: usize)
        ensures
            final(self).template_id == name,
            final(self).owner_name == old(self).owner_name,
            final(self).depth == old(self).depth,
            final(self).values == old(self).values,
            final(self).trace_constraints == old(self).trace_constraints,
            final(self).side_constraints == old(self).side_constraints,
    {
        self.template_id = name;
    }

    /// Sets the current depth of the state.
    pub fn set_depth(&mut self, d: usize)
        ensures
            final(self).depth == d,
            final(self).template_id == old(self).template_id,
            final(self).owner_name == old(self).owner_name,
            final(self).values == old(self).values,
            final(self).trace_constraints == old(self).trace_constraints,
            final(self).side_constraints == old(self).side_constraints,
    {
        self.depth = d;
    }

    /// The current depth of the state.
    pub fn get_depth(&self) -> (r: usize)
        ensures
            r == self.depth,
    {
        self.depth
    }

    /// Associates `value` with the variable `name`.
    pub fn set_symval(&mut self, name: SymbolicName, value: SymbolicValue)
        ensures
            final(self).values@ == old(self).values@.insert(name@, value@),
            final(self).template_id == old(self).template_id,
            final(self).owner_name == old(self).owner_name,
            final(self).depth == old(self).depth,
            final(self).trace_constraints == old(self).trace_constraints,
            final(self).side_constraints == old(self).side_constraints,
    {
        self.values.insert(name, Rc::new(value));
    }

    /// Associates a shared `value` with the variable `name`.
    pub fn set_rc_symval(&mut self, name: SymbolicName, value: Rc<SymbolicValue>)
        ensures
            final(self).values@ == old(self).values@.insert(name@, value@),
            final(self).template_id == old(self).template_id,
            final(self).owner_name == old(self).owner_name,
            final(self).depth == old(self).depth,
            final(self).trace_constraints == old(self).trace_constraints,
            final(self).side_constraints == old(self).side_constraints,
    {
        self.values.insert(name, value);
    }

    /// The value associated with the variable `name`, if any.
    pub fn get_symval(&self, name: &SymbolicName) -> (r: Option<&Rc<SymbolicValue>>)
        ensures
            match r {
                Some(v) => self.values@.contains_key(name@) && self.values@[name@] == v@,
                None => !self.values@.contains_key(name@),
            },
    {
        self.values.get(name)
    }

    /// Adds a trace constraint to the state.
    pub fn push_trace_constraint(&mut self, constraint: &SymbolicValue)
        ensures
            values_view(final(self).trace_constraints@) == values_view(old(self).trace_constraints@).push(constraint@),
            final(self).trace_constraints@.len() == old(self).trace_constraints@.len() + 1,
            final(self).side_constraints == old(self).side_constraints,
            final(self).values == old(self).values,
            final(self).template_id == old(self).template_id,
            final(self).owner_name == old(self).owner_name,
            final(self).depth == old(self).depth,
    {
        self.trace_constraints.push(Rc::new(constraint.copy()));
        proof {
            assert(values_view(self.trace_constraints@) =~= values_view(old(self).trace_constraints@).push(constraint@));
        }
    }

    /// Adds a side constraint to the state.
    pub fn push_side_constraint(&mut self, constraint: &SymbolicValue)
        ensures
            values_view(final(self).side_constraints@) == values_view(old(self).side_constraints@).push(constraint@),
            final(self).side_constraints@.len() == old(self).side_constraints@.len() + 1,
            final(self).trace_constraints == old(self).trace_constraints,
            final(self).values == old(self).values,
            final(self).template_id == old(self).template_id,
            final(self).owner_name == old(self).owner_name,
            final(self).depth == old(self).depth,
    {
        self.side_constraints.push(Rc::new(constraint.copy()));
        proof {
            assert(values_view(self.side_constraints@) =~= values_view(old(self).side_constraints@).push(constraint@));
        }
    }
}

/// What a read of a variable gives back after a write to the state: the written value under
/// the written name, and under any other name what the state held before. `s1` is what
/// `set_symval(name, value)` leaves of `s0`; `get_symval` reads `values@`.
pub proof fn law_symval_after_set(s0: SymbolicState, s1: SymbolicState, name: SymbolicName, value: SymbolicValue, other: SymbolicName)
    requires
        s1.values@ == s0.values@.insert(name@, value@),
    ensures
        s1.values@.contains_key(name@),
        s1.values@[name@] == value@,
        other@ != name@ ==> s1.values@.contains_key(other@) == s0.values@.contains_key(other@),
        other@ != name@ && s0.values@.contains_key(other@) ==> s1.values@[other@] == s0.values@[other@],
{
}

/// Why symbolic execution stopped before the end.
#[derive(Clone, Copy, Debug, PartialEq, Eq, Structural)]
pub enum ExecutionError {
    /// Folding met an integer division or remainder by zero, or a shift by an amount that
    /// is not a `usize`.
    FoldFailed,
    /// The condition of a `while` loop does not fold to a boolean constant.
    UnsupportedWhileCondition,
    /// An expression form that the executor does not handle (bus calls, anonymous components).
    UnhandledExpression,
    /// An array was indexed outside its bounds.
    IndexOutOfRange,
    /// A name, template, function or declared variable that the tables do not know.
    UnknownName,
    /// A called template or function ended on no path.
    MissingCalleeState,
    /// A called function returned no value.
    MissingReturnValue,
    /// The instance counter of a function cannot be incremented.
    CounterOverflow,
    /// The step budget ran out.
    OutOfFuel,
}

/// The kinds declared in the template that a state executes (none where the template is
/// unknown).
pub open spec fn template_types(templates: Map<usize, crate::symbolic_library::SymbolicTemplate>, tid: usize) -> Map<usize, VariableType> {
    if templates.contains_key(tid) {
        templates[tid].var2type@
    } else {
        Map::empty()
    }
}

/// A unary operator folded on a folded operand.
pub open spec fn fold_unop(op: ExpressionPrefixOpcode, a: SpecValue) -> SpecValue {
    match (a, op) {
        (SpecValue::Int(x), ExpressionPrefixOpcode::Sub) => SpecValue::Int(-x),
        (SpecValue::Bool(b), ExpressionPrefixOpcode::BoolNot) => SpecValue::Bool(!b),
        _ => SpecValue::UnaryOp(op, Box::new(a)),
    }
}

/// What a variable folds to. With `only_constant` set, an output signal stays symbolic, a
/// plain variable takes its stored value, and any other name takes its stored value only
/// when that is an integer constant. Otherwise every name takes its stored value.
pub open spec fn fold_var(vals: Map<SpecName, SpecValue>, types: Map<usize, VariableType>, n: SpecName, only_constant: bool) -> SpecValue {
    let v = SpecValue::Var(n);
    if only_constant {
        if types.contains_key(n.name) && (types[n.name] matches VariableType::Signal(crate::ast::SignalType::Output, _)) {
            v
        } else if types.contains_key(n.name) && types[n.name] is Var {
            if vals.contains_key(n) {
                vals[n]
            } else {
                v
            }
        } else if vals.contains_key(n) && vals[n] is Int {
            vals[n]
        } else {
            v
        }
    } else if vals.contains_key(n) {
        vals[n]
    } else {
        v
    }
}

/// Folding of variables and constants through a value; `None` where folding fails.
pub open spec fn spec_fold(p: int, vals: Map<SpecName, SpecValue>, types: Map<usize, VariableType>, v: SpecValue, only_constant: bool) -> Option<SpecValue>
    decreases v,
{
    match v {
        SpecValue::Var(n) => Some(fold_var(vals, types, n, only_constant)),
        SpecValue::BinaryOp(l, op, r) => match (spec_fold(p, vals, types, *l, only_constant), spec_fold(p, vals, types, *r, only_constant)) {
            (Some(a), Some(b)) => if binop_defined(op, a, b) {
                Some(fold_binop(op, a, b, p))
            } else {
                None
            },
            _ => None,
        },
        SpecValue::Conditional(c, t, e) => match (
            spec_fold(p, vals, types, *c, only_constant),
            spec_fold(p, vals, types, *t, only_constant),
            spec_fold(p, vals, types, *e, only_constant),
        ) {
            (Some(a), Some(b), Some(d)) => Some(SpecValue::Conditional(Box::new(a), Box::new(b), Box::new(d))),
            _ => None,
        },
        SpecValue::UnaryOp(op, e) => match spec_fold(p, vals, types, *e, only_constant) {
            Some(a) => Some(fold_unop(op, a)),
            None => None,
        },
        SpecValue::Array(es) => match fold_seq(p, vals, types, es, only_constant) {
            Some(fs) => Some(SpecValue::Array(fs)),
            None => None,
        },
        SpecValue::Tuple(es) => match fold_seq(p, vals, types, es, only_constant) {
            Some(fs) => Some(SpecValue::Tuple(fs)),
            None => None,
        },
        SpecValue::UniformArray(e, c) => match (spec_fold(p, vals, types, *e, only_constant), spec_fold(p, vals, types, *c, only_constant)) {
            (Some(a), Some(b)) => Some(SpecValue::UniformArray(Box::new(a), Box::new(b))),
            _ => None,
        },
        SpecValue::Call(f, es) => match fold_seq(p, vals, types, es, only_constant) {
            Some(fs) => Some(SpecValue::Call(f, fs)),
            None => None,
        },
        _ => Some(v),
    }
}

/// Folding of each value of a sequence; `None` where folding any of them fails.
pub open spec fn fold_seq(p: int, vals: Map<SpecName, SpecValue>, types: Map<usize, VariableType>, es: Seq<SpecValue>, only_constant: bool) -> Option<Seq<SpecValue>>
    decreases es,
{
    if es.len() == 0 {
        Some(Seq::empty())
    } else {
        match (fold_seq(p, vals, types, es.drop_last(), only_constant), spec_fold(p, vals, types, es.last(), only_constant)) {
            (Some(a), Some(b)) => Some(a.push(b)),
            _ => None,
        }
    }
}

/// Folding replaces a variable whose value is known by that value and leaves a constant as
/// it is; folding only constants does the same for a name that is not an output signal when
/// it is a plain variable or its value is an integer constant.
pub proof fn law_fold_known_variable(p: int, vals: Map<SpecName, SpecValue>, types: Map<usize, VariableType>, n: SpecName, c: int)
    requires
        vals.contains_key(n),
    ensures
        spec_fold(p, vals, types, SpecValue::Var(n), false) == Some(vals[n]),
        !(types.contains_key(n.name) && (types[n.name] matches VariableType::Signal(SignalType::Output, _)))
            && (vals[n] is Int || (types.contains_key(n.name) && types[n.name] is Var))
            ==> spec_fold(p, vals, types, SpecValue::Var(n), true) == Some(vals[n]),
        spec_fold(p, vals, types, SpecValue::Int(c), false) == Some(SpecValue::Int(c)),
        spec_fold(p, vals, types, SpecValue::Int(c), true) == Some(SpecValue::Int(c)),
{
}

proof fn lemma_fold_seq_none_extends(p: int, vals: Map<SpecName, SpecValue>, types: Map<usize, VariableType>, es: Seq<SpecValue>, only_constant: bool, i: int)
    requires
        0 <= i <= es.len(),
        fold_seq(p, vals, types, es.take(i), only_constant) is None,
    ensures
        fold_seq(p, vals, types, es, only_constant) is None,
    decreases es.len() - i,
{
    if i < es.len() {
        assert(es.take(i + 1).drop_last() =~= es.take(i));
        lemma_fold_seq_none_extends(p, vals, types, es, only_constant, i + 1);
    } else {
        assert(es.take(i) =~= es);
    }
}

/// The store shared by the paths of one executor.
#[derive(Debug)]
pub struct SymbolicStore {
    pub components_store: NameMap<SymbolicComponent>,
    pub variable_types: FxHashMap<usize, DebugVariableType>,
    pub block_end_states: Vec<SymbolicState>,
    pub final_states: Vec<SymbolicState>,
    pub max_depth: usize,
    pub error: Option<ExecutionError>,
}

impl View for SymbolicComponent {
    type V = SymbolicComponent;

    open spec fn view(&self) -> SymbolicComponent {
        *self
    }
}

/// Every state of a list holds no more side constraints than trace constraints.
pub open spec fn states_wf(states: Seq<SymbolicState>) -> bool {
    forall|i: int| 0 <= i < states.len() ==> (#[trigger] states[i]).wf()
}

impl SymbolicStore {
    /// Every state held satisfies the state invariant.
    pub open spec fn wf(&self) -> bool {
        states_wf(self.block_end_states@) && states_wf(self.final_states@)
    }

    /// Forgets the components, the pending and final states, the depth and any error.
    pub fn clear(&mut self)
        ensures
            final(self).components_store@ == Map::<SpecName, SymbolicComponent>::empty(),
            final(self).block_end_states@.len() == 0,
            final(self).final_states@.len() == 0,
            final(self).max_depth == 0,
            final(self).error is None,
            final(self).variable_types == old(self).variable_types,
            final(self).wf(),
    {
        self.components_store.clear();
        self.block_end_states.clear();
        self.final_states.clear();
        self.max_depth = 0;
        self.error = None;
    }
}

/// Executes the statements of templates and functions on symbolic values.
pub struct SymbolicExecutor<'a> {
    pub symbolic_library: &'a mut SymbolicLibrary,
    pub setting: &'a SymbolicExecutorSetting,
    pub symbolic_store: SymbolicStore,
    pub cur_state: SymbolicState,
}

impl<'a> SymbolicExecutor<'a> {
    /// The executor invariant: a nonzero prime, and every state it holds satisfies the
    /// state invariant.
    pub open spec fn wf(&self) -> bool {
        &&& self.setting.prime@ != 0
        &&& self.cur_state.wf()
        &&& self.symbolic_store.wf()
    }

    /// The kinds declared in the template of the current state.
    pub open spec fn types_here(&self) -> Map<usize, VariableType> {
        template_types(self.symbolic_library.template_library@, self.cur_state.template_id)
    }

    /// Folding as the current state sees it.
    pub open spec fn spec_fold_here(&self, v: SpecValue, only_constant: bool) -> Option<SpecValue> {
        spec_fold(self.setting.prime@, self.cur_state.values@, self.types_here(), v, only_constant)
    }

    /// A new executor over a library and a setting, with an empty store and state.
    pub fn new(symbolic_library: &'a mut SymbolicLibrary, setting: &'a SymbolicExecutorSetting) -> (r: SymbolicExecutor<'a>)
        requires
            setting.prime@ != 0,
        ensures
            r.wf(),
            *r.symbolic_library == *old(symbolic_library),
            *final(symbolic_library) == *final(r.symbolic_library),
            r.setting == setting,
            r.symbolic_store.final_states@.len() == 0,
            r.symbolic_store.block_end_states@.len() == 0,
            r.symbolic_store.max_depth == 0,
            r.symbolic_store.error is None,
            r.cur_state.owner_name@ == Seq::<OwnerName>::empty(),
            r.cur_state.values@ == Map::<SpecName, SpecValue>::empty(),
            r.cur_state.trace_constraints@.len() == 0,
            r.cur_state.side_constraints@.len() == 0,
    {
        SymbolicExecutor {
            symbolic_library: symbolic_library,
            symbolic_store: SymbolicStore {
                components_store: NameMap::new(),
                variable_types: fx_new(),
                block_end_states: Vec::new(),
                final_states: Vec::new(),
                max_depth: 0,
                error: None,
            },
            cur_state: SymbolicState::new(),
            setting: setting,
        }
    }

    /// Starts afresh: a new state, an empty store, and function counters back to zero.
    pub fn clear(&mut self)
        requires
            old(self).setting.prime@ != 0,
        ensures
            final(self).wf(),
            final(self).setting == old(self).setting,
            final(self).symbolic_store.final_states@.len() == 0,
            final(self).symbolic_store.block_end_states@.len() == 0,
            final(self).symbolic_store.error is None,
            final(self).cur_state.owner_name@ == Seq::<OwnerName>::empty(),
            final(self).cur_state.values@ == Map::<SpecName, SpecValue>::empty(),
            final(self).cur_state.trace_constraints@.len() == 0,
            final(self).cur_state.side_constraints@.len() == 0,
            final(self).symbolic_library.template_library == old(self).symbolic_library.template_library,
            final(self).symbolic_library.function_library == old(self).symbolic_library.function_library,
            final(self).symbolic_library.name2id == old(self).symbolic_library.name2id,
            final(self).symbolic_library.id2name == old(self).symbolic_library.id2name,
            final(self).cur_state.template_id == usize::MAX,
            final(self).cur_state.depth == 0,
            final(self).symbolic_store.variable_types == old(self).symbolic_store.variable_types,
            forall|k: usize| #[trigger] final(self).symbolic_library.function_counter@.contains_key(k) ==> final(self).symbolic_library.function_counter@[k] == 0,
    {
        self.cur_state = SymbolicState::new();
        self.symbolic_store.clear();
        self.symbolic_library.clear_function_counter();
    }

    /// Whether the component stored for `name` has been given all of its inputs.
    fn is_ready(&self, name: &SymbolicName) -> (r: bool)
        ensures
            r == (self.symbolic_store.components_store@.contains_key(name@)
                && self.symbolic_store.components_store@[name@].spec_all_inputs_given()),
    {
        match self.symbolic_store.components_store.get(name) {
            None => false,
            Some(c) => {
                proof {
                    assert(self.symbolic_store.components_store@[name@] == *c);
                }
                let keys = fx_keys(&c.inputs);
                let mut i: usize = 0;
                while i < keys.len()
                    invariant
                        i <= keys@.len(),
                        keys@.to_set() == c.inputs@.dom(),
                        forall|j: int| 0 <= j < i ==> c.inputs@[#[trigger] keys@[j]] is Some,
                        self.symbolic_store.components_store@.contains_key(name@),
                        self.symbolic_store.components_store@[name@] == *c,
                    decreases keys.len() - i,
                {
                    proof {
                        assert(keys@.to_set().contains(keys@[i as int]));
                    }
                    match fx_get(&c.inputs, keys[i]) {
                        Some(v) => {
                            if v.is_none() {
                                proof {
                                    assert(c.inputs@.contains_key(keys@[i as int]));
                                    assert(!c.spec_all_inputs_given());
                                }
                                return false;
                            }
                        },
                        None => {
                            proof {
                                assert(false);
                            }
                            return false;
                        },
                    }
                    i = i + 1;
                }
                proof {
                    assert forall|k: usize| #[trigger] c.inputs@.contains_key(k) implies c.inputs@[k] is Some by {
                        assert(keys@.to_set().contains(k));
                        let j = choose|j: int| 0 <= j < keys@.len() && keys@[j] == k;
                        assert(c.inputs@[keys@[j]] is Some);
                    }
                }
                true
            },
        }
    }

    /// Folds variables and constants through a value as the current state sees it;
    /// `None` where folding fails.
    fn fold_variables(&self, symval: &SymbolicValue, only_constant: bool) -> (r: Option<SymbolicValue>)
        requires
            self.setting.prime@ != 0,
        ensures
            match r {
                Some(x) => self.spec_fold_here(symval@, only_constant) == Some(x@),
                None => self.spec_fold_here(symval@, only_constant) is None,
            },
        decreases symval,
    {
        match symval {
            SymbolicValue::Variable(sname) => {
                let stored = self.cur_state.get_symval(sname);
                if only_constant {
                    let tmpl = fx_get(&self.symbolic_library.template_library, self.cur_state.template_id);
                    let typ = match tmpl {
                        Some(t) => fx_get(&t.var2type, sname.name),
                        None => None,
                    };
                    match typ {
                        Some(t) => {
                            if t.is_output_signal() {
                                return Some(symval.copy());
                            } else if t.is_var() {
                                return match stored {
                                    Some(v) => Some((**v).copy()),
                                    None => Some(symval.copy()),
                                };
                            }
                        },
                        None => {},
                    }
                    match stored {
                        Some(v) => match &**v {
                            SymbolicValue::ConstantInt(n) => Some(SymbolicValue::ConstantInt(n.copy())),
                            _ => Some(symval.copy()),
                        },
                        None => Some(symval.copy()),
                    }
                } else {
                    match stored {
                        Some(v) => Some((**v).copy()),
                        None => Some(symval.copy()),
                    }
                }
            },
            SymbolicValue::BinaryOp(lv, infix_op, rv) => {
                let lhs = match self.fold_variables(lv, only_constant) {
                    Some(x) => x,
                    None => {
                        return None;
                    },
                };
                let rhs = match self.fold_variables(rv, only_constant) {
                    Some(x) => x,
                    None => {
                        return None;
                    },
                };
                if binop_is_defined(infix_op.0, &lhs, &rhs) {
                    Some(evaluate_binary_op(&lhs, &rhs, &self.setting.prime, infix_op))
                } else {
                    None
                }
            },
            SymbolicValue::Conditional(cond, then_val, else_val) => {
                let a = match self.fold_variables(cond, only_constant) {
                    Some(x) => x,
                    None => {
                        return None;
                    },
                };
                let b = match self.fold_variables(then_val, only_constant) {
                    Some(x) => x,
                    None => {
                        return None;
                    },
                };
                let c = match self.fold_variables(else_val, only_constant) {
                    Some(x) => x,
                    None => {
                        return None;
                    },
                };
                Some(SymbolicValue::Conditional(Rc::new(a), Rc::new(b), Rc::new(c)))
            },
            SymbolicValue::UnaryOp(prefix_op, value) => {
                let folded = match self.fold_variables(value, only_constant) {
                    Some(x) => x,
                    None => {
                        return None;
                    },
                };
                match (&folded, prefix_op.0) {
                    (SymbolicValue::ConstantInt(rv), ExpressionPrefixOpcode::Sub) => {
                        Some(SymbolicValue::ConstantInt(big_neg(rv)))
                    },
                    (SymbolicValue::ConstantBool(rv), ExpressionPrefixOpcode::BoolNot) => {
                        Some(SymbolicValue::ConstantBool(!*rv))
                    },
                    _ => Some(SymbolicValue::UnaryOp(*prefix_op, Rc::new(folded))),
                }
            },
            SymbolicValue::Array(elements) => {
                proof {
                    assert(values_view(elements@) =~= symval@->Array_0);
                }
                match self.fold_values(elements, only_constant) {
                    Some(fs) => {
                        let r = SymbolicValue::Array(fs);
                        proof {
                            assert(values_view(fs@) =~= r@->Array_0);
                        }
                        Some(r)
                    },
                    None => None,
                }
            },
            SymbolicValue::Tuple(elements) => {
                proof {
                    assert(values_view(elements@) =~= symval@->Tuple_0);
                }
                match self.fold_values(elements, only_constant) {
                    Some(fs) => {
                        let r = SymbolicValue::Tuple(fs);
                        proof {
                            assert(values_view(fs@) =~= r@->Tuple_0);
                        }
                        Some(r)
                    },
                    None => None,
                }
            },
            SymbolicValue::UniformArray(element, count) => {
                let a = match self.fold_variables(element, only_constant) {
                    Some(x) => x,
                    None => {
                        return None;
                    },
                };
                let b = match self.fold_variables(count, only_constant) {
                    Some(x) => x,
                    None => {
                        return None;
                    },
                };
                Some(SymbolicValue::UniformArray(Rc::new(a), Rc::new(b)))
            },
            SymbolicValue::Call(func_name, args) => {
                proof {
                    assert(values_view(args@) =~= symval@->Call_1);
                }
                match self.fold_values(args, only_constant) {
                    Some(fs) => {
                        let r = SymbolicValue::Call(*func_name, fs);
                        proof {
                            assert(values_view(fs@) =~= r@->Call_1);
                        }
                        Some(r)
                    },
                    None => None,
                }
            },
            _ => Some(symval.copy()),
        }
    }

    /// Folds each value of a sequence; `None` where folding any of them fails.
    fn fold_values(&self, es: &Vec<Rc<SymbolicValue>>, only_constant: bool) -> (r: Option<Vec<Rc<SymbolicValue>>>)
        requires
            self.setting.prime@ != 0,
        ensures
            match r {
                Some(v) => fold_seq(self.setting.prime@, self.cur_state.values@, self.types_here(), values_view(es@), only_constant)
                    == Some(values_view(v@)),
                None => fold_seq(self.setting.prime@, self.cur_state.values@, self.types_here(), values_view(es@), only_constant) is None,
            },
        decreases es,
    {
        let ghost p = self.setting.prime@;
        let ghost vals = self.cur_state.values@;
        let ghost types = self.types_here();
        let ghost s = values_view(es@);
        let mut out: Vec<Rc<SymbolicValue>> = Vec::new();
        let mut i: usize = 0;
        proof {
            assert(s.take(0) =~= Seq::<SpecValue>::empty());
            assert(values_view(out@) =~= Seq::<SpecValue>::empty());
        }
        while i < es.len()
            invariant
                i <= es@.len(),
                s == values_view(es@),
                p == self.setting.prime@,
                p != 0,
                vals == self.cur_state.values@,
                types == self.types_here(),
                fold_seq(p, vals, types, s.take(i as int), only_constant) == Some(values_view(out@)),
                forall|j: int| 0 <= j < es@.len() ==> decreases_to!(es => es@[j]),
            decreases es.len() - i,
        {
            proof {
                assert(s.take(i + 1).drop_last() =~= s.take(i as int));
                assert(s.take(i + 1).last() == s[i as int]);
            }
            match self.fold_variables(&es[i], only_constant) {
                Some(x) => {
                    let ghost before = values_view(out@);
                    out.push(Rc::new(x));
                    proof {
                        assert(values_view(out@) =~= before.push(x@));
                    }
                },
                None => {
                    proof {
                        lemma_fold_seq_none_extends(p, vals, types, s, only_constant, i + 1);
                    }
                    return None;
                },
            }
            i = i + 1;
        }
        proof {
            assert(s.take(es@.len() as int) =~= s);
        }
        Some(out)
    }
}

/// References to the statements of a body, in order.
fn statement_refs<'b>(stmts: &'b Vec<DebugStatement>) -> (r: Vec<&'b DebugStatement>)
    ensures
        r@.len() == stmts@.len(),
        forall|i: int| 0 <= i < stmts@.len() ==> *r@[i] == stmts@[i],
{
    let mut r: Vec<&'b DebugStatement> = Vec::new();
    let mut i: usize = 0;
    while i < stmts.len()
        invariant
            i <= stmts@.len(),
            r@.len() == i,
            forall|j: int| 0 <= j < i ==> *r@[j] == stmts@[j],
        decreases stmts.len() - i,
    {
        r.push(&stmts[i]);
        i = i + 1;
    }
    r
}

/// Copies of the states of a list.
fn copy_states(states: &Vec<SymbolicState>) -> (r: Vec<SymbolicState>)
    requires
        states_wf(states@),
    ensures
        states_wf(r@),
        r@.len() == states@.len(),
        forall|i: int| 0 <= i < r@.len() ==> continues(path_of(states@[i]), #[trigger] r@[i]),
        frames_of(r@) == frames_of(states@),
        forall|i: int| 0 <= i < r@.len() ==> (#[trigger] r@[i]).owner_name@ == states@[i].owner_name@
            && r@[i].template_id == states@[i].template_id,
{
    let mut r: Vec<SymbolicState> = Vec::new();
    let mut i: usize = 0;
    while i < states.len()
        invariant
            i <= states@.len(),
            r@.len() == i,
            states_wf(states@),
            states_wf(r@),
            forall|j: int| 0 <= j < i ==> continues(path_of(states@[j]), #[trigger] r@[j]),
            forall|j: int| 0 <= j < i ==> frame_of(#[trigger] r@[j]) == frame_of(states@[j])
                && r@[j].owner_name@ == states@[j].owner_name@ && r@[j].template_id == states@[j].template_id,
        decreases states.len() - i,
    {
        proof {
            assert(states@[i as int].wf());
        }
        let c = states[i].copy();
        proof {
            lemma_continues_same(states@[i as int], c);
        }
        r.push(c);
        i = i + 1;
    }
    proof {
        assert(frames_of(r@) =~= frames_of(states@));
    }
    r
}

/// A name with no accesses.
fn plain_name(name: usize, owner: &Rc<Vec<OwnerName>>) -> (r: SymbolicName)
    ensures
        r@ == (SpecName { name: name, owner: owner@, access: Seq::empty() }),
{
    let r = SymbolicName { name: name, owner: owner.clone(), access: Vec::new() };
    proof {
        assert(r@.access =~= Seq::<crate::symbolic_value::SpecAccess>::empty());
    }
    r
}

/// `owner` extended by one step.
fn extend_owner(owner: &Rc<Vec<OwnerName>>, step: OwnerName) -> (r: Rc<Vec<OwnerName>>)
    ensures
        r@ == owner@.push(step),
{
    let mut on: Vec<OwnerName> = Vec::new();
    let o: &Vec<OwnerName> = &owner;
    let mut i: usize = 0;
    while i < o.len()
        invariant
            i <= o@.len(),
            on@ == o@.subrange(0, i as int),
        decreases o.len() - i,
    {
        on.push(o[i]);
        i = i + 1;
        proof {
            assert(on@ =~= o@.subrange(0, i as int));
        }
    }
    on.push(step);
    proof {
        assert(on@ =~= owner@.push(step));
    }
    Rc::new(on)
}

/// The constraints that a path has gathered: trace constraints and side constraints.
pub ghost struct Path {
    pub trace: Seq<SpecValue>,
    pub side: Seq<SpecValue>,
}

/// The constraints of a state.
pub open spec fn path_of(s: SymbolicState) -> Path {
    Path { trace: values_view(s.trace_constraints@), side: values_view(s.side_constraints@) }
}

/// `s` continues the path `p`: its trace constraints begin with those of `p`, and its side
/// constraints with those of `p`.
pub open spec fn continues(p: Path, s: SymbolicState) -> bool {
    &&& p.trace.is_prefix_of(values_view(s.trace_constraints@))
    &&& p.side.is_prefix_of(values_view(s.side_constraints@))
}

/// Every open path of the executor continues `s0`: its current state and its block-end states.
pub open spec fn open_paths_continue(s0: Path, e: SymbolicExecutor) -> bool {
    &&& continues(s0, e.cur_state)
    &&& forall|i: int| 0 <= i < e.symbolic_store.block_end_states@.len()
        ==> continues(s0, #[trigger] e.symbolic_store.block_end_states@[i])
}

/// From `a` to `b` paths only grew: for any state `s0` that every open path of `a`
/// continues, every open path of `b` and every final state that `b` added continue it.
pub open spec fn paths_grow(a: SymbolicExecutor, b: SymbolicExecutor) -> bool {
    forall|s0: Path| #[trigger] open_paths_continue(s0, a) ==> {
        &&& open_paths_continue(s0, b)
        &&& forall|i: int| a.symbolic_store.final_states@.len() <= i < b.symbolic_store.final_states@.len()
            ==> continues(s0, #[trigger] b.symbolic_store.final_states@[i])
    }
}

/// The symbolic value that an expression made of numbers, plain variables and prefix,
/// infix, conditional and parallel operators denotes for the owner path `owner`: the same
/// tree, variables qualified by `owner`. `None` for an expression with any other form in it.
pub open spec fn operator_value(e: DebugExpression, owner: Seq<OwnerName>) -> Option<SpecValue>
    decreases e,
{
    match e {
        DebugExpression::Number(_, v) => Some(SpecValue::Int(v@)),
        DebugExpression::Variable { name, access, .. } => {
            if access@.len() == 0 {
                Some(SpecValue::Var(SpecName { name: name, owner: owner, access: Seq::empty() }))
            } else {
                None
            }
        },
        DebugExpression::InfixOp { lhe, infix_op, rhe, .. } => {
            match (operator_value(*lhe, owner), operator_value(*rhe, owner)) {
                (Some(l), Some(r)) => Some(SpecValue::BinaryOp(Box::new(l), infix_op.0, Box::new(r))),
                _ => None,
            }
        },
        DebugExpression::PrefixOp { prefix_op, rhe, .. } => {
            match operator_value(*rhe, owner) {
                Some(v) => Some(SpecValue::UnaryOp(prefix_op.0, Box::new(v))),
                None => None,
            }
        },
        DebugExpression::InlineSwitchOp { cond, if_true, if_false, .. } => {
            match (operator_value(*cond, owner), operator_value(*if_true, owner), operator_value(*if_false, owner)) {
                (Some(c), Some(t), Some(f)) => Some(SpecValue::Conditional(Box::new(c), Box::new(t), Box::new(f))),
                _ => None,
            }
        },
        DebugExpression::ParallelOp { rhe, .. } => operator_value(*rhe, owner),
        _ => None,
    }
}

/// What evaluating an access step gives on `e`: a component access as it is; an index made
/// of operators (`operator_value`), not deeper than `fuel` allows, folded as far as constants
/// go, or `None` where folding fails. Not given (outer `None`) for other indices.
pub open spec fn access_value(e: SymbolicExecutor, a: DebugAccess, fuel: nat) -> Option<Option<SpecAccess>> {
    match a {
        DebugAccess::ComponentAccess(n) => Some(Some(SpecAccess::Component(n))),
        DebugAccess::ArrayAccess(expr) => {
            match operator_value(expr, e.cur_state.owner_name@) {
                Some(v) => {
                    if fuel > operator_depth(expr) {
                        match e.spec_fold_here(v, false) {
                            Some(x) => Some(Some(SpecAccess::Array(x))),
                            None => Some(None),
                        }
                    } else {
                        None
                    }
                },
                None => None,
            }
        },
    }
}

/// The template `tid` of the table declares `var` an output signal.
pub open spec fn declares_output(templates: Map<usize, crate::symbolic_library::SymbolicTemplate>, tid: usize, var: usize) -> bool {
    &&& templates.contains_key(tid)
    &&& templates[tid].var2type@.contains_key(var)
    &&& templates[tid].var2type@[var] matches VariableType::Signal(SignalType::Output, _)
}

/// The component stored under `name` can be run: its template is known, it has an argument
/// for every parameter of the template, and every one of its inputs has a value.
pub open spec fn component_runnable(e: SymbolicExecutor, name: SpecName) -> bool {
    let c = e.symbolic_store.components_store@[name];
    let templates = e.symbolic_library.template_library@;
    &&& e.symbolic_store.components_store@.contains_key(name)
    &&& templates.contains_key(c.template_name)
    &&& templates[c.template_name].template_parameter_names@.len() <= c.args@.len()
    &&& forall|k: usize| #[trigger] c.inputs@.contains_key(k) ==> c.inputs@[k] is Some
}

/// An expression made of operators (`operator_value`), not deeper than `fuel` allows, folded
/// on `e` (only constants where `only_constant`): `Some` of the folded value, or `Some(None)`
/// where folding fails. `None` for other expressions.
pub open spec fn operator_fold(e: SymbolicExecutor, expr: DebugExpression, fuel: nat, only_constant: bool) -> Option<Option<SpecValue>> {
    match operator_value(expr, e.cur_state.owner_name@) {
        Some(v) => {
            if fuel > operator_depth(expr) {
                Some(e.spec_fold_here(v, only_constant))
            } else {
                None
            }
        },
        None => None,
    }
}

/// The depth of the operator tree of an expression: the steps that evaluating it takes.
pub open spec fn operator_depth(e: DebugExpression) -> nat
    decreases e,
{
    match e {
        DebugExpression::InfixOp { lhe, rhe, .. } => {
            let (l, r) = (operator_depth(*lhe), operator_depth(*rhe));
            1 + if l < r { r } else { l }
        },
        DebugExpression::PrefixOp { rhe, .. } => 1 + operator_depth(*rhe),
        DebugExpression::InlineSwitchOp { cond, if_true, if_false, .. } => {
            let (c, t, f) = (operator_depth(*cond), operator_depth(*if_true), operator_depth(*if_false));
            let m = if c < t { t } else { c };
            1 + if m < f { f } else { m }
        },
        DebugExpression::ParallelOp { rhe, .. } => 1 + operator_depth(*rhe),
        _ => 1,
    }
}

/// Every open path of `b` and every final state that `b` added since `a` continue `p`.
pub open spec fn new_paths_continue(p: Path, a: SymbolicExecutor, b: SymbolicExecutor) -> bool {
    &&& open_paths_continue(p, b)
    &&& forall|i: int| a.symbolic_store.final_states@.len() <= i < b.symbolic_store.final_states@.len()
        ==> continues(p, #[trigger] b.symbolic_store.final_states@[i])
}

/// The path of the current state of `e` with the condition of `assert(arg)` added to its trace
/// constraints, folded as the setting says; where `arg` is made of operators
/// (`operator_value`), is not deeper than `fuel` allows, and folds. `None` otherwise.
pub open spec fn assert_path(e: SymbolicExecutor, arg: DebugExpression, fuel: nat) -> Option<Path> {
    match operator_value(arg, e.cur_state.owner_name@) {
        Some(v) => {
            if fuel > operator_depth(arg) {
                match e.spec_fold_here(v, !e.setting.propagate_assignments) {
                    Some(c) => Some(Path { trace: path_of(e.cur_state).trace.push(c), side: path_of(e.cur_state).side }),
                    None => None,
                }
            } else {
                None
            }
        },
        None => None,
    }
}

/// The negation of a condition: the other boolean for a boolean, else `!` applied to it.
pub open spec fn negated(v: SpecValue) -> SpecValue {
    match v {
        SpecValue::Bool(b) => SpecValue::Bool(!b),
        _ => SpecValue::UnaryOp(ExpressionPrefixOpcode::BoolNot, Box::new(v)),
    }
}

/// The two paths of a branch on `cond`, where `cond` is made of operators
/// (`operator_value`) not deeper than `fuel` allows and folds both ways: the then path is the
/// current path with the condition folded as the setting says added to the trace constraints
/// and the condition with only constants folded added to the side constraints; the else
/// path adds their negations (`negated`) instead.
pub open spec fn branch_paths(e: SymbolicExecutor, cond: DebugExpression, fuel: nat) -> Option<(Path, Path)> {
    match operator_value(cond, e.cur_state.owner_name@) {
        Some(v) => {
            if fuel > operator_depth(cond) {
                match (e.spec_fold_here(v, true), e.spec_fold_here(v, !e.setting.propagate_assignments)) {
                    (Some(oc), Some(c)) => Some((
                        Path { trace: path_of(e.cur_state).trace.push(c), side: path_of(e.cur_state).side.push(oc) },
                        Path { trace: path_of(e.cur_state).trace.push(negated(c)), side: path_of(e.cur_state).side.push(negated(oc)) },
                    )),
                    _ => None,
                }
            } else {
                None
            }
        },
        None => None,
    }
}

/// Every path that `b` leaves open, and every final state that it added to those of `a`,
/// continues `p` or continues `q`.
pub open spec fn new_paths_continue_either(p: Path, q: Path, a: SymbolicExecutor, b: SymbolicExecutor) -> bool {
    &&& (continues(p, b.cur_state) || continues(q, b.cur_state))
    &&& forall|i: int| 0 <= i < b.symbolic_store.block_end_states@.len()
        ==> continues(p, #[trigger] b.symbolic_store.block_end_states@[i]) || continues(q, b.symbolic_store.block_end_states@[i])
    &&& forall|i: int| a.symbolic_store.final_states@.len() <= i < b.symbolic_store.final_states@.len()
        ==> continues(p, #[trigger] b.symbolic_store.final_states@[i]) || continues(q, b.symbolic_store.final_states@[i])
}

/// The path of the current state of `e` with the equality `lhe == rhe` added: to the trace
/// constraints with both sides folded as the setting says, and, for a `signal` equality, to
/// the side constraints with only constants folded; where both sides are made of operators,
/// are not deeper than `fuel` allows, and fold. `None` otherwise.
pub open spec fn equality_path(e: SymbolicExecutor, lhe: DebugExpression, rhe: DebugExpression, signal: bool, fuel: nat) -> Option<Path> {
    let owner = e.cur_state.owner_name@;
    let prop = !e.setting.propagate_assignments;
    match (operator_value(lhe, owner), operator_value(rhe, owner)) {
        (Some(lv), Some(rv)) => {
            if fuel > operator_depth(lhe) && fuel > operator_depth(rhe) {
                match (e.spec_fold_here(lv, true), e.spec_fold_here(lv, prop), e.spec_fold_here(rv, true), e.spec_fold_here(rv, prop)) {
                    (Some(ol), Some(l), Some(or), Some(r)) => Some(Path {
                        trace: path_of(e.cur_state).trace.push(SpecValue::BinaryOp(Box::new(l), ExpressionInfixOpcode::Eq, Box::new(r))),
                        side: if signal {
                            path_of(e.cur_state).side.push(SpecValue::BinaryOp(Box::new(ol), ExpressionInfixOpcode::Eq, Box::new(or)))
                        } else {
                            path_of(e.cur_state).side
                        },
                    }),
                    _ => None,
                }
            } else {
                None
            }
        },
        _ => None,
    }
}

/// The path of the current state of `e` after the substitution `var op rhe`, without
/// accesses, of a declared name that is not a plain variable, where `rhe` is made of
/// operators, is not deeper than `fuel` allows, and folds to something other than a call: the
/// equality of the variable and the value folded as the setting says added to the trace
/// constraints and, for `<==`, the equality with only constants folded added to the side
/// constraints. `None` otherwise.
pub open spec fn substitution_path(e: SymbolicExecutor, var: usize, access: Seq<DebugAccess>, op: AssignOp, rhe: DebugExpression, fuel: nat) -> Option<Path> {
    let owner = e.cur_state.owner_name@;
    let types = e.symbolic_store.variable_types@;
    let p = path_of(e.cur_state);
    let x = SpecValue::Var(SpecName { name: var, owner: owner, access: Seq::empty() });
    if access.len() == 0 && fuel > operator_depth(rhe) && types.contains_key(var) && !(types[var].0 is Var) {
        match operator_value(rhe, owner) {
            Some(v) => {
                match (e.spec_fold_here(v, true), e.spec_fold_here(v, !e.setting.propagate_assignments)) {
                    (Some(ov), Some(val)) => {
                        if val is Call {
                            None
                        } else {
                            Some(Path {
                                trace: p.trace.push(SpecValue::BinaryOp(Box::new(x), ExpressionInfixOpcode::Eq, Box::new(val))),
                                side: if op == AssignOp::AssignConstraintSignal {
                                    p.side.push(SpecValue::BinaryOp(Box::new(x), ExpressionInfixOpcode::Eq, Box::new(ov)))
                                } else {
                                    p.side
                                },
                            })
                        }
                    },
                    _ => None,
                }
            },
            None => None,
        }
    } else {
        None
    }
}

/// The path that the statement `stmt` leaves the current state of `e` on before the
/// statements after it run, where it is an assertion, a constraint equality, a multiple
/// substitution or a substitution of a signal whose expressions are made of operators and
/// fold (see `assert_path`, `equality_path` and `substitution_path`). `None` for other
/// statements.
pub open spec fn statement_path(e: SymbolicExecutor, stmt: DebugStatement, fuel: nat) -> Option<Path> {
    match stmt {
        DebugStatement::Assert { arg, .. } => assert_path(e, arg, fuel),
        DebugStatement::ConstraintEquality { lhe, rhe, .. } => equality_path(e, lhe, rhe, true, fuel),
        DebugStatement::MultSubstitution { lhe, op, rhe, .. } =>
            equality_path(e, lhe, rhe, op.0 == AssignOp::AssignConstraintSignal, fuel),
        DebugStatement::Substitution { var, access, op, rhe, .. } =>
            substitution_path(e, var, access@, op.0, rhe, (fuel - 1) as nat),
        _ => None,
    }
}

/// What one path holds while code runs: its variables, its trace and side constraints, and
/// its depth.
pub ghost struct Frame {
    pub values: Map<SpecName, SpecValue>,
    pub trace: Seq<SpecValue>,
    pub side: Seq<SpecValue>,
    pub depth: int,
}

/// What stays fixed while code runs in one template instance: the prime, the kinds that the
/// template declares, the owner and template of every path, and whether folding keeps to
/// constants.
pub ghost struct RunContext {
    pub prime: int,
    pub types: Map<usize, VariableType>,
    pub owner: Seq<OwnerName>,
    pub template_id: usize,
    pub fold_constant: bool,
}

/// What running code leaves: the final states it added, the block-end states that are
/// pending afterwards, for each declared name whether it is a plain variable, and the frame
/// of the current state.
pub ghost struct Outcome {
    pub finals: Seq<Frame>,
    pub ends: Seq<Frame>,
    pub kinds: Map<usize, bool>,
    pub cur: Frame,
}

/// The frame of a state.
pub open spec fn frame_of(s: SymbolicState) -> Frame {
    Frame {
        values: s.values@,
        trace: values_view(s.trace_constraints@),
        side: values_view(s.side_constraints@),
        depth: s.depth as int,
    }
}

/// The frames of a list of states.
pub open spec fn frames_of(ss: Seq<SymbolicState>) -> Seq<Frame> {
    ss.map_values(|s: SymbolicState| frame_of(s))
}

/// For each name of a table of kinds, whether it is a plain variable.
pub open spec fn kind_flags(kinds: Map<usize, DebugVariableType>) -> Map<usize, bool> {
    Map::new(|k: usize| kinds.contains_key(k), |k: usize| kinds[k].0 is Var)
}

/// The statements that a list of references points to.
pub open spec fn derefs(s: Seq<&DebugStatement>) -> Seq<DebugStatement> {
    s.map_values(|r: &DebugStatement| *r)
}

/// The context in which the executor runs its current state.
pub open spec fn context_of(e: SymbolicExecutor) -> RunContext {
    RunContext {
        prime: e.setting.prime@,
        types: e.types_here(),
        owner: e.cur_state.owner_name@,
        template_id: e.cur_state.template_id,
        fold_constant: !e.setting.propagate_assignments,
    }
}

/// The state belongs to the owner and template of the context.
pub open spec fn state_in(c: RunContext, s: SymbolicState) -> bool {
    s.owner_name@ == c.owner && s.template_id == c.template_id
}

/// The executor runs in the context, and so do its pending block-end states.
pub open spec fn runs_in(c: RunContext, e: SymbolicExecutor) -> bool {
    &&& context_of(e) == c
    &&& forall|i: int| 0 <= i < e.symbolic_store.block_end_states@.len() ==> state_in(c, #[trigger] e.symbolic_store.block_end_states@[i])
}

/// From `a` to `b` the run went as `o` says, without an error and without calling a
/// function: the final states that `b` added, its pending block-end states, the kinds of its
/// names and the frame of its current state are those of `o`, the call counters are those of
/// `a`, and it still runs in the context.
pub open spec fn ran(c: RunContext, a: SymbolicExecutor, b: SymbolicExecutor, o: Outcome) -> bool {
    &&& b.symbolic_store.error is None
    &&& b.symbolic_library.function_counter == a.symbolic_library.function_counter
    &&& frames_of(b.symbolic_store.final_states@) == frames_of(a.symbolic_store.final_states@) + o.finals
    &&& frames_of(b.symbolic_store.block_end_states@) == o.ends
    &&& kind_flags(b.symbolic_store.variable_types@) == o.kinds
    &&& frame_of(b.cur_state) == o.cur
    &&& runs_in(c, b)
    &&& forall|i: int| a.symbolic_store.final_states@.len() <= i < b.symbolic_store.final_states@.len()
        ==> state_in(c, #[trigger] b.symbolic_store.final_states@[i])
}

/// The executor can run on: no error is recorded, and its pending block-end states belong to
/// the owner and template of its current state.
pub open spec fn ready_to_run(e: SymbolicExecutor) -> bool {
    e.symbolic_store.error is None && runs_in(context_of(e), e)
}

/// For each declared name of the executor, whether it is a plain variable.
pub open spec fn kinds_of(e: SymbolicExecutor) -> Map<usize, bool> {
    kind_flags(e.symbolic_store.variable_types@)
}

/// The frames of the executor's pending block-end states.
pub open spec fn pending_of(e: SymbolicExecutor) -> Seq<Frame> {
    frames_of(e.symbolic_store.block_end_states@)
}

/// Folding on a frame in a context.
pub open spec fn fold_in(c: RunContext, fr: Frame, v: SpecValue, only_constant: bool) -> Option<SpecValue> {
    spec_fold(c.prime, fr.values, c.types, v, only_constant)
}

/// The frame with the given constraints in place of its own.
pub open spec fn with_path(fr: Frame, trace: Seq<SpecValue>, side: Seq<SpecValue>) -> Frame {
    Frame { values: fr.values, trace: trace, side: side, depth: fr.depth }
}

/// The equality of two values, as a constraint.
pub open spec fn equals(l: SpecValue, r: SpecValue) -> SpecValue {
    SpecValue::BinaryOp(Box::new(l), ExpressionInfixOpcode::Eq, Box::new(r))
}

/// The plain name `n` of the context's owner.
pub open spec fn name_in(c: RunContext, n: usize) -> SpecName {
    SpecName { name: n, owner: c.owner, access: Seq::empty() }
}

/// A constraint equality (or a multiple substitution) on a frame: `l == r` folded as the
/// setting says added to the trace constraints and, where `signal` is set, `l == r` with
/// only constants folded added to the side constraints. Both sides made of operators, not
/// deeper than `fuel` allows.
pub open spec fn equality_frame(c: RunContext, fr: Frame, lhe: DebugExpression, rhe: DebugExpression, signal: bool, fuel: nat) -> Option<Frame> {
    match (operator_value(lhe, c.owner), operator_value(rhe, c.owner)) {
        (Some(lv), Some(rv)) => {
            if fuel > operator_depth(lhe) && fuel > operator_depth(rhe) {
                match (fold_in(c, fr, lv, true), fold_in(c, fr, lv, c.fold_constant), fold_in(c, fr, rv, true), fold_in(c, fr, rv, c.fold_constant)) {
                    (Some(ol), Some(l), Some(or), Some(r)) => Some(with_path(
                        fr,
                        fr.trace.push(equals(l, r)),
                        if signal { fr.side.push(equals(ol, or)) } else { fr.side },
                    )),
                    _ => None,
                }
            } else {
                None
            }
        },
        _ => None,
    }
}

/// An assertion on a frame: its folded condition added to the trace constraints.
pub open spec fn assert_frame(c: RunContext, fr: Frame, arg: DebugExpression, fuel: nat) -> Option<Frame> {
    match operator_value(arg, c.owner) {
        Some(v) => {
            if fuel > operator_depth(arg) {
                match fold_in(c, fr, v, c.fold_constant) {
                    Some(x) => Some(with_path(fr, fr.trace.push(x), fr.side)),
                    None => None,
                }
            } else {
                None
            }
        },
        None => None,
    }
}

/// A `return` on a frame: the folded value bound to the return name of the owner.
pub open spec fn return_frame(c: RunContext, fr: Frame, value: DebugExpression, fuel: nat) -> Option<Frame> {
    match operator_value(value, c.owner) {
        Some(v) => {
            if fuel > operator_depth(value) {
                match fold_in(c, fr, v, c.fold_constant) {
                    Some(x) => Some(Frame { values: fr.values.insert(name_in(c, usize::MAX), x), ..fr }),
                    None => None,
                }
            } else {
                None
            }
        },
        None => None,
    }
}

/// A substitution of a declared plain name by operators on a frame: the folded value bound
/// to the name; for a name that is not a plain variable, also `x == value` added to the
/// trace constraints and, for `<==`, `x == value` with only constants folded added to the
/// side constraints. Not given for an access, an undeclared name or a call.
pub open spec fn substitution_frame(
    c: RunContext,
    kinds: Map<usize, bool>,
    fr: Frame,
    var: usize,
    access: Seq<DebugAccess>,
    op: AssignOp,
    rhe: DebugExpression,
    fuel: nat,
) -> Option<Frame> {
    let x = name_in(c, var);
    if access.len() == 0 && fuel > operator_depth(rhe) && kinds.contains_key(var) {
        match operator_value(rhe, c.owner) {
            Some(v) => {
                match (fold_in(c, fr, v, true), fold_in(c, fr, v, c.fold_constant)) {
                    (Some(ov), Some(val)) => {
                        if val is Call {
                            None
                        } else if kinds[var] {
                            Some(Frame { values: fr.values.insert(x, val), ..fr })
                        } else {
                            Some(Frame {
                                values: fr.values.insert(x, val),
                                trace: fr.trace.push(equals(SpecValue::Var(x), val)),
                                side: if op == AssignOp::AssignConstraintSignal {
                                    fr.side.push(equals(SpecValue::Var(x), ov))
                                } else {
                                    fr.side
                                },
                                depth: fr.depth,
                            })
                        }
                    },
                    _ => None,
                }
            },
            None => None,
        }
    } else {
        None
    }
}

/// A statement step followed by the rest of the list: `None` where the step is not given.
#[verifier::opaque]
pub open spec fn then_run(c: RunContext, kinds: Map<usize, bool>, pend: Seq<Frame>, step: Option<Frame>, stmts: Seq<DebugStatement>, i: int, fuel: nat) -> Option<Outcome>
    decreases fuel, 3nat, 0nat,
{
    match step {
        Some(fr) => if fuel > 0 { run_list(c, kinds, pend, fr, stmts, i, (fuel - 1) as nat) } else { None },
        None => None,
    }
}

/// Running the statements of `stmts` from place `i` on the frame `fr`, with the block-end
/// frames `pend` pending: a `Ret` adds the frame to the final frames, running past the end
/// adds it to the pending frames, declarations, substitutions, equalities, assertions and
/// returns over operators change it as their steps say, a block runs and then every pending
/// frame runs the rest, a branch runs as `if_run` says and a loop as `while_run` says.
/// `None` for other statements, where a step is not given, or where `fuel` runs out.
#[verifier::opaque]
pub open spec fn run_list(c: RunContext, kinds: Map<usize, bool>, pend: Seq<Frame>, fr: Frame, stmts: Seq<DebugStatement>, i: int, fuel: nat) -> Option<Outcome>
    decreases fuel, 4nat, 0nat,
{
    if fuel == 0 || i < 0 {
        None
    } else if i >= stmts.len() {
        Some(Outcome { finals: Seq::empty(), ends: pend.push(fr), kinds: kinds, cur: fr })
    } else {
        match stmts[i] {
            DebugStatement::Ret => Some(Outcome { finals: seq![fr], ends: pend, kinds: kinds, cur: fr }),
            DebugStatement::Declaration { name, xtype, .. } => run_list(
                c,
                kinds.insert(name, xtype is Var),
                pend,
                Frame { values: fr.values.insert(name_in(c, name), SpecValue::Var(name_in(c, name))), ..fr },
                stmts,
                i + 1,
                (fuel - 1) as nat,
            ),
            DebugStatement::Substitution { var, access, op, rhe, .. } => then_run(
                c, kinds, pend, substitution_frame(c, kinds, fr, var, access@, op.0, rhe, (fuel - 1) as nat), stmts, i + 1, fuel),
            DebugStatement::MultSubstitution { lhe, op, rhe, .. } => then_run(
                c, kinds, pend, equality_frame(c, fr, lhe, rhe, op.0 == AssignOp::AssignConstraintSignal, fuel), stmts, i + 1, fuel),
            DebugStatement::ConstraintEquality { lhe, rhe, .. } => then_run(
                c, kinds, pend, equality_frame(c, fr, lhe, rhe, true, fuel), stmts, i + 1, fuel),
            DebugStatement::Assert { arg, .. } => then_run(c, kinds, pend, assert_frame(c, fr, arg, fuel), stmts, i + 1, fuel),
            DebugStatement::Return { value, .. } => then_run(c, kinds, pend, return_frame(c, fr, value, fuel), stmts, i + 1, fuel),
            DebugStatement::UnderscoreSubstitution { .. } => Some(Outcome { finals: Seq::empty(), ends: pend, kinds: kinds, cur: fr }),
            DebugStatement::LogCall { .. } => Some(Outcome { finals: Seq::empty(), ends: pend, kinds: kinds, cur: fr }),
            DebugStatement::Block { stmts: inner, .. } => {
                match run_list(c, kinds, pend, fr, inner@, 0, (fuel - 1) as nat) {
                    Some(o1) => match expand_run(c, o1.kinds, Seq::empty(), o1.ends, stmts, i + 1, o1.cur.depth, o1.cur, (fuel - 1) as nat) {
                        Some(o2) => Some(Outcome { finals: o1.finals + o2.finals, ends: o2.ends, kinds: o2.kinds, cur: o2.cur }),
                        None => None,
                    },
                    None => None,
                }
            },
            DebugStatement::IfThenElse { cond, if_case, else_case, .. } => if_run(
                c, kinds, pend, fr, cond, *if_case, else_case, stmts, i, (fuel - 1) as nat),
            DebugStatement::While { cond, stmt: body, .. } => while_run(c, kinds, pend, fr, cond, *body, stmts, i, fuel),
            _ => None,
        }
    }
}

/// Running every frame of `frames` in turn, its depth set to `d`, on the statements of
/// `stmts` from place `i`; `depth` is the depth of the current state before.
#[verifier::opaque]
pub open spec fn expand_run(c: RunContext, kinds: Map<usize, bool>, pend: Seq<Frame>, frames: Seq<Frame>, stmts: Seq<DebugStatement>, i: int, d: int, cur: Frame, fuel: nat) -> Option<Outcome>
    decreases fuel, 0nat, frames.len(),
{
    if fuel == 0 {
        None
    } else if frames.len() == 0 {
        Some(Outcome { finals: Seq::empty(), ends: pend, kinds: kinds, cur: cur })
    } else {
        match run_list(c, kinds, pend, Frame { depth: d, ..frames[0] }, stmts, i, (fuel - 1) as nat) {
            Some(o1) => match expand_run(c, o1.kinds, o1.ends, frames.drop_first(), stmts, i, d, o1.cur, fuel) {
                Some(o2) => Some(Outcome { finals: o1.finals + o2.finals, ends: o2.ends, kinds: o2.kinds, cur: o2.cur }),
                None => None,
            },
            None => None,
        }
    }
}

/// A `while` loop at place `i`, its condition made of operators not deeper than `fuel`
/// allows and folding to a boolean: where it folds to `true`, the body runs, the block-end
/// state it leaves last is dropped, and the loop runs again from the state the body left,
/// then every pending frame runs the statements after the loop; where it folds to `false`,
/// the frame joins the pending frames, and every pending frame runs the statements after
/// the loop. `None` for a condition that folds to anything else.
#[verifier::opaque]
pub open spec fn while_run(
    c: RunContext,
    kinds: Map<usize, bool>,
    pend: Seq<Frame>,
    fr: Frame,
    cond: DebugExpression,
    body: DebugStatement,
    stmts: Seq<DebugStatement>,
    i: int,
    fuel: nat,
) -> Option<Outcome>
    decreases fuel, 2nat, 0nat,
{
    if fuel == 0 {
        None
    } else {
        match operator_value(cond, c.owner) {
            Some(v) => {
                if fuel > operator_depth(cond) {
                    match fold_in(c, fr, v, c.fold_constant) {
                        Some(SpecValue::Bool(true)) => match run_list(c, kinds, pend, fr, seq![body], 0, (fuel - 1) as nat) {
                            Some(o1) => match run_list(c, o1.kinds, if o1.ends.len() > 0 { o1.ends.drop_last() } else { o1.ends },
                                o1.cur, stmts, i, (fuel - 1) as nat) {
                                Some(o2) => match expand_run(c, o2.kinds, Seq::empty(), o2.ends, stmts, i + 1, o2.cur.depth, o2.cur, (fuel - 1) as nat) {
                                    Some(o3) => Some(Outcome { finals: o1.finals + o2.finals + o3.finals, ends: o3.ends, kinds: o3.kinds, cur: o3.cur }),
                                    None => None,
                                },
                                None => None,
                            },
                            None => None,
                        },
                        Some(SpecValue::Bool(false)) => expand_run(c, kinds, Seq::empty(), pend.push(fr), stmts, i + 1, fr.depth, fr, (fuel - 1) as nat),
                        _ => None,
                    }
                } else {
                    None
                }
            },
            None => None,
        }
    }
}

/// A branch frame: `x` added to the trace constraints, `ox` to the side constraints, one
/// level deeper.
pub open spec fn branch_frame(fr: Frame, x: SpecValue, ox: SpecValue) -> Frame {
    Frame { values: fr.values, trace: fr.trace.push(x), side: fr.side.push(ox), depth: fr.depth + 1 }
}

/// The then part of a branch whose condition folded to `cv` (only constants: `oc`): nothing
/// where `cv` is `false`; otherwise the then path runs `if_case`, and then every pending
/// frame runs the statements after the branch.
#[verifier::opaque]
pub open spec fn then_part(c: RunContext, kinds: Map<usize, bool>, pend: Seq<Frame>, fr: Frame, cv: SpecValue, oc: SpecValue,
    if_case: DebugStatement, stmts: Seq<DebugStatement>, i: int, fuel: nat) -> Option<Outcome>
    decreases fuel, 1nat, 0nat,
{
    if cv == SpecValue::Bool(false) {
        Some(Outcome { finals: Seq::empty(), ends: pend, kinds: kinds, cur: fr })
    } else if fuel == 0 {
        None
    } else {
        match run_list(c, kinds, pend, branch_frame(fr, cv, oc), seq![if_case], 0, (fuel - 1) as nat) {
            Some(o1) => match expand_run(c, o1.kinds, Seq::empty(), o1.ends, stmts, i + 1, fr.depth, o1.cur, (fuel - 1) as nat) {
                Some(o2) => Some(Outcome { finals: o1.finals + o2.finals, ends: o2.ends, kinds: o2.kinds, cur: o2.cur }),
                None => None,
            },
            None => None,
        }
    }
}

/// The else part of a branch: the else path, taken from the frame before the branch, runs
/// `else_case` (or, where there is none, becomes the only pending frame), and then every
/// pending frame runs the statements after the branch.
#[verifier::opaque]
pub open spec fn else_part(c: RunContext, kinds: Map<usize, bool>, pend: Seq<Frame>, fr: Frame, cv: SpecValue, oc: SpecValue,
    else_case: Option<Box<DebugStatement>>, stmts: Seq<DebugStatement>, i: int, fuel: nat) -> Option<Outcome>
    decreases fuel, 1nat, 0nat,
{
    if fuel == 0 {
        None
    } else {
        let else_fr = branch_frame(fr, negated(cv), negated(oc));
        let first: Option<Outcome> = match else_case {
            Some(es) => run_list(c, kinds, pend, else_fr, seq![*es], 0, (fuel - 1) as nat),
            None => Some(Outcome { finals: Seq::empty(), ends: seq![else_fr], kinds: kinds, cur: else_fr }),
        };
        match first {
            Some(o1) => match expand_run(c, o1.kinds, Seq::empty(), o1.ends, stmts, i + 1, fr.depth, o1.cur, (fuel - 1) as nat) {
                Some(o2) => Some(Outcome { finals: o1.finals + o2.finals, ends: o2.ends, kinds: o2.kinds, cur: o2.cur }),
                None => None,
            },
            None => None,
        }
    }
}

/// A branch on `cond` at place `i`, `cond` made of operators not deeper than `fuel` allows:
/// the then part runs (`then_part`), and, unless the condition folds to `true`, the else part
/// (`else_part`) after it; the frames left pending by the then part stay pending after the
/// else part.
#[verifier::opaque]
pub open spec fn if_run(
    c: RunContext,
    kinds: Map<usize, bool>,
    pend: Seq<Frame>,
    fr: Frame,
    cond: DebugExpression,
    if_case: DebugStatement,
    else_case: Option<Box<DebugStatement>>,
    stmts: Seq<DebugStatement>,
    i: int,
    fuel: nat,
) -> Option<Outcome>
    decreases fuel, 2nat, 0nat,
{
    if fuel == 0 {
        None
    } else {
        match operator_value(cond, c.owner) {
            Some(v) => {
                if fuel > operator_depth(cond) && fr.depth < usize::MAX {
                    match (fold_in(c, fr, v, true), fold_in(c, fr, v, c.fold_constant)) {
                        (Some(oc), Some(cv)) => match then_part(c, kinds, pend, fr, cv, oc, if_case, stmts, i, fuel) {
                            Some(a) => {
                                if negated(cv) == SpecValue::Bool(false) {
                                    Some(Outcome { finals: a.finals, ends: pend + a.ends, kinds: a.kinds, cur: a.cur })
                                } else {
                                    match else_part(c, a.kinds, pend, fr, cv, oc, else_case, stmts, i, fuel) {
                                        Some(b) => Some(Outcome { finals: a.finals + b.finals, ends: b.ends + a.ends, kinds: b.kinds, cur: b.cur }),
                                        None => None,
                                    }
                                }
                            },
                            None => None,
                        },
                        _ => None,
                    }
                } else {
                    None
                }
            },
            None => None,
        }
    }
}

/// Two runs one after the other make one run: the final frames of both, and what the second
/// left.
proof fn lemma_ran_compose(c: RunContext, a: SymbolicExecutor, b: SymbolicExecutor, d: SymbolicExecutor, o1: Outcome, o2: Outcome)
    requires
        ran(c, a, b, o1),
        ran(c, b, d, o2),
        kept(b, d),
    ensures
        ran(c, a, d, Outcome { finals: o1.finals + o2.finals, ends: o2.ends, kinds: o2.kinds, cur: o2.cur }),
{
    assert(frames_of(d.symbolic_store.final_states@) =~= frames_of(a.symbolic_store.final_states@) + (o1.finals + o2.finals));
    assert forall|i: int| a.symbolic_store.final_states@.len() <= i < d.symbolic_store.final_states@.len()
        implies state_in(c, #[trigger] d.symbolic_store.final_states@[i]) by {
        if i < b.symbolic_store.final_states@.len() {
            assert(d.symbolic_store.final_states@[i] == b.symbolic_store.final_states@[i]);
        }
    }
}

/// The context in which a body runs on the state `s`, under the setting and templates of `e`.
pub open spec fn frame_context(e: SymbolicExecutor, s: SymbolicState) -> RunContext {
    RunContext {
        prime: e.setting.prime@,
        types: template_types(e.symbolic_library.template_library@, s.template_id),
        owner: s.owner_name@,
        template_id: s.template_id,
        fold_constant: !e.setting.propagate_assignments,
    }
}

/// The first `k` parameter names of `names` bound to the values of `args` at the same places,
/// under `owner`.
pub open spec fn arg_values(names: Seq<usize>, args: Seq<SpecValue>, owner: Seq<OwnerName>, k: nat) -> Map<SpecName, SpecValue>
    decreases k,
{
    if k == 0 {
        Map::empty()
    } else {
        arg_values(names, args, owner, (k - 1) as nat).insert(SpecName { name: names[k - 1], owner: owner, access: Seq::empty() }, args[k - 1])
    }
}

/// The owner under which a call of the function `id` runs: the current owner with the call
/// and the function's call counter added.
pub open spec fn call_owner(e: SymbolicExecutor, id: usize) -> Seq<OwnerName> {
    e.cur_state.owner_name@.push(OwnerName { name: id, counter: e.symbolic_library.function_counter@[id] })
}

/// The first final frame of a call of the function `id` on `args`, where the function is
/// known, its counter can grow, it has no more parameters than arguments, and its body runs
/// as `run_list` says (no template, no pending state, the parameters bound) and ends with at
/// least one final frame.
pub open spec fn call_outcome(e: SymbolicExecutor, id: usize, args: Seq<SpecValue>, fuel: nat) -> Option<Frame> {
    let lib = e.symbolic_library;
    if fuel > 0 && lib.function_counter@.contains_key(id) && lib.function_counter@[id] < usize::MAX
        && lib.function_library@.contains_key(id) && lib.function_library@[id].function_argument_names@.len() <= args.len() {
        let names = lib.function_library@[id].function_argument_names@;
        let owner = call_owner(e, id);
        let c = RunContext {
            prime: e.setting.prime@,
            types: template_types(lib.template_library@, usize::MAX),
            owner: owner,
            template_id: usize::MAX,
            fold_constant: !e.setting.propagate_assignments,
        };
        let fr = Frame { values: arg_values(names, args, owner, names.len()), trace: Seq::empty(), side: Seq::empty(), depth: 0 };
        match run_list(c, Map::empty(), Seq::empty(), fr, lib.function_library@[id].body@, 0, (fuel - 1) as nat) {
            Some(o) => if o.finals.len() > 0 { Some(o.finals[0]) } else { None },
            None => None,
        }
    } else {
        None
    }
}

/// The operator values of a list of expressions under `owner`.
pub open spec fn operator_values(exprs: Seq<DebugExpression>, owner: Seq<OwnerName>) -> Seq<SpecValue> {
    Seq::new(exprs.len(), |i: int| operator_value(exprs[i], owner).unwrap())
}

/// For a call of the function `id` (not a template) whose arguments are operator
/// expressions that evaluation can go through and that fold, the function and the first final
/// frame of its run on the folded arguments (`call_outcome`).
pub open spec fn call_result(e: SymbolicExecutor, expr: DebugExpression, fuel: nat) -> Option<(usize, Frame)> {
    match expr {
        DebugExpression::Call { id, args, .. } => {
            let owner = e.cur_state.owner_name@;
            if fuel > 1 && !e.symbolic_library.template_library@.contains_key(id) && e.symbolic_library.function_library@.contains_key(id)
                && (forall|i: int| 0 <= i < args@.len() ==> #[trigger] operator_value(args@[i], owner) is Some
                    && fuel - 1 > operator_depth(args@[i])) {
                match fold_seq(e.setting.prime@, e.cur_state.values@, e.types_here(), operator_values(args@, owner), false) {
                    Some(fa) => match call_outcome(e, id, fa, (fuel - 1) as nat) {
                        Some(f) => Some((id, f)),
                        None => None,
                    },
                    None => None,
                }
            } else {
                None
            }
        },
        _ => None,
    }
}

/// The variables with the assigned constants bound, entry after entry.
pub open spec fn assigned_values(vals: Map<SpecName, SpecValue>, entries: Seq<(SymbolicName, BigNum)>) -> Map<SpecName, SpecValue>
    decreases entries.len(),
{
    if entries.len() == 0 {
        vals
    } else {
        assigned_values(vals, entries.drop_last()).insert(entries.last().0@, SpecValue::Int(entries.last().1@))
    }
}

/// The context of a concrete run of the template `tid` on the executor's current owner.
pub open spec fn template_context(e: SymbolicExecutor, tid: usize) -> RunContext {
    RunContext {
        prime: e.setting.prime@,
        types: template_types(e.symbolic_library.template_library@, tid),
        owner: e.cur_state.owner_name@,
        template_id: tid,
        fold_constant: !e.setting.propagate_assignments,
    }
}

/// The frame on which a concrete run starts: the current state with the assigned constants
/// bound.
pub open spec fn assigned_frame(e: SymbolicExecutor, entries: Seq<(SymbolicName, BigNum)>) -> Frame {
    Frame { values: assigned_values(e.cur_state.values@, entries), ..frame_of(e.cur_state) }
}

/// One step of `then_run`: a given step runs the rest of the list.
proof fn lemma_then_run(c: RunContext, kinds: Map<usize, bool>, pend: Seq<Frame>, step: Option<Frame>, stmts: Seq<DebugStatement>, i: int, fuel: nat)
    requires
        then_run(c, kinds, pend, step, stmts, i, fuel) is Some,
    ensures
        fuel > 0,
        step is Some,
        then_run(c, kinds, pend, step, stmts, i, fuel) == run_list(c, kinds, pend, step.unwrap(), stmts, i, (fuel - 1) as nat),
{
    reveal_with_fuel(then_run, 1);
    reveal_with_fuel(run_list, 1);
    reveal_with_fuel(expand_run, 1);
    reveal_with_fuel(then_part, 1);
    reveal_with_fuel(else_part, 1);
    reveal_with_fuel(if_run, 1);
    reveal_with_fuel(while_run, 1);
}

/// One step of `expand_run`.
proof fn lemma_expand_run(c: RunContext, kinds: Map<usize, bool>, pend: Seq<Frame>, frames: Seq<Frame>, stmts: Seq<DebugStatement>, i: int, d: int, cur: Frame, fuel: nat)
    requires
        expand_run(c, kinds, pend, frames, stmts, i, d, cur, fuel) is Some,
    ensures
        fuel > 0,
        frames.len() == 0 ==> expand_run(c, kinds, pend, frames, stmts, i, d, cur, fuel)
            == Some(Outcome { finals: Seq::empty(), ends: pend, kinds: kinds, cur: cur }),
        frames.len() > 0 ==> {
            &&& run_list(c, kinds, pend, Frame { depth: d, ..frames[0] }, stmts, i, (fuel - 1) as nat) matches Some(o1)
            &&& expand_run(c, o1.kinds, o1.ends, frames.drop_first(), stmts, i, d, o1.cur, fuel) matches Some(o2)
            &&& expand_run(c, kinds, pend, frames, stmts, i, d, cur, fuel)
                == Some(Outcome { finals: o1.finals + o2.finals, ends: o2.ends, kinds: o2.kinds, cur: o2.cur })
        },
{
    reveal_with_fuel(then_run, 1);
    reveal_with_fuel(run_list, 1);
    reveal_with_fuel(expand_run, 1);
    reveal_with_fuel(then_part, 1);
    reveal_with_fuel(else_part, 1);
    reveal_with_fuel(if_run, 1);
    reveal_with_fuel(while_run, 1);
}

/// One step of `then_part`.
proof fn lemma_then_part(c: RunContext, kinds: Map<usize, bool>, pend: Seq<Frame>, fr: Frame, cv: SpecValue, oc: SpecValue,
    if_case: DebugStatement, stmts: Seq<DebugStatement>, i: int, fuel: nat)
    requires
        then_part(c, kinds, pend, fr, cv, oc, if_case, stmts, i, fuel) is Some,
    ensures
        cv == SpecValue::Bool(false) ==> then_part(c, kinds, pend, fr, cv, oc, if_case, stmts, i, fuel)
            == Some(Outcome { finals: Seq::empty(), ends: pend, kinds: kinds, cur: fr }),
        cv != SpecValue::Bool(false) ==> {
            &&& fuel > 0
            &&& run_list(c, kinds, pend, branch_frame(fr, cv, oc), seq![if_case], 0, (fuel - 1) as nat) matches Some(o1)
            &&& expand_run(c, o1.kinds, Seq::empty(), o1.ends, stmts, i + 1, fr.depth, o1.cur, (fuel - 1) as nat) matches Some(o2)
            &&& then_part(c, kinds, pend, fr, cv, oc, if_case, stmts, i, fuel)
                == Some(Outcome { finals: o1.finals + o2.finals, ends: o2.ends, kinds: o2.kinds, cur: o2.cur })
        },
{
    reveal_with_fuel(then_run, 1);
    reveal_with_fuel(run_list, 1);
    reveal_with_fuel(expand_run, 1);
    reveal_with_fuel(then_part, 1);
    reveal_with_fuel(else_part, 1);
    reveal_with_fuel(if_run, 1);
    reveal_with_fuel(while_run, 1);
}

/// One step of `else_part`.
proof fn lemma_else_part(c: RunContext, kinds: Map<usize, bool>, pend: Seq<Frame>, fr: Frame, cv: SpecValue, oc: SpecValue,
    else_case: Option<Box<DebugStatement>>, stmts: Seq<DebugStatement>, i: int, fuel: nat)
    requires
        else_part(c, kinds, pend, fr, cv, oc, else_case, stmts, i, fuel) is Some,
    ensures
        fuel > 0,
        ({
            let efr = branch_frame(fr, negated(cv), negated(oc));
            let first: Option<Outcome> = match else_case {
                Some(es) => run_list(c, kinds, pend, efr, seq![*es], 0, (fuel - 1) as nat),
                None => Some(Outcome { finals: Seq::empty(), ends: seq![efr], kinds: kinds, cur: efr }),
            };
            &&& first matches Some(o1)
            &&& expand_run(c, o1.kinds, Seq::empty(), o1.ends, stmts, i + 1, fr.depth, o1.cur, (fuel - 1) as nat) matches Some(o2)
            &&& else_part(c, kinds, pend, fr, cv, oc, else_case, stmts, i, fuel)
                == Some(Outcome { finals: o1.finals + o2.finals, ends: o2.ends, kinds: o2.kinds, cur: o2.cur })
        }),
{
    reveal_with_fuel(then_run, 1);
    reveal_with_fuel(run_list, 1);
    reveal_with_fuel(expand_run, 1);
    reveal_with_fuel(then_part, 1);
    reveal_with_fuel(else_part, 1);
    reveal_with_fuel(if_run, 1);
    reveal_with_fuel(while_run, 1);
}

/// One step of `while_run`.
proof fn lemma_while_run(c: RunContext, kinds: Map<usize, bool>, pend: Seq<Frame>, fr: Frame, cond: DebugExpression,
    body: DebugStatement, stmts: Seq<DebugStatement>, i: int, fuel: nat)
    requires
        while_run(c, kinds, pend, fr, cond, body, stmts, i, fuel) is Some,
    ensures
        fuel > 0,
        operator_value(cond, c.owner) is Some,
        fuel > operator_depth(cond),
        fold_in(c, fr, operator_value(cond, c.owner).unwrap(), c.fold_constant) == Some(SpecValue::Bool(true))
            || fold_in(c, fr, operator_value(cond, c.owner).unwrap(), c.fold_constant) == Some(SpecValue::Bool(false)),
        fold_in(c, fr, operator_value(cond, c.owner).unwrap(), c.fold_constant) == Some(SpecValue::Bool(false))
            ==> while_run(c, kinds, pend, fr, cond, body, stmts, i, fuel)
                == expand_run(c, kinds, Seq::empty(), pend.push(fr), stmts, i + 1, fr.depth, fr, (fuel - 1) as nat),
        fold_in(c, fr, operator_value(cond, c.owner).unwrap(), c.fold_constant) == Some(SpecValue::Bool(true)) ==> {
            &&& run_list(c, kinds, pend, fr, seq![body], 0, (fuel - 1) as nat) matches Some(o1)
            &&& run_list(c, o1.kinds, if o1.ends.len() > 0 { o1.ends.drop_last() } else { o1.ends }, o1.cur, stmts, i, (fuel - 1) as nat) matches Some(o2)
            &&& expand_run(c, o2.kinds, Seq::empty(), o2.ends, stmts, i + 1, o2.cur.depth, o2.cur, (fuel - 1) as nat) matches Some(o3)
            &&& while_run(c, kinds, pend, fr, cond, body, stmts, i, fuel)
                == Some(Outcome { finals: o1.finals + o2.finals + o3.finals, ends: o3.ends, kinds: o3.kinds, cur: o3.cur })
        },
{
    reveal_with_fuel(then_run, 1);
    reveal_with_fuel(run_list, 1);
    reveal_with_fuel(expand_run, 1);
    reveal_with_fuel(then_part, 1);
    reveal_with_fuel(else_part, 1);
    reveal_with_fuel(if_run, 1);
    reveal_with_fuel(while_run, 1);
}

/// One step of `if_run`.
proof fn lemma_if_run(c: RunContext, kinds: Map<usize, bool>, pend: Seq<Frame>, fr: Frame, cond: DebugExpression,
    if_case: DebugStatement, else_case: Option<Box<DebugStatement>>, stmts: Seq<DebugStatement>, i: int, fuel: nat)
    requires
        if_run(c, kinds, pend, fr, cond, if_case, else_case, stmts, i, fuel) is Some,
    ensures
        fuel > 0,
        operator_value(cond, c.owner) is Some,
        fuel > operator_depth(cond),
        fr.depth < usize::MAX,
        ({
            let v = operator_value(cond, c.owner).unwrap();
            &&& fold_in(c, fr, v, true) is Some
            &&& fold_in(c, fr, v, c.fold_constant) is Some
            &&& ({
                let (oc, cv) = (fold_in(c, fr, v, true).unwrap(), fold_in(c, fr, v, c.fold_constant).unwrap());
                &&& then_part(c, kinds, pend, fr, cv, oc, if_case, stmts, i, fuel) matches Some(a)
                &&& (negated(cv) == SpecValue::Bool(false) ==> if_run(c, kinds, pend, fr, cond, if_case, else_case, stmts, i, fuel)
                    == Some(Outcome { finals: a.finals, ends: pend + a.ends, kinds: a.kinds, cur: a.cur }))
                &&& (negated(cv) != SpecValue::Bool(false) ==> {
                    &&& else_part(c, a.kinds, pend, fr, cv, oc, else_case, stmts, i, fuel) matches Some(b)
                    &&& if_run(c, kinds, pend, fr, cond, if_case, else_case, stmts, i, fuel)
                        == Some(Outcome { finals: a.finals + b.finals, ends: b.ends + a.ends, kinds: b.kinds, cur: b.cur })
                })
            })
        }),
{
    reveal_with_fuel(then_run, 1);
    reveal_with_fuel(run_list, 1);
    reveal_with_fuel(expand_run, 1);
    reveal_with_fuel(then_part, 1);
    reveal_with_fuel(else_part, 1);
    reveal_with_fuel(if_run, 1);
    reveal_with_fuel(while_run, 1);
}

/// The variables of `values` after the first `k` parameters of `names` are bound, in order,
/// to the values of the operator expressions of `args`, each name taken by its identifier in
/// `table` and qualified by `owner`.
pub open spec fn bound_arguments(
    values: Map<SpecName, SpecValue>,
    table: Map<Seq<char>, usize>,
    names: Seq<String>,
    args: Seq<DebugExpression>,
    owner: Seq<OwnerName>,
    k: nat,
) -> Map<SpecName, SpecValue>
    decreases k,
{
    if k == 0 {
        values
    } else {
        bound_arguments(values, table, names, args, owner, (k - 1) as nat).insert(
            SpecName { name: table[names[k - 1]@], owner: owner, access: Seq::empty() },
            operator_value(args[k - 1], owner).unwrap(),
        )
    }
}

/// Every argument at a place that has a parameter name is an operator expression
/// (`operator_value`) that one call of evaluation can go through.
pub open spec fn operator_arguments(names: Seq<String>, args: Seq<DebugExpression>, owner: Seq<OwnerName>) -> bool {
    forall|i: int| 0 <= i < names.len() && i < args.len()
        ==> #[trigger] operator_value(args[i], owner) is Some && operator_depth(args[i]) <= u64::MAX
}

/// What execution keeps of the library: every name but the return slot, which a return may
/// claim, keeps its number, and every template keeps its signals, its kinds and its body.
pub open spec fn library_kept(a: SymbolicLibrary, b: SymbolicLibrary) -> bool {
    &&& forall|k: Seq<char>| #[trigger] name_ids(a.name2id).contains_key(k) && k != "__return__"@
        ==> name_ids(b.name2id)[k] == name_ids(a.name2id)[k]
    &&& forall|t: usize| #[trigger] a.template_library@.contains_key(t) ==> {
        &&& b.template_library@.contains_key(t)
        &&& b.template_library@[t].outputs == a.template_library@[t].outputs
        &&& b.template_library@[t].var2type == a.template_library@[t].var2type
        &&& b.template_library@[t].body == a.template_library@[t].body
    }
}

/// What every step of execution keeps, paths aside: the final states found so far stay, in
/// order; the deepest depth seen does not decrease; a recorded error stays; the setting is
/// the same; every name of the name table stays in it, and the library
/// keeps what `library_kept` says.
pub open spec fn kept(a: SymbolicExecutor, b: SymbolicExecutor) -> bool {
    &&& a.symbolic_store.final_states@.len() <= b.symbolic_store.final_states@.len()
    &&& forall|i: int| 0 <= i < a.symbolic_store.final_states@.len() ==> #[trigger] b.symbolic_store.final_states@[i] == a.symbolic_store.final_states@[i]
    &&& a.symbolic_store.max_depth <= b.symbolic_store.max_depth
    &&& (a.symbolic_store.error is Some ==> b.symbolic_store.error == a.symbolic_store.error)
    &&& a.setting == b.setting
    &&& name_ids(a.symbolic_library.name2id).dom().subset_of(name_ids(b.symbolic_library.name2id).dom())
    &&& library_kept(*a.symbolic_library, *b.symbolic_library)
}

/// What every step of execution keeps: what `kept` says, and paths only grow.
pub open spec fn progressed(a: SymbolicExecutor, b: SymbolicExecutor) -> bool {
    &&& kept(a, b)
    &&& paths_grow(a, b)
}

/// A state that continues a state on a path is on that path too.
proof fn lemma_continues_trans(s0: Path, s1: SymbolicState, s2: SymbolicState)
    requires
        continues(s0, s1),
        continues(path_of(s1), s2),
    ensures
        continues(s0, s2),
{
    let (t1, t2) = (values_view(s1.trace_constraints@), values_view(s2.trace_constraints@));
    let (c1, c2) = (values_view(s1.side_constraints@), values_view(s2.side_constraints@));
    assert(s0.trace =~= t2.subrange(0, s0.trace.len() as int)) by {
        assert forall|i: int| 0 <= i < s0.trace.len() implies s0.trace[i] == t2[i] by {
            assert(s0.trace[i] == t1[i]);
            assert(t1[i] == t2[i]);
        }
    }
    assert(s0.side =~= c2.subrange(0, s0.side.len() as int)) by {
        assert forall|i: int| 0 <= i < s0.side.len() implies s0.side[i] == c2[i] by {
            assert(s0.side[i] == c1[i]);
            assert(c1[i] == c2[i]);
        }
    }
}

/// Two steps that each keep what execution keeps make one that keeps it.
proof fn lemma_progressed_trans(a: SymbolicExecutor, b: SymbolicExecutor, c: SymbolicExecutor)
    requires
        progressed(a, b),
        progressed(b, c),
    ensures
        progressed(a, c),
{
    assert forall|s0: Path| #[trigger] open_paths_continue(s0, a) implies {
        &&& open_paths_continue(s0, c)
        &&& forall|i: int| a.symbolic_store.final_states@.len() <= i < c.symbolic_store.final_states@.len()
            ==> continues(s0, #[trigger] c.symbolic_store.final_states@[i])
    } by {
        assert(open_paths_continue(s0, b));
        assert forall|i: int| a.symbolic_store.final_states@.len() <= i < c.symbolic_store.final_states@.len()
            implies continues(s0, #[trigger] c.symbolic_store.final_states@[i]) by {
            if i < b.symbolic_store.final_states@.len() {
                assert(c.symbolic_store.final_states@[i] == b.symbolic_store.final_states@[i]);
            }
        }
    }
}

/// New paths that continue `q` from `a` to `b` still do after a further step from `b` that
/// keeps what execution keeps.
proof fn lemma_new_paths_step(q: Path, a: SymbolicExecutor, b: SymbolicExecutor, c: SymbolicExecutor)
    requires
        new_paths_continue(q, a, b),
        progressed(b, c),
        a.symbolic_store.final_states@.len() <= b.symbolic_store.final_states@.len(),
    ensures
        new_paths_continue(q, a, c),
{
    assert(open_paths_continue(q, b));
    assert forall|i: int| a.symbolic_store.final_states@.len() <= i < c.symbolic_store.final_states@.len()
        implies continues(q, #[trigger] c.symbolic_store.final_states@[i]) by {
        if i < b.symbolic_store.final_states@.len() {
            assert(c.symbolic_store.final_states@[i] == b.symbolic_store.final_states@[i]);
        }
    }
}

/// A step that keeps what `kept` says, keeps the current state on its path, and leaves each
/// block-end state and each new final state on the path of the old one at its place or on
/// the path of the old current state, keeps what execution keeps.
proof fn lemma_progressed_step(a: SymbolicExecutor, b: SymbolicExecutor)
    requires
        kept(a, b),
        continues(path_of(a.cur_state), b.cur_state),
        forall|i: int| 0 <= i < b.symbolic_store.block_end_states@.len() ==> {
            ||| (i < a.symbolic_store.block_end_states@.len()
                && continues(path_of(a.symbolic_store.block_end_states@[i]), #[trigger] b.symbolic_store.block_end_states@[i]))
            ||| continues(path_of(a.cur_state), b.symbolic_store.block_end_states@[i])
        },
        forall|i: int| a.symbolic_store.final_states@.len() <= i < b.symbolic_store.final_states@.len()
            ==> continues(path_of(a.cur_state), #[trigger] b.symbolic_store.final_states@[i]),
    ensures
        progressed(a, b),
{
    assert forall|s0: Path| #[trigger] open_paths_continue(s0, a) implies {
        &&& open_paths_continue(s0, b)
        &&& forall|i: int| a.symbolic_store.final_states@.len() <= i < b.symbolic_store.final_states@.len()
            ==> continues(s0, #[trigger] b.symbolic_store.final_states@[i])
    } by {
        lemma_continues_trans(s0, a.cur_state, b.cur_state);
        assert forall|i: int| 0 <= i < b.symbolic_store.block_end_states@.len()
            implies continues(s0, #[trigger] b.symbolic_store.block_end_states@[i]) by {
            if i < a.symbolic_store.block_end_states@.len()
                && continues(path_of(a.symbolic_store.block_end_states@[i]), b.symbolic_store.block_end_states@[i]) {
                lemma_continues_trans(s0, a.symbolic_store.block_end_states@[i], b.symbolic_store.block_end_states@[i]);
            } else {
                lemma_continues_trans(s0, a.cur_state, b.symbolic_store.block_end_states@[i]);
            }
        }
        assert forall|i: int| a.symbolic_store.final_states@.len() <= i < b.symbolic_store.final_states@.len()
            implies continues(s0, #[trigger] b.symbolic_store.final_states@[i]) by {
            lemma_continues_trans(s0, a.cur_state, b.symbolic_store.final_states@[i]);
        }
    }
}

/// A state continues its own path, and any state with the same constraints.
proof fn lemma_continues_same(s0: SymbolicState, s: SymbolicState)
    requires
        values_view(s.trace_constraints@) == values_view(s0.trace_constraints@),
        values_view(s.side_constraints@) == values_view(s0.side_constraints@),
    ensures
        continues(path_of(s0), s),
{
    assert(values_view(s0.trace_constraints@) =~= values_view(s.trace_constraints@).subrange(0, values_view(s0.trace_constraints@).len() as int));
    assert(values_view(s0.side_constraints@) =~= values_view(s.side_constraints@).subrange(0, values_view(s0.side_constraints@).len() as int));
}

/// A step that changes only the current state, keeping it on its path, keeps what execution
/// keeps.
proof fn lemma_progressed_local(a: SymbolicExecutor, b: SymbolicExecutor)
    requires
        kept(a, b),
        continues(path_of(a.cur_state), b.cur_state),
        b.symbolic_store.block_end_states == a.symbolic_store.block_end_states,
        b.symbolic_store.final_states == a.symbolic_store.final_states,
    ensures
        progressed(a, b),
{
    assert forall|i: int| 0 <= i < b.symbolic_store.block_end_states@.len() implies {
        ||| (i < a.symbolic_store.block_end_states@.len()
            && continues(path_of(a.symbolic_store.block_end_states@[i]), #[trigger] b.symbolic_store.block_end_states@[i]))
        ||| continues(path_of(a.cur_state), b.symbolic_store.block_end_states@[i])
    } by {
        lemma_continues_same(a.symbolic_store.block_end_states@[i], b.symbolic_store.block_end_states@[i]);
    }
    lemma_progressed_step(a, b);
}

/// A state whose constraints are those of `s0` with more after them continues `s0`.
proof fn lemma_continues_extend(s0: SymbolicState, s: SymbolicState, t: Seq<SpecValue>, u: Seq<SpecValue>)
    requires
        values_view(s.trace_constraints@) == values_view(s0.trace_constraints@) + t,
        values_view(s.side_constraints@) == values_view(s0.side_constraints@) + u,
    ensures
        continues(path_of(s0), s),
{
    assert(values_view(s0.trace_constraints@) =~= values_view(s.trace_constraints@).subrange(0, values_view(s0.trace_constraints@).len() as int));
    assert(values_view(s0.side_constraints@) =~= values_view(s.side_constraints@).subrange(0, values_view(s0.side_constraints@).len() as int));
}

/// `name` stands for `id` in a table of names.
pub open spec fn resolves(table: Map<Seq<char>, usize>, name: Seq<char>, id: usize) -> bool {
    table.contains_key(name) && table[name] == id
}

/// The run added one final state, the path it ran on: its variables and constraints.
pub open spec fn records_path(a: SymbolicExecutor, b: SymbolicExecutor) -> bool {
    &&& b.symbolic_store.final_states@.len() == a.symbolic_store.final_states@.len() + 1
    &&& b.symbolic_store.final_states@.last().values@ == a.cur_state.values@
    &&& values_view(b.symbolic_store.final_states@.last().trace_constraints@) == values_view(a.cur_state.trace_constraints@)
    &&& values_view(b.symbolic_store.final_states@.last().side_constraints@) == values_view(a.cur_state.side_constraints@)
}

/// Evaluating an expression leaves the variables, the owner and the template of the current
/// state as they were.
pub open spec fn same_frame(a: SymbolicExecutor, b: SymbolicExecutor) -> bool {
    &&& b.cur_state.values == a.cur_state.values
    &&& b.cur_state.owner_name == a.cur_state.owner_name
    &&& b.cur_state.template_id == a.cur_state.template_id
}

impl<'a> SymbolicExecutor<'a> {
    /// Records an error, unless one is already recorded.
    fn fail(&mut self, e: ExecutionError)
        requires
            old(self).wf(),
        ensures
            final(self).wf(),
            progressed(*old(self), *final(self)),
            final(self).symbolic_store.error is Some,
            final(self).cur_state == old(self).cur_state,
            final(self).symbolic_library == old(self).symbolic_library,
    {
        if self.symbolic_store.error.is_none() {
            self.symbolic_store.error = Some(e);
        }
    }

    /// Evaluates an access step into a symbolic access.
    fn evaluate_access(&mut self, access: &DebugAccess, fuel: u64) -> (r: Option<SymbolicAccess>)
        requires
            old(self).wf(),
        ensures
            final(self).wf(),
            progressed(*old(self), *final(self)),
            same_frame(*old(self), *final(self)),
            r is None ==> final(self).symbolic_store.error is Some,
            access_value(*old(self), *access, fuel as nat) matches Some(Some(a)) ==> {
                &&& r matches Some(x) && x@ == a
                &&& *final(self) == *old(self)
            },
            access_value(*old(self), *access, fuel as nat) == Some(None::<SpecAccess>) ==> r is None,
        decreases fuel, 0u64,
    {
        match access {
            DebugAccess::ComponentAccess(name) => Some(SymbolicAccess::ComponentAccess(*name)),
            DebugAccess::ArrayAccess(expr) => {
                if fuel == 0 {
                    self.fail(ExecutionError::OutOfFuel);
                    return None;
                }
                let tmp_e = match self.evaluate_expression(expr, fuel - 1) {
                    Some(v) => v,
                    None => {
                        return None;
                    },
                };
                match self.fold_variables(&tmp_e, false) {
                    Some(v) => Some(SymbolicAccess::ArrayAccess(v)),
                    None => {
                        self.fail(ExecutionError::FoldFailed);
                        None
                    },
                }
            },
        }
    }

    /// Evaluates each expression of a list.
    fn evaluate_expressions(&mut self, exprs: &Vec<DebugExpression>, fuel: u64) -> (r: Option<Vec<Rc<SymbolicValue>>>)
        requires
            old(self).wf(),
        ensures
            final(self).wf(),
            progressed(*old(self), *final(self)),
            same_frame(*old(self), *final(self)),
            r is None ==> final(self).symbolic_store.error is Some,
            r matches Some(v) ==> v@.len() == exprs@.len(),
            fuel > 0 && (forall|i: int| 0 <= i < exprs@.len() ==> #[trigger] operator_value(exprs@[i], old(self).cur_state.owner_name@) is Some
                && fuel > operator_depth(exprs@[i])) ==> {
                &&& r matches Some(v) && values_view(v@) == operator_values(exprs@, old(self).cur_state.owner_name@)
                &&& *final(self) == *old(self)
            },
        decreases fuel, 0u64,
    {
        if fuel == 0 {
            self.fail(ExecutionError::OutOfFuel);
            return None;
        }
        let mut out: Vec<Rc<SymbolicValue>> = Vec::new();
        let mut i: usize = 0;
        while i < exprs.len()
            invariant
                i <= exprs@.len(),
                out@.len() == i,
                self.wf(),
                progressed(*old(self), *self),
                same_frame(*old(self), *self),
                fuel > 0,
                (forall|j: int| 0 <= j < exprs@.len() ==> #[trigger] operator_value(exprs@[j], old(self).cur_state.owner_name@) is Some
                    && fuel > operator_depth(exprs@[j])) ==> {
                    &&& *self == *old(self)
                    &&& values_view(out@) == operator_values(exprs@, old(self).cur_state.owner_name@).take(i as int)
                },
            decreases exprs.len() - i,
        {
            proof {
                if forall|j: int| 0 <= j < exprs@.len() ==> #[trigger] operator_value(exprs@[j], old(self).cur_state.owner_name@) is Some
                    && fuel > operator_depth(exprs@[j]) {
                    assert(operator_value(exprs@[i as int], old(self).cur_state.owner_name@) is Some);
                }
            }
            let ghost out0 = out@;
            match self.evaluate_expression(&exprs[i], fuel - 1) {
                Some(v) => {
                    out.push(Rc::new(v));
                    proof {
                        if forall|j: int| 0 <= j < exprs@.len() ==> #[trigger] operator_value(exprs@[j], old(self).cur_state.owner_name@) is Some
                            && fuel > operator_depth(exprs@[j]) {
                            assert(values_view(out@) =~= operator_values(exprs@, old(self).cur_state.owner_name@).take(i + 1));
                        }
                    }
                },
                None => {
                    return None;
                },
            }
            i = i + 1;
        }
        proof {
            assert(operator_values(exprs@, old(self).cur_state.owner_name@).take(exprs@.len() as int)
                =~= operator_values(exprs@, old(self).cur_state.owner_name@));
        }
        Some(out)
    }

    /// Runs `body` from its start on the state `frame` and an empty store, sharing the
    /// library and the setting, then puts the current state and store back: the first final
    /// state of the run, or why there is none.
    fn run_in_fresh_frame(&mut self, body: &Vec<DebugStatement>, frame: SymbolicState, fuel: u64) -> (r: Result<SymbolicState, ExecutionError>)
        requires
            old(self).wf(),
            frame.wf(),
        ensures
            final(self).cur_state == old(self).cur_state,
            final(self).symbolic_store == old(self).symbolic_store,
            final(self).setting == old(self).setting,
            name_ids(old(self).symbolic_library.name2id).dom().subset_of(name_ids(final(self).symbolic_library.name2id).dom()),
            library_kept(*old(self).symbolic_library, *final(self).symbolic_library),
            r matches Ok(fs) ==> fs.wf() && continues(path_of(frame), fs),
            fuel > 0 && body@.len() > 0 && body@[0] is Ret ==> {
                &&& r matches Ok(fs) && fs.values@ == frame.values@ && path_of(fs) == path_of(frame)
            },
            run_list(frame_context(*old(self), frame), Map::empty(), Seq::empty(), frame_of(frame), body@, 0, fuel as nat) matches Some(o)
                ==> (o.finals.len() > 0 ==> (r matches Ok(fs) && frame_of(fs) == o.finals[0] && fs.owner_name@ == frame.owner_name@)),
            run_list(frame_context(*old(self), frame), Map::empty(), Seq::empty(), frame_of(frame), body@, 0, fuel as nat) is Some
                ==> final(self).symbolic_library.function_counter == old(self).symbolic_library.function_counter,
        decreases fuel, 4u64,
    {
        let mut saved_state = frame;
        std::mem::swap(&mut saved_state, &mut self.cur_state);
        let mut saved_store = SymbolicStore {
            components_store: NameMap::new(),
            variable_types: fx_new(),
            block_end_states: Vec::new(),
            final_states: Vec::new(),
            max_depth: 0,
            error: None,
        };
        std::mem::swap(&mut saved_store, &mut self.symbolic_store);
        let refs = statement_refs(body);
        let ghost x = *self;
        proof {
            lemma_continues_same(frame, frame);
            assert(open_paths_continue(path_of(frame), x));
            assert(derefs(refs@) =~= body@);
            assert(kinds_of(x) =~= Map::<usize, bool>::empty());
            assert(pending_of(x) =~= Seq::<Frame>::empty());
            assert(context_of(x) == frame_context(*old(self), frame));
        }
        self.exec_list(&refs, 0, fuel);
        let result = match self.symbolic_store.error {
            Some(e) => Err(e),
            None => {
                if self.symbolic_store.final_states.len() == 0 {
                    Err(ExecutionError::MissingCalleeState)
                } else {
                    proof {
                        assert(self.symbolic_store.final_states@[0].wf());
                    }
                    let fs = self.symbolic_store.final_states[0].copy();
                    proof {
                        let f0 = self.symbolic_store.final_states@[0];
                        assert(continues(path_of(frame), f0));
                        lemma_continues_same(f0, fs);
                        lemma_continues_trans(path_of(frame), f0, fs);
                        if run_list(frame_context(*old(self), frame), Map::empty(), Seq::empty(), frame_of(frame), body@, 0, fuel as nat) is Some {
                            let o = run_list(frame_context(*old(self), frame), Map::empty(), Seq::empty(), frame_of(frame), body@, 0, fuel as nat).unwrap();
                            assert(frames_of(self.symbolic_store.final_states@)[0] == frame_of(f0));
                            assert(state_in(context_of(x), f0));
                        }
                        if fuel > 0 && body@.len() > 0 && body@[0] is Ret {
                            assert(*refs@[0] == body@[0]);
                            assert(path_of(fs).trace =~= path_of(frame).trace);
                            assert(path_of(fs).side =~= path_of(frame).side);
                        }
                    }
                    Ok(fs)
                }
            },
        };
        std::mem::swap(&mut saved_state, &mut self.cur_state);
        std::mem::swap(&mut saved_store, &mut self.symbolic_store);
        result
    }

    /// Calls a function of the library on evaluated arguments: counts the call in the
    /// function's counter, runs its body in a fresh frame, takes over the constraints of its
    /// first final state, and returns the value it returned. Where the body runs as
    /// `call_outcome` says, it calls no function, and the counter of this one ends one higher.
    fn call_function(&mut self, id: usize, args: &Vec<Rc<SymbolicValue>>, fuel: u64) -> (r: Option<SymbolicValue>)
        requires
            old(self).wf(),
        ensures
            final(self).wf(),
            progressed(*old(self), *final(self)),
            same_frame(*old(self), *final(self)),
            r is None ==> final(self).symbolic_store.error is Some,
            r is Some ==> {
                &&& fuel > 0
                &&& old(self).symbolic_library.function_counter@.contains_key(id)
                &&& old(self).symbolic_library.function_counter@[id] < usize::MAX
                &&& old(self).symbolic_library.function_library@.contains_key(id)
                &&& old(self).symbolic_library.function_library@[id].function_argument_names@.len() <= args@.len()
            },
            call_outcome(*old(self), id, values_view(args@), fuel as nat) is Some
                ==> final(self).symbolic_library.function_counter@ == old(self).symbolic_library.function_counter@.insert(
                    id, (old(self).symbolic_library.function_counter@[id] + 1) as usize),
            call_outcome(*old(self), id, values_view(args@), fuel as nat) matches Some(f)
                ==> (f.values.contains_key(SpecName { name: usize::MAX, owner: call_owner(*old(self), id), access: Seq::empty() }) ==> {
                &&& r matches Some(v) && v@ == f.values[SpecName { name: usize::MAX, owner: call_owner(*old(self), id), access: Seq::empty() }]
                &&& values_view(final(self).cur_state.trace_constraints@) == values_view(old(self).cur_state.trace_constraints@) + f.trace
                &&& values_view(final(self).cur_state.side_constraints@) == values_view(old(self).cur_state.side_constraints@) + f.side
            }),
        decreases fuel, 1u64,
    {
        if fuel == 0 {
            self.fail(ExecutionError::OutOfFuel);
            return None;
        }
        let ghost e0 = *self;
        let ghost rn = SpecName { name: usize::MAX, owner: call_owner(e0, id), access: Seq::empty() };
        let ghost want = call_outcome(e0, id, values_view(args@), fuel as nat) is Some
            && call_outcome(e0, id, values_view(args@), fuel as nat).unwrap().values.contains_key(rn);
        let ghost f0 = call_outcome(e0, id, values_view(args@), fuel as nat).unwrap();
        let counter: usize = match fx_get(&self.symbolic_library.function_counter, id) {
            Some(c) => *c,
            None => {
                self.fail(ExecutionError::UnknownName);
                return None;
            },
        };
        if counter == usize::MAX {
            self.fail(ExecutionError::CounterOverflow);
            return None;
        }
        let (names, body) = match fx_get(&self.symbolic_library.function_library, id) {
            Some(f) => {
                let names = f.function_argument_names.clone();
                proof {
                    assert(names@ =~= f.function_argument_names@);
                }
                (names, f.body.clone())
            },
            None => {
                self.fail(ExecutionError::UnknownName);
                return None;
            },
        };
        let owner = extend_owner(&self.cur_state.owner_name, OwnerName { name: id, counter: counter });
        fx_insert(&mut self.symbolic_library.function_counter, id, counter + 1);
        let mut frame = SymbolicState::new();
        frame.owner_name = owner.clone();
        let mut ok = true;
        let mut i: usize = 0;
        while i < names.len()
            invariant
                i <= names@.len(),
                frame.wf(),
                ok == (i <= args@.len()),
                frame.owner_name@ == owner@,
                frame.template_id == usize::MAX,
                frame.depth == 0,
                frame.trace_constraints@.len() == 0,
                frame.side_constraints@.len() == 0,
                i <= args@.len() ==> frame.values@ == arg_values(names@, values_view(args@), owner@, i as nat),
            decreases names.len() - i,
        {
            if i < args.len() {
                frame.set_rc_symval(plain_name(names[i], &owner), args[i].clone());
            } else {
                ok = false;
            }
            i = i + 1;
        }
        let ghost e_ins = *self;
        let ghost fr0 = frame;
        proof {
            if call_outcome(e0, id, values_view(args@), fuel as nat) is Some {
                assert(ok);
                assert(frame.values@ == arg_values(names@, values_view(args@), owner@, names@.len()));
                assert(frame_of(frame).trace =~= Seq::<SpecValue>::empty());
                assert(frame_of(frame).side =~= Seq::<SpecValue>::empty());
                assert(owner@ == call_owner(e0, id));
                assert(frame_context(*self, frame).types == template_types(e0.symbolic_library.template_library@, usize::MAX));
                assert(body@ == e0.symbolic_library.function_library@[id].body@);
            }
        }
        let result: Result<(Vec<Rc<SymbolicValue>>, Vec<Rc<SymbolicValue>>, SymbolicValue), ExecutionError> = if !ok {
            Err(ExecutionError::IndexOutOfRange)
        } else {
            match self.run_in_fresh_frame(&body, frame, fuel - 1) {
                Err(e) => Err(e),
                Ok(fs) => {
                    let ret_name = plain_name(usize::MAX, &fs.owner_name);
                    proof {
                        if call_outcome(e0, id, values_view(args@), fuel as nat) is Some {
                            assert(self.symbolic_library.function_counter == e_ins.symbolic_library.function_counter);
                        }
                        if want {
                            assert(ret_name@ == rn);
                            assert(fs.values@ == f0.values);
                        }
                    }
                    match fs.get_symval(&ret_name) {
                        Some(v) => Ok((values_copy(&fs.trace_constraints), values_copy(&fs.side_constraints), (**v).copy())),
                        None => Err(ExecutionError::MissingReturnValue),
                    }
                },
            }
        };
        proof {
            lemma_continues_same(e0.cur_state, self.cur_state);
            lemma_progressed_local(e0, *self);
        }
        let ghost ex = *self;
        match result {
            Ok((t, s, v)) => {
                let mut t = t;
                let mut s = s;
                let ghost (t0, s0) = (t@, s@);
                self.cur_state.trace_constraints.append(&mut t);
                self.cur_state.side_constraints.append(&mut s);
                proof {
                    assert(values_view(self.cur_state.trace_constraints@) =~= values_view(ex.cur_state.trace_constraints@) + values_view(t0));
                    assert(values_view(self.cur_state.side_constraints@) =~= values_view(ex.cur_state.side_constraints@) + values_view(s0));
                    lemma_continues_extend(ex.cur_state, self.cur_state, values_view(t0), values_view(s0));
                    lemma_progressed_local(ex, *self);
                    lemma_progressed_trans(e0, ex, *self);
                    if want {
                        assert(values_view(t0) == f0.trace);
                        assert(values_view(s0) == f0.side);
                        assert(v@ == f0.values[rn]);
                    }
                }
                Some(v)
            },
            Err(e) => {
                self.fail(e);
                proof {
                    lemma_progressed_trans(e0, ex, *self);
                }
                None
            },
        }
    }

    /// Evaluates an expression into a symbolic value, as the current state sees it. A call of
    /// a function that runs as `call_result` says gives its return value, adds its
    /// constraints, and leaves the function's call counter one higher.
    fn evaluate_expression(&mut self, expr: &DebugExpression, fuel: u64) -> (r: Option<SymbolicValue>)
        requires
            old(self).wf(),
        ensures
            final(self).wf(),
            progressed(*old(self), *final(self)),
            same_frame(*old(self), *final(self)),
            r is None ==> final(self).symbolic_store.error is Some,
            operator_value(*expr, old(self).cur_state.owner_name@) is Some && fuel >= operator_depth(*expr) ==> {
                &&& r matches Some(v) && Some(v@) == operator_value(*expr, old(self).cur_state.owner_name@)
                &&& *final(self) == *old(self)
            },
            call_result(*old(self), *expr, fuel as nat) matches Some((id, f))
                ==> final(self).symbolic_library.function_counter@ == old(self).symbolic_library.function_counter@.insert(
                    id, (old(self).symbolic_library.function_counter@[id] + 1) as usize),
            call_result(*old(self), *expr, fuel as nat) matches Some((id, f))
                ==> (f.values.contains_key(SpecName { name: usize::MAX, owner: call_owner(*old(self), id), access: Seq::empty() }) ==> {
                &&& r matches Some(v) && v@ == f.values[SpecName { name: usize::MAX, owner: call_owner(*old(self), id), access: Seq::empty() }]
                &&& values_view(final(self).cur_state.trace_constraints@) == values_view(old(self).cur_state.trace_constraints@) + f.trace
                &&& values_view(final(self).cur_state.side_constraints@) == values_view(old(self).cur_state.side_constraints@) + f.side
            }),
        decreases fuel, 2u64,
    {
        if fuel == 0 {
            self.fail(ExecutionError::OutOfFuel);
            return None;
        }
        match expr {
            DebugExpression::Number(_, value) => Some(SymbolicValue::ConstantInt(value.copy())),
            DebugExpression::Variable { name, access, .. } => {
                if access.len() == 0 {
                    return Some(SymbolicValue::Variable(plain_name(*name, &self.cur_state.owner_name)));
                }
                let tmp_name = plain_name(*name, &self.cur_state.owner_name);
                let sv: Option<Rc<SymbolicValue>> = match self.cur_state.get_symval(&tmp_name) {
                    Some(v) => Some(v.clone()),
                    None => None,
                };
                let mut evaluated_access: Vec<SymbolicAccess> = Vec::new();
                let mut i: usize = 0;
                assert(operator_value(*expr, old(self).cur_state.owner_name@) is None);
                while i < access.len()
                    invariant
                        i <= access@.len(),
                        self.wf(),
                        progressed(*old(self), *self),
                        same_frame(*old(self), *self),
                        operator_value(*expr, old(self).cur_state.owner_name@) is None,
                        call_result(*old(self), *expr, fuel as nat) is None,
                        fuel > 0,
                    decreases access.len() - i,
                {
                    match self.evaluate_access(&access[i], fuel - 1) {
                        Some(a) => evaluated_access.push(a),
                        None => {
                            return None;
                        },
                    }
                    i = i + 1;
                }
                if evaluated_access.len() == 1 {
                    if let Some(stored) = &sv {
                        if let SymbolicAccess::ArrayAccess(SymbolicValue::ConstantInt(a)) = &evaluated_access[0] {
                            if let SymbolicValue::Array(values) = &**stored {
                                match big_to_usize(a) {
                                    Some(k) => {
                                        if k < values.len() {
                                            return Some((*values[k]).copy());
                                        }
                                    },
                                    None => {},
                                }
                                self.fail(ExecutionError::IndexOutOfRange);
                                return None;
                            }
                        }
                    }
                }
                Some(SymbolicValue::Variable(SymbolicName {
                    name: *name,
                    owner: self.cur_state.owner_name.clone(),
                    access: evaluated_access,
                }))
            },
            DebugExpression::InfixOp { lhe, infix_op, rhe, .. } => {
                let lhs = match self.evaluate_expression(lhe, fuel - 1) {
                    Some(v) => v,
                    None => {
                        return None;
                    },
                };
                let rhs = match self.evaluate_expression(rhe, fuel - 1) {
                    Some(v) => v,
                    None => {
                        return None;
                    },
                };
                Some(SymbolicValue::BinaryOp(Rc::new(lhs), *infix_op, Rc::new(rhs)))
            },
            DebugExpression::PrefixOp { prefix_op, rhe, .. } => {
                let e = match self.evaluate_expression(rhe, fuel - 1) {
                    Some(v) => v,
                    None => {
                        return None;
                    },
                };
                Some(SymbolicValue::UnaryOp(*prefix_op, Rc::new(e)))
            },
            DebugExpression::InlineSwitchOp { cond, if_true, if_false, .. } => {
                let c = match self.evaluate_expression(cond, fuel - 1) {
                    Some(v) => v,
                    None => {
                        return None;
                    },
                };
                let t = match self.evaluate_expression(if_true, fuel - 1) {
                    Some(v) => v,
                    None => {
                        return None;
                    },
                };
                let f = match self.evaluate_expression(if_false, fuel - 1) {
                    Some(v) => v,
                    None => {
                        return None;
                    },
                };
                Some(SymbolicValue::Conditional(Rc::new(c), Rc::new(t), Rc::new(f)))
            },
            DebugExpression::ParallelOp { rhe, .. } => self.evaluate_expression(rhe, fuel - 1),
            DebugExpression::ArrayInLine { values, .. } => {
                match self.evaluate_expressions(values, fuel - 1) {
                    Some(es) => Some(SymbolicValue::Array(es)),
                    None => None,
                }
            },
            DebugExpression::Tuple { values, .. } => {
                match self.evaluate_expressions(values, fuel - 1) {
                    Some(es) => Some(SymbolicValue::Array(es)),
                    None => None,
                }
            },
            DebugExpression::UniformArray { value, dimension, .. } => {
                let v = match self.evaluate_expression(value, fuel - 1) {
                    Some(x) => x,
                    None => {
                        return None;
                    },
                };
                let d = match self.evaluate_expression(dimension, fuel - 1) {
                    Some(x) => x,
                    None => {
                        return None;
                    },
                };
                Some(SymbolicValue::UniformArray(Rc::new(v), Rc::new(d)))
            },
            DebugExpression::Call { id, args, .. } => {
                let tmp_args = match self.evaluate_expressions(args, fuel - 1) {
                    Some(es) => es,
                    None => {
                        return None;
                    },
                };
                let evaluated_args = match self.fold_values(&tmp_args, false) {
                    Some(es) => es,
                    None => {
                        self.fail(ExecutionError::FoldFailed);
                        return None;
                    },
                };
                if fx_contains_key(&self.symbolic_library.template_library, *id) {
                    Some(SymbolicValue::Call(*id, evaluated_args))
                } else if fx_contains_key(&self.symbolic_library.function_library, *id) {
                    self.call_function(*id, &evaluated_args, fuel - 1)
                } else {
                    Some(SymbolicValue::Call(*id, evaluated_args))
                }
            },
            _ => {
                self.fail(ExecutionError::UnhandledExpression);
                None
            },
        }
    }

    /// Runs the pending block-end states, one after another, on the statements from `cur_bid`.
    fn expand_all_stack_states(&mut self, statements: &Vec<&DebugStatement>, cur_bid: usize, depth: usize, fuel: u64)
        requires
            old(self).wf(),
        ensures
            final(self).wf(),
            progressed(*old(self), *final(self)),
            fuel == 0 ==> final(self).symbolic_store.error is Some,
            fuel > 0 && old(self).symbolic_store.block_end_states@.len() == 0 ==> {
                &&& final(self).symbolic_store.block_end_states@.len() == 0
                &&& final(self).symbolic_store.final_states@ == old(self).symbolic_store.final_states@
                &&& final(self).symbolic_store.error == old(self).symbolic_store.error
                &&& final(self).cur_state == old(self).cur_state
            },
            fuel > 1 && old(self).symbolic_store.error is None && cur_bid < statements@.len()
                && *statements@[cur_bid as int] is Ret ==> {
                &&& final(self).symbolic_store.error is None
                &&& final(self).symbolic_store.block_end_states@.len() == 0
                &&& final(self).symbolic_store.final_states@.len()
                    == old(self).symbolic_store.final_states@.len() + old(self).symbolic_store.block_end_states@.len()
                &&& forall|i: int| 0 <= i < old(self).symbolic_store.block_end_states@.len() ==> {
                    &&& final(self).symbolic_store.final_states@[old(self).symbolic_store.final_states@.len() + i].values@
                        == (#[trigger] old(self).symbolic_store.block_end_states@[i]).values@
                    &&& path_of(final(self).symbolic_store.final_states@[old(self).symbolic_store.final_states@.len() + i])
                        == path_of(old(self).symbolic_store.block_end_states@[i])
                }
            },
            fuel > 1 && old(self).symbolic_store.error is None && cur_bid >= statements@.len() ==> {
                &&& final(self).symbolic_store.error is None
                &&& final(self).symbolic_store.final_states@ == old(self).symbolic_store.final_states@
                &&& final(self).symbolic_store.block_end_states@.len() == old(self).symbolic_store.block_end_states@.len()
                &&& forall|i: int| 0 <= i < old(self).symbolic_store.block_end_states@.len()
                    ==> final(self).symbolic_store.block_end_states@[i].values@
                    == (#[trigger] old(self).symbolic_store.block_end_states@[i]).values@
            },
            expand_run(context_of(*old(self)), kinds_of(*old(self)), Seq::empty(), pending_of(*old(self)), derefs(statements@),
                cur_bid as int, depth as int, frame_of(old(self).cur_state), fuel as nat) matches Some(o)
                ==> (ready_to_run(*old(self)) ==> ran(context_of(*old(self)), *old(self), *final(self), o)),
        decreases fuel, 0u64,
    {
        if fuel == 0 {
            proof {
                assert(expand_run(context_of(*old(self)), kinds_of(*old(self)), Seq::empty(), pending_of(*old(self)), derefs(statements@),
                    cur_bid as int, depth as int, frame_of(old(self).cur_state), fuel as nat) is None) by {
                    reveal_with_fuel(then_run, 1);
                    reveal_with_fuel(run_list, 1);
                    reveal_with_fuel(expand_run, 1);
                    reveal_with_fuel(then_part, 1);
                    reveal_with_fuel(else_part, 1);
                    reveal_with_fuel(if_run, 1);
                    reveal_with_fuel(while_run, 1);
                }
            }
            self.fail(ExecutionError::OutOfFuel);
            return;
        }
        let ghost e0 = *self;
        let mut drained: Vec<SymbolicState> = Vec::new();
        std::mem::swap(&mut drained, &mut self.symbolic_store.block_end_states);
        let ghost c = context_of(e0);
        let ghost go = ready_to_run(e0) && expand_run(c, kinds_of(e0), Seq::empty(), pending_of(e0), derefs(statements@),
            cur_bid as int, depth as int, frame_of(e0.cur_state), fuel as nat) is Some;
        let ghost o = expand_run(c, kinds_of(e0), Seq::empty(), pending_of(e0), derefs(statements@),
            cur_bid as int, depth as int, frame_of(e0.cur_state), fuel as nat).unwrap();
        proof {
            assert(drained@ == e0.symbolic_store.block_end_states@);
            assert(pending_of(*self) =~= Seq::<Frame>::empty());
            assert(frames_of(self.symbolic_store.final_states@) + o.finals == frames_of(e0.symbolic_store.final_states@) + o.finals);
            assert forall|s0: Path| #[trigger] open_paths_continue(s0, e0) implies {
                &&& open_paths_continue(s0, *self)
                &&& forall|i: int| e0.symbolic_store.final_states@.len() <= i < self.symbolic_store.final_states@.len()
                    ==> continues(s0, #[trigger] self.symbolic_store.final_states@[i])
            } by {}
        }
        while drained.len() > 0
            invariant
                self.wf(),
                states_wf(drained@),
                progressed(e0, *self),
                e0 == *old(self),
                forall|s0: Path| #[trigger] open_paths_continue(s0, e0)
                    ==> forall|i: int| 0 <= i < drained@.len() ==> continues(s0, #[trigger] drained@[i]),
                fuel > 0,
                c == context_of(e0),
                go == (ready_to_run(e0) && expand_run(c, kinds_of(e0), Seq::empty(), pending_of(e0), derefs(statements@),
                    cur_bid as int, depth as int, frame_of(e0.cur_state), fuel as nat) is Some),
                o == expand_run(c, kinds_of(e0), Seq::empty(), pending_of(e0), derefs(statements@),
                    cur_bid as int, depth as int, frame_of(e0.cur_state), fuel as nat).unwrap(),
                go ==> {
                    &&& self.symbolic_store.error is None
                    &&& self.symbolic_library.function_counter == e0.symbolic_library.function_counter
                    &&& runs_in(c, *self)
                    &&& forall|i: int| e0.symbolic_store.final_states@.len() <= i < self.symbolic_store.final_states@.len()
                        ==> state_in(c, #[trigger] self.symbolic_store.final_states@[i])
                    &&& forall|i: int| 0 <= i < drained@.len() ==> state_in(c, #[trigger] drained@[i])
                    &&& expand_run(c, kinds_of(*self), pending_of(*self), frames_of(drained@), derefs(statements@),
                        cur_bid as int, depth as int, frame_of(self.cur_state), fuel as nat) matches Some(r)
                        && frames_of(self.symbolic_store.final_states@) + r.finals == frames_of(e0.symbolic_store.final_states@) + o.finals
                        && r.ends == o.ends && r.kinds == o.kinds && r.cur == o.cur
                },
                drained@.len() <= e0.symbolic_store.block_end_states@.len(),
                drained@ == e0.symbolic_store.block_end_states@.subrange(
                    e0.symbolic_store.block_end_states@.len() - drained@.len(), e0.symbolic_store.block_end_states@.len() as int),
                e0.symbolic_store.block_end_states@.len() == 0 ==> {
                    &&& self.symbolic_store.block_end_states@.len() == 0
                    &&& self.symbolic_store.final_states@ == e0.symbolic_store.final_states@
                    &&& self.symbolic_store.error == e0.symbolic_store.error
                    &&& self.cur_state == e0.cur_state
                },
                fuel > 1 && e0.symbolic_store.error is None && cur_bid < statements@.len()
                    && *statements@[cur_bid as int] is Ret ==> {
                    let k = e0.symbolic_store.block_end_states@.len() - drained@.len();
                    &&& self.symbolic_store.error is None
                    &&& self.symbolic_store.block_end_states@.len() == 0
                    &&& self.symbolic_store.final_states@.len() == e0.symbolic_store.final_states@.len() + k
                    &&& forall|i: int| 0 <= i < k ==> {
                        &&& self.symbolic_store.final_states@[e0.symbolic_store.final_states@.len() + i].values@
                            == (#[trigger] e0.symbolic_store.block_end_states@[i]).values@
                        &&& path_of(self.symbolic_store.final_states@[e0.symbolic_store.final_states@.len() + i])
                            == path_of(e0.symbolic_store.block_end_states@[i])
                    }
                },
                fuel > 1 && e0.symbolic_store.error is None && cur_bid >= statements@.len() ==> {
                    let k = e0.symbolic_store.block_end_states@.len() - drained@.len();
                    &&& self.symbolic_store.error is None
                    &&& self.symbolic_store.final_states@ == e0.symbolic_store.final_states@
                    &&& self.symbolic_store.block_end_states@.len() == k
                    &&& forall|i: int| 0 <= i < k ==> self.symbolic_store.block_end_states@[i].values@
                        == (#[trigger] e0.symbolic_store.block_end_states@[i]).values@
                },
            decreases drained.len(),
        {
            let ghost x = *self;
            let ghost pending = drained@;
            let state = drained.remove(0);
            self.cur_state = state;
            self.cur_state.set_depth(depth);
            proof {
                assert(self.cur_state.trace_constraints == pending[0].trace_constraints);
                assert forall|s0: Path| #[trigger] open_paths_continue(s0, e0) implies {
                    &&& open_paths_continue(s0, *self)
                    &&& forall|i: int| e0.symbolic_store.final_states@.len() <= i < self.symbolic_store.final_states@.len()
                        ==> continues(s0, #[trigger] self.symbolic_store.final_states@[i])
                } by {
                    assert(open_paths_continue(s0, x));
                    assert(continues(s0, pending[0]));
                    assert forall|i: int| 0 <= i < drained@.len() implies continues(s0, #[trigger] drained@[i]) by {
                        assert(drained@[i] == pending[i + 1]);
                    }
                }
                assert forall|s0: Path| #[trigger] open_paths_continue(s0, e0)
                    implies forall|i: int| 0 <= i < drained@.len() ==> continues(s0, #[trigger] drained@[i]) by {
                    assert forall|i: int| 0 <= i < drained@.len() implies continues(s0, #[trigger] drained@[i]) by {
                        assert(drained@[i] == pending[i + 1]);
                    }
                }
            }
            let ghost x1 = *self;
            let ghost rx = expand_run(c, kinds_of(x), pending_of(x), frames_of(pending), derefs(statements@),
                cur_bid as int, depth as int, frame_of(x.cur_state), fuel as nat).unwrap();
            let ghost o1 = run_list(c, kinds_of(x), pending_of(x), Frame { depth: depth as int, ..frames_of(pending)[0] },
                derefs(statements@), cur_bid as int, (fuel - 1) as nat).unwrap();
            proof {
                if go {
                    lemma_expand_run(c, kinds_of(x), pending_of(x), frames_of(pending), derefs(statements@),
                        cur_bid as int, depth as int, frame_of(x.cur_state), fuel as nat);
                    assert(state_in(c, pending[0]));
                    assert(frame_of(x1.cur_state) == Frame { depth: depth as int, ..frames_of(pending)[0] });
                    assert(context_of(x1) == c);
                    assert(runs_in(c, x1));
                    assert(kinds_of(x1) == kinds_of(x));
                    assert(pending_of(x1) == pending_of(x));
                    assert(frames_of(drained@) =~= frames_of(pending).drop_first());
                    assert forall|i: int| 0 <= i < drained@.len() implies state_in(c, #[trigger] drained@[i]) by {
                        assert(drained@[i] == pending[i + 1]);
                    }
                }
            }
            self.exec_list(statements, cur_bid, fuel - 1);
            proof {
                lemma_progressed_trans(e0, x1, *self);
                if go {
                    assert(ran(c, x1, *self, o1));
                    assert forall|i: int| e0.symbolic_store.final_states@.len() <= i < self.symbolic_store.final_states@.len()
                        implies state_in(c, #[trigger] self.symbolic_store.final_states@[i]) by {
                        if i < x1.symbolic_store.final_states@.len() {
                            assert(self.symbolic_store.final_states@[i] == x1.symbolic_store.final_states@[i]);
                            assert(state_in(c, x.symbolic_store.final_states@[i]));
                        }
                    }
                    let r2 = expand_run(c, o1.kinds, o1.ends, frames_of(pending).drop_first(), derefs(statements@),
                        cur_bid as int, depth as int, o1.cur, fuel as nat).unwrap();
                    assert(rx.finals == o1.finals + r2.finals);
                    assert(frames_of(self.symbolic_store.final_states@) + r2.finals
                        =~= frames_of(x.symbolic_store.final_states@) + rx.finals);
                }
                let ghost n0 = e0.symbolic_store.final_states@.len() as int;
                let ghost k = e0.symbolic_store.block_end_states@.len() - pending.len();
                assert(pending[0] == e0.symbolic_store.block_end_states@[k]);
                assert(drained@ =~= e0.symbolic_store.block_end_states@.subrange(
                    e0.symbolic_store.block_end_states@.len() - drained@.len(), e0.symbolic_store.block_end_states@.len() as int));
                assert(path_of(x1.cur_state) == path_of(pending[0]));
                if fuel > 1 && e0.symbolic_store.error is None && cur_bid < statements@.len()
                    && *statements@[cur_bid as int] is Ret {
                    assert forall|i: int| 0 <= i < k + 1 implies {
                        &&& self.symbolic_store.final_states@[n0 + i].values@
                            == (#[trigger] e0.symbolic_store.block_end_states@[i]).values@
                        &&& path_of(self.symbolic_store.final_states@[n0 + i])
                            == path_of(e0.symbolic_store.block_end_states@[i])
                    } by {
                        if i < k {
                            assert(self.symbolic_store.final_states@[n0 + i] == x1.symbolic_store.final_states@[n0 + i]);
                        } else {
                            assert(self.symbolic_store.final_states@[n0 + i] == self.symbolic_store.final_states@.last());
                        }
                    }
                }
                if fuel > 1 && e0.symbolic_store.error is None && cur_bid >= statements@.len() {
                    assert forall|i: int| 0 <= i < k + 1 implies self.symbolic_store.block_end_states@[i].values@
                        == (#[trigger] e0.symbolic_store.block_end_states@[i]).values@ by {
                        if i < k {
                            assert(self.symbolic_store.block_end_states@[i] == self.symbolic_store.block_end_states@.drop_last()[i]);
                        }
                    }
                }
            }
        }
        proof {
            if go {
                assert(frames_of(drained@) =~= Seq::<Frame>::empty());
                lemma_expand_run(c, kinds_of(*self), pending_of(*self), frames_of(drained@), derefs(statements@),
                    cur_bid as int, depth as int, frame_of(self.cur_state), fuel as nat);
                let r = expand_run(c, kinds_of(*self), pending_of(*self), frames_of(drained@), derefs(statements@),
                    cur_bid as int, depth as int, frame_of(self.cur_state), fuel as nat).unwrap();
                assert(r.finals =~= Seq::<Frame>::empty());
                assert(frames_of(self.symbolic_store.final_states@) =~= frames_of(self.symbolic_store.final_states@) + r.finals);
            }
        }
    }

    /// Executes the statements from `cur_bid` on, on the current state.
    #[verifier::rlimit(80)]
    #[verifier::spinoff_prover]
    fn exec_list(&mut self, statements: &Vec<&DebugStatement>, cur_bid: usize, fuel: u64)
        requires
            old(self).wf(),
        ensures
            final(self).wf(),
            progressed(*old(self), *final(self)),
            fuel > 0 && old(self).symbolic_store.error is Some ==> *final(self) == *old(self),
            fuel > 0 && old(self).symbolic_store.error is None && cur_bid >= statements@.len() ==> {
                &&& final(self).symbolic_store.final_states@ == old(self).symbolic_store.final_states@
                &&& final(self).symbolic_store.error == old(self).symbolic_store.error
                &&& final(self).symbolic_store.block_end_states@.len() == old(self).symbolic_store.block_end_states@.len() + 1
                &&& final(self).symbolic_store.block_end_states@.drop_last() == old(self).symbolic_store.block_end_states@
                &&& final(self).symbolic_store.block_end_states@.last().values@ == old(self).cur_state.values@
                &&& path_of(final(self).symbolic_store.block_end_states@.last()) == path_of(old(self).cur_state)
                &&& final(self).symbolic_store.block_end_states@.last().owner_name@ == old(self).cur_state.owner_name@
                &&& final(self).symbolic_store.block_end_states@.last().template_id == old(self).cur_state.template_id
                &&& final(self).symbolic_store.block_end_states@.last().depth == old(self).cur_state.depth
                &&& final(self).cur_state == old(self).cur_state
                &&& final(self).symbolic_library == old(self).symbolic_library
                &&& final(self).symbolic_store.components_store == old(self).symbolic_store.components_store
                &&& final(self).symbolic_store.variable_types == old(self).symbolic_store.variable_types
                &&& final(self).symbolic_store.max_depth == old(self).symbolic_store.max_depth
            },
            fuel > 0 && old(self).symbolic_store.error is None && cur_bid < statements@.len()
                && (*statements@[cur_bid as int] is Ret) ==> records_path(*old(self), *final(self)),
            fuel > 0 && old(self).symbolic_store.error is None && cur_bid < statements@.len()
                && (*statements@[cur_bid as int] is Ret) ==> {
                &&& final(self).symbolic_store.error == old(self).symbolic_store.error
                &&& final(self).symbolic_store.block_end_states == old(self).symbolic_store.block_end_states
                &&& final(self).cur_state == old(self).cur_state
            },
            statement_path(*old(self), *statements@[cur_bid as int], fuel as nat) matches Some(q)
                ==> (fuel > 0 && cur_bid < statements@.len() && old(self).symbolic_store.error is None
                && old(self).symbolic_store.block_end_states@.len() == 0 ==> new_paths_continue(q, *old(self), *final(self))),
            run_list(context_of(*old(self)), kinds_of(*old(self)), pending_of(*old(self)), frame_of(old(self).cur_state),
                derefs(statements@), cur_bid as int, fuel as nat) matches Some(o)
                ==> (ready_to_run(*old(self)) ==> ran(context_of(*old(self)), *old(self), *final(self), o)),
        decreases fuel, 3u64,
    {
        let ghost e0 = *self;
        let ghost c = context_of(e0);
        let ghost ks = kinds_of(e0);
        let ghost pend = pending_of(e0);
        let ghost fr = frame_of(e0.cur_state);
        let ghost stm = derefs(statements@);
        if fuel == 0 {
            proof {
                assert(run_list(c, ks, pend, fr, stm, cur_bid as int, fuel as nat) is None) by {
                    reveal_with_fuel(then_run, 1);
                    reveal_with_fuel(run_list, 1);
                    reveal_with_fuel(expand_run, 1);
                    reveal_with_fuel(then_part, 1);
                    reveal_with_fuel(else_part, 1);
                    reveal_with_fuel(if_run, 1);
                    reveal_with_fuel(while_run, 1);
                }
            }
            self.fail(ExecutionError::OutOfFuel);
            return;
        }
        if self.symbolic_store.error.is_some() {
            return;
        }
        if cur_bid >= statements.len() {
            let st = self.cur_state.copy();
            self.symbolic_store.block_end_states.push(st);
            proof {
                lemma_continues_same(e0.cur_state, e0.cur_state);
                lemma_continues_same(e0.cur_state, st);
                assert forall|i: int| 0 <= i < self.symbolic_store.block_end_states@.len() implies {
                    ||| (i < e0.symbolic_store.block_end_states@.len()
                        && continues(path_of(e0.symbolic_store.block_end_states@[i]), #[trigger] self.symbolic_store.block_end_states@[i]))
                    ||| continues(path_of(e0.cur_state), self.symbolic_store.block_end_states@[i])
                } by {
                    if i < e0.symbolic_store.block_end_states@.len() {
                        lemma_continues_same(e0.symbolic_store.block_end_states@[i], self.symbolic_store.block_end_states@[i]);
                    }
                }
                lemma_progressed_step(e0, *self);
                assert(run_list(c, ks, pend, fr, stm, cur_bid as int, fuel as nat)
                    == Some(Outcome { finals: Seq::empty(), ends: pend.push(fr), kinds: ks, cur: fr })) by {
                    reveal_with_fuel(then_run, 1);
                    reveal_with_fuel(run_list, 1);
                    reveal_with_fuel(expand_run, 1);
                    reveal_with_fuel(then_part, 1);
                    reveal_with_fuel(else_part, 1);
                    reveal_with_fuel(if_run, 1);
                    reveal_with_fuel(while_run, 1);
                }
                assert(frame_of(st) == frame_of(e0.cur_state));
                assert(frames_of(self.symbolic_store.block_end_states@) =~= pending_of(e0).push(frame_of(e0.cur_state)));
                assert(frames_of(self.symbolic_store.final_states@) =~= frames_of(e0.symbolic_store.final_states@) + Seq::<Frame>::empty());
                if ready_to_run(e0) {
                    assert forall|i: int| 0 <= i < self.symbolic_store.block_end_states@.len()
                        implies state_in(context_of(e0), #[trigger] self.symbolic_store.block_end_states@[i]) by {
                        if i < e0.symbolic_store.block_end_states@.len() {
                            assert(self.symbolic_store.block_end_states@[i] == e0.symbolic_store.block_end_states@[i]);
                        }
                    }
                }
            }
            return;
        }
        if self.symbolic_store.max_depth < self.cur_state.depth {
            self.symbolic_store.max_depth = self.cur_state.depth;
        }
        proof {
            lemma_continues_same(e0.cur_state, e0.cur_state);
            assert forall|i: int| 0 <= i < self.symbolic_store.block_end_states@.len() implies {
                ||| (i < e0.symbolic_store.block_end_states@.len()
                    && continues(path_of(e0.symbolic_store.block_end_states@[i]), #[trigger] self.symbolic_store.block_end_states@[i]))
                ||| continues(path_of(e0.cur_state), self.symbolic_store.block_end_states@[i])
            } by {
                lemma_continues_same(e0.symbolic_store.block_end_states@[i], self.symbolic_store.block_end_states@[i]);
            }
            lemma_progressed_step(e0, *self);
        }
        let ghost e1 = *self;
        let stmt: &DebugStatement = statements[cur_bid];
        proof {
            assert(derefs(statements@)[cur_bid as int] == *stmt);
            assert(context_of(e1) == context_of(e0));
            assert(e1.symbolic_library.function_counter == e0.symbolic_library.function_counter);
        }
        match stmt {
            DebugStatement::InitializationBlock { initializations, xtype, .. } => {
                self.exec_initialization_block(statements, cur_bid, initializations, xtype, fuel);
                proof {
                    lemma_progressed_trans(e0, e1, *self);
                    assert(run_list(c, ks, pend, fr, stm, cur_bid as int, fuel as nat) is None) by {
                        reveal_with_fuel(then_run, 1);
                        reveal_with_fuel(run_list, 1);
                        reveal_with_fuel(expand_run, 1);
                        reveal_with_fuel(then_part, 1);
                        reveal_with_fuel(else_part, 1);
                        reveal_with_fuel(if_run, 1);
                        reveal_with_fuel(while_run, 1);
                    }
                }
            },
            DebugStatement::Block { stmts, .. } => {
                let inner = statement_refs(stmts);
                proof {
                    assert(derefs(inner@) =~= stmts@);
                }
                self.exec_list(&inner, 0, fuel - 1);
                let ghost e2 = *self;
                let d = self.cur_state.depth;
                self.expand_all_stack_states(statements, cur_bid + 1, d, fuel - 1);
                proof {
                    lemma_progressed_trans(e1, e2, *self);
                    lemma_progressed_trans(e0, e1, *self);
                    if ready_to_run(e0) && run_list(c, ks, pend, fr, stm, cur_bid as int, fuel as nat) is Some {
                        assert(run_list(c, ks, pend, fr, stmts@, 0, (fuel - 1) as nat) matches Some(o1)
                            && expand_run(c, o1.kinds, Seq::empty(), o1.ends, stm, cur_bid + 1, o1.cur.depth, o1.cur, (fuel - 1) as nat) matches Some(o2)
                            && run_list(c, ks, pend, fr, stm, cur_bid as int, fuel as nat)
                                == Some(Outcome { finals: o1.finals + o2.finals, ends: o2.ends, kinds: o2.kinds, cur: o2.cur })) by {
                            reveal_with_fuel(then_run, 1);
                            reveal_with_fuel(run_list, 1);
                            reveal_with_fuel(expand_run, 1);
                            reveal_with_fuel(then_part, 1);
                            reveal_with_fuel(else_part, 1);
                            reveal_with_fuel(if_run, 1);
                            reveal_with_fuel(while_run, 1);
                        }
                        let o1 = run_list(c, kinds_of(e1), pending_of(e1), frame_of(e1.cur_state), stmts@, 0, (fuel - 1) as nat).unwrap();
                        assert(ran(c, e1, e2, o1));
                        let o2 = expand_run(c, o1.kinds, Seq::empty(), o1.ends, derefs(statements@), cur_bid + 1, o1.cur.depth, o1.cur,
                            (fuel - 1) as nat).unwrap();
                        assert(ran(c, e2, *self, o2));
                        assert(frames_of(self.symbolic_store.final_states@)
                            =~= frames_of(e0.symbolic_store.final_states@) + (o1.finals + o2.finals));
                    }
                }
            },
            DebugStatement::IfThenElse { cond, if_case, else_case, .. } => {
                self.exec_if_then_else(statements, cur_bid, cond, &**if_case, else_case, fuel - 1);
                proof {
                    lemma_progressed_trans(e0, e1, *self);
                    assert(run_list(c, ks, pend, fr, stm, cur_bid as int, fuel as nat)
                        == if_run(c, ks, pend, fr, *cond, **if_case, *else_case, stm, cur_bid as int, (fuel - 1) as nat)) by {
                        reveal_with_fuel(then_run, 1);
                        reveal_with_fuel(run_list, 1);
                        reveal_with_fuel(expand_run, 1);
                        reveal_with_fuel(then_part, 1);
                        reveal_with_fuel(else_part, 1);
                        reveal_with_fuel(if_run, 1);
                        reveal_with_fuel(while_run, 1);
                    }
                }
            },
            DebugStatement::While { cond, stmt, .. } => {
                self.exec_while(statements, cur_bid, cond, &**stmt, fuel);
                proof {
                    lemma_progressed_trans(e0, e1, *self);
                    assert(run_list(c, ks, pend, fr, stm, cur_bid as int, fuel as nat)
                        == while_run(c, ks, pend, fr, *cond, **stmt, stm, cur_bid as int, fuel as nat)) by {
                        reveal_with_fuel(then_run, 1);
                        reveal_with_fuel(run_list, 1);
                        reveal_with_fuel(expand_run, 1);
                        reveal_with_fuel(then_part, 1);
                        reveal_with_fuel(else_part, 1);
                        reveal_with_fuel(if_run, 1);
                        reveal_with_fuel(while_run, 1);
                    }
                }
            },
            DebugStatement::Return { value, .. } => {
                self.exec_return(statements, cur_bid, value, fuel);
                proof {
                    lemma_progressed_trans(e0, e1, *self);
                    assert(run_list(c, ks, pend, fr, stm, cur_bid as int, fuel as nat)
                        == then_run(c, ks, pend, return_frame(c, fr, *value, fuel as nat), stm, cur_bid + 1, fuel as nat)) by {
                        reveal_with_fuel(then_run, 1);
                        reveal_with_fuel(run_list, 1);
                        reveal_with_fuel(expand_run, 1);
                        reveal_with_fuel(then_part, 1);
                        reveal_with_fuel(else_part, 1);
                        reveal_with_fuel(if_run, 1);
                        reveal_with_fuel(while_run, 1);
                    }
                }
            },
            DebugStatement::Declaration { name, xtype, .. } => {
                let var_name = plain_name(*name, &self.cur_state.owner_name);
                fx_insert(&mut self.symbolic_store.variable_types, *name, DebugVariableType(xtype.duplicate()));
                let value = SymbolicValue::Variable(var_name.copy());
                self.cur_state.set_symval(var_name, value);
                proof {
                    let c = context_of(e0);
                    assert(kinds_of(*self) =~= kinds_of(e0).insert(*name, *xtype is Var));
                    assert(frame_of(self.cur_state).values =~= frame_of(e0.cur_state).values.insert(name_in(c, *name), SpecValue::Var(name_in(c, *name))));
                    assert(context_of(*self) == c);
                    lemma_continues_same(e1.cur_state, self.cur_state);
                    assert forall|i: int| 0 <= i < self.symbolic_store.block_end_states@.len() implies {
                        ||| (i < e1.symbolic_store.block_end_states@.len()
                            && continues(path_of(e1.symbolic_store.block_end_states@[i]), #[trigger] self.symbolic_store.block_end_states@[i]))
                        ||| continues(path_of(e1.cur_state), self.symbolic_store.block_end_states@[i])
                    } by {
                        lemma_continues_same(e1.symbolic_store.block_end_states@[i], self.symbolic_store.block_end_states@[i]);
                    }
                    lemma_progressed_step(e1, *self);
                    lemma_progressed_trans(e0, e1, *self);
                    assert(run_list(c, ks, pend, fr, stm, cur_bid as int, fuel as nat)
                        == run_list(c, ks.insert(*name, *xtype is Var), pend,
                            Frame { values: fr.values.insert(name_in(c, *name), SpecValue::Var(name_in(c, *name))), ..fr },
                            stm, cur_bid + 1, (fuel - 1) as nat)) by {
                        reveal_with_fuel(then_run, 1);
                        reveal_with_fuel(run_list, 1);
                        reveal_with_fuel(expand_run, 1);
                        reveal_with_fuel(then_part, 1);
                        reveal_with_fuel(else_part, 1);
                        reveal_with_fuel(if_run, 1);
                        reveal_with_fuel(while_run, 1);
                    }
                }
                let ghost e2 = *self;
                self.exec_list(statements, cur_bid + 1, fuel - 1);
                proof {
                    lemma_progressed_trans(e0, e2, *self);
                }
            },
            DebugStatement::Substitution { var, access, op, rhe, .. } => {
                self.exec_substitution(*var, access, *op, rhe, fuel - 1);
                let ghost e2 = *self;
                self.exec_list(statements, cur_bid + 1, fuel - 1);
                proof {
                    lemma_progressed_trans(e1, e2, *self);
                    lemma_progressed_trans(e0, e1, *self);
                    if e1.symbolic_store.block_end_states@.len() == 0
                        && substitution_path(e1, *var, access@, op.0, *rhe, (fuel - 1) as nat) is Some {
                        let q = substitution_path(e1, *var, access@, op.0, *rhe, (fuel - 1) as nat).unwrap();
                        lemma_continues_same(e2.cur_state, e2.cur_state);
                        assert(open_paths_continue(q, e2));
                    }
                    let sf = substitution_frame(c, ks, fr, *var, access@, op.0, *rhe, (fuel - 1) as nat);
                    assert(run_list(c, ks, pend, fr, stm, cur_bid as int, fuel as nat)
                        == then_run(c, ks, pend, sf, stm, cur_bid + 1, fuel as nat)) by {
                        reveal_with_fuel(then_run, 1);
                        reveal_with_fuel(run_list, 1);
                        reveal_with_fuel(expand_run, 1);
                        reveal_with_fuel(then_part, 1);
                        reveal_with_fuel(else_part, 1);
                        reveal_with_fuel(if_run, 1);
                        reveal_with_fuel(while_run, 1);
                    }
                    if run_list(c, ks, pend, fr, stm, cur_bid as int, fuel as nat) is Some {
                        lemma_then_run(c, ks, pend, sf, stm, cur_bid + 1, fuel as nat);
                    }
                }
            },
            DebugStatement::MultSubstitution { lhe, op, rhe, .. } => {
                let signal = op.0 == AssignOp::AssignConstraintSignal;
                self.exec_equality(statements, cur_bid, lhe, rhe, signal, fuel);
                proof {
                    lemma_progressed_trans(e0, e1, *self);
                    assert(run_list(c, ks, pend, fr, stm, cur_bid as int, fuel as nat)
                        == then_run(c, ks, pend, equality_frame(c, fr, *lhe, *rhe, signal, fuel as nat), stm, cur_bid + 1, fuel as nat)) by {
                        reveal_with_fuel(then_run, 1);
                        reveal_with_fuel(run_list, 1);
                        reveal_with_fuel(expand_run, 1);
                        reveal_with_fuel(then_part, 1);
                        reveal_with_fuel(else_part, 1);
                        reveal_with_fuel(if_run, 1);
                        reveal_with_fuel(while_run, 1);
                    }
                }
            },
            DebugStatement::ConstraintEquality { lhe, rhe, .. } => {
                self.exec_equality(statements, cur_bid, lhe, rhe, true, fuel);
                proof {
                    lemma_progressed_trans(e0, e1, *self);
                    assert(run_list(c, ks, pend, fr, stm, cur_bid as int, fuel as nat)
                        == then_run(c, ks, pend, equality_frame(c, fr, *lhe, *rhe, true, fuel as nat), stm, cur_bid + 1, fuel as nat)) by {
                        reveal_with_fuel(then_run, 1);
                        reveal_with_fuel(run_list, 1);
                        reveal_with_fuel(expand_run, 1);
                        reveal_with_fuel(then_part, 1);
                        reveal_with_fuel(else_part, 1);
                        reveal_with_fuel(if_run, 1);
                        reveal_with_fuel(while_run, 1);
                    }
                }
            },
            DebugStatement::Assert { arg, .. } => {
                self.exec_assert(statements, cur_bid, arg, fuel);
                proof {
                    lemma_progressed_trans(e0, e1, *self);
                    assert(run_list(c, ks, pend, fr, stm, cur_bid as int, fuel as nat)
                        == then_run(c, ks, pend, assert_frame(c, fr, *arg, fuel as nat), stm, cur_bid + 1, fuel as nat)) by {
                        reveal_with_fuel(then_run, 1);
                        reveal_with_fuel(run_list, 1);
                        reveal_with_fuel(expand_run, 1);
                        reveal_with_fuel(then_part, 1);
                        reveal_with_fuel(else_part, 1);
                        reveal_with_fuel(if_run, 1);
                        reveal_with_fuel(while_run, 1);
                    }
                }
            },
            DebugStatement::UnderscoreSubstitution { .. } => {
                proof {
                    assert(run_list(c, ks, pend, fr, stm, cur_bid as int, fuel as nat)
                        == Some(Outcome { finals: Seq::empty(), ends: pend, kinds: ks, cur: fr })) by {
                        reveal_with_fuel(then_run, 1);
                        reveal_with_fuel(run_list, 1);
                        reveal_with_fuel(expand_run, 1);
                        reveal_with_fuel(then_part, 1);
                        reveal_with_fuel(else_part, 1);
                        reveal_with_fuel(if_run, 1);
                        reveal_with_fuel(while_run, 1);
                    }
                    assert(frames_of(self.symbolic_store.final_states@) =~= frames_of(e0.symbolic_store.final_states@) + Seq::<Frame>::empty());
                }
            },
            DebugStatement::LogCall { .. } => {
                proof {
                    assert(run_list(c, ks, pend, fr, stm, cur_bid as int, fuel as nat)
                        == Some(Outcome { finals: Seq::empty(), ends: pend, kinds: ks, cur: fr })) by {
                        reveal_with_fuel(then_run, 1);
                        reveal_with_fuel(run_list, 1);
                        reveal_with_fuel(expand_run, 1);
                        reveal_with_fuel(then_part, 1);
                        reveal_with_fuel(else_part, 1);
                        reveal_with_fuel(if_run, 1);
                        reveal_with_fuel(while_run, 1);
                    }
                    assert(frames_of(self.symbolic_store.final_states@) =~= frames_of(e0.symbolic_store.final_states@) + Seq::<Frame>::empty());
                }
            },
            DebugStatement::Ret => {
                let st = self.cur_state.copy();
                self.symbolic_store.final_states.push(st);
                proof {
                    assert(run_list(c, ks, pend, fr, stm, cur_bid as int, fuel as nat)
                        == Some(Outcome { finals: seq![fr], ends: pend, kinds: ks, cur: fr })) by {
                        reveal_with_fuel(then_run, 1);
                        reveal_with_fuel(run_list, 1);
                        reveal_with_fuel(expand_run, 1);
                        reveal_with_fuel(then_part, 1);
                        reveal_with_fuel(else_part, 1);
                        reveal_with_fuel(if_run, 1);
                        reveal_with_fuel(while_run, 1);
                    }
                    assert(frame_of(st) == frame_of(e0.cur_state));
                    assert(frames_of(self.symbolic_store.final_states@) =~= frames_of(e0.symbolic_store.final_states@) + seq![frame_of(e0.cur_state)]);
                    lemma_continues_same(e1.cur_state, e1.cur_state);
                    lemma_continues_same(e1.cur_state, st);
                    assert forall|i: int| 0 <= i < self.symbolic_store.block_end_states@.len() implies {
                        ||| (i < e1.symbolic_store.block_end_states@.len()
                            && continues(path_of(e1.symbolic_store.block_end_states@[i]), #[trigger] self.symbolic_store.block_end_states@[i]))
                        ||| continues(path_of(e1.cur_state), self.symbolic_store.block_end_states@[i])
                    } by {
                        lemma_continues_same(e1.symbolic_store.block_end_states@[i], self.symbolic_store.block_end_states@[i]);
                    }
                    lemma_progressed_step(e1, *self);
                    lemma_progressed_trans(e0, e1, *self);
                }
            },
        }
    }

    /// Executes an initialization block (skipping it for input signals where the setting
    /// says so), then the statements after it on every path it left.
    fn exec_initialization_block(
        &mut self,
        statements: &Vec<&DebugStatement>,
        cur_bid: usize,
        initializations: &Vec<DebugStatement>,
        xtype: &VariableType,
        fuel: u64,
    )
        requires
            old(self).wf(),
            cur_bid < statements.len(),
        ensures
            final(self).wf(),
            progressed(*old(self), *final(self)),
            fuel == 0 ==> final(self).symbolic_store.error is Some,
            fuel > 2 && old(self).symbolic_store.error is None && (initializations@.len() == 0
                || (old(self).setting.skip_initialization_blocks && *xtype matches VariableType::Signal(SignalType::Input, _)))
                ==> {
                &&& cur_bid + 1 < statements@.len() && *statements@[cur_bid + 1] is Ret ==> {
                    &&& final(self).symbolic_store.error is None
                    &&& final(self).symbolic_store.block_end_states@.len() == 0
                    &&& final(self).symbolic_store.final_states@.len() == old(self).symbolic_store.final_states@.len() + 1
                    &&& final(self).symbolic_store.final_states@.last().values@ == old(self).cur_state.values@
                    &&& path_of(final(self).symbolic_store.final_states@.last()) == path_of(old(self).cur_state)
                }
                &&& cur_bid + 1 >= statements@.len() ==> {
                    &&& final(self).symbolic_store.error is None
                    &&& final(self).symbolic_store.final_states@ == old(self).symbolic_store.final_states@
                    &&& final(self).symbolic_store.block_end_states@.len() == 1
                    &&& final(self).symbolic_store.block_end_states@[0].values@ == old(self).cur_state.values@
                }
            },
        decreases fuel, 2u64,
    {
        if fuel == 0 {
            self.fail(ExecutionError::OutOfFuel);
            return;
        }
        let ghost e0 = *self;
        let is_input = xtype.is_input_signal();
        if !(self.setting.skip_initialization_blocks && is_input) {
            let mut i: usize = 0;
            while i < initializations.len()
                invariant
                    i <= initializations@.len(),
                    self.wf(),
                    e0 == *old(self),
                    progressed(e0, *self),
                    fuel > 0,
                    i == 0 ==> *self == e0,
                decreases initializations.len() - i,
            {
                let ghost x = *self;
                let one: Vec<&DebugStatement> = vec![&initializations[i]];
                self.exec_list(&one, 0, fuel - 1);
                proof {
                    lemma_progressed_trans(e0, x, *self);
                }
                i = i + 1;
            }
        }
        let ghost e1 = *self;
        let st = self.cur_state.copy();
        self.symbolic_store.block_end_states = vec![st];
        proof {
            lemma_continues_same(e1.cur_state, e1.cur_state);
            lemma_continues_same(e1.cur_state, st);
            assert(self.symbolic_store.block_end_states@[0] == st);
            lemma_progressed_step(e1, *self);
            lemma_progressed_trans(e0, e1, *self);
        }
        let ghost e2 = *self;
        let d = self.cur_state.depth;
        self.expand_all_stack_states(statements, cur_bid + 1, d, fuel - 1);
        proof {
            lemma_progressed_trans(e0, e2, *self);
            if fuel > 2 && e1 == e0 && e0.symbolic_store.error is None && cur_bid + 1 < statements@.len()
                && *statements@[cur_bid + 1] is Ret {
                assert(e2.symbolic_store.block_end_states@[0] == st);
                assert(self.symbolic_store.final_states@.last()
                    == self.symbolic_store.final_states@[e2.symbolic_store.final_states@.len() as int]);
            }
        }
    }

    /// Executes a `while` loop whose condition folds to a boolean constant: the body and the
    /// loop again while it is `true`, then the statements after it.
    fn exec_while(&mut self, statements: &Vec<&DebugStatement>, cur_bid: usize, cond: &DebugExpression, body: &DebugStatement, fuel: u64)
        requires
            old(self).wf(),
            cur_bid < statements.len(),
        ensures
            final(self).wf(),
            progressed(*old(self), *final(self)),
            fuel == 0 ==> final(self).symbolic_store.error is Some,
            operator_fold(*old(self), *cond, fuel as nat, !old(self).setting.propagate_assignments) matches Some(c)
                && !(c matches Some(SpecValue::Bool(_))) ==> final(self).symbolic_store.error is Some,
            operator_fold(*old(self), *cond, fuel as nat, !old(self).setting.propagate_assignments)
                == Some(Some(SpecValue::Bool(false))) && fuel > 2 && old(self).symbolic_store.error is None
                && cur_bid + 1 < statements@.len() && *statements@[cur_bid + 1] is Ret ==> {
                &&& final(self).symbolic_store.error is None
                &&& final(self).symbolic_store.block_end_states@.len() == 0
                &&& final(self).symbolic_store.final_states@.len()
                    == old(self).symbolic_store.final_states@.len() + old(self).symbolic_store.block_end_states@.len() + 1
                &&& final(self).symbolic_store.final_states@.last().values@ == old(self).cur_state.values@
                &&& path_of(final(self).symbolic_store.final_states@.last()) == path_of(old(self).cur_state)
            },
            while_run(context_of(*old(self)), kinds_of(*old(self)), pending_of(*old(self)), frame_of(old(self).cur_state),
                *cond, *body, derefs(statements@), cur_bid as int, fuel as nat) matches Some(o)
                ==> (ready_to_run(*old(self)) ==> ran(context_of(*old(self)), *old(self), *final(self), o)),
        decreases fuel, 2u64,
    {
        let ghost c = context_of(*self);
        let ghost ks = kinds_of(*self);
        let ghost pend = pending_of(*self);
        let ghost fr = frame_of(self.cur_state);
        let ghost stm = derefs(statements@);
        let ghost go = ready_to_run(*self) && while_run(c, ks, pend, fr, *cond, *body, stm, cur_bid as int, fuel as nat) is Some;
        proof {
            if go {
                lemma_while_run(c, ks, pend, fr, *cond, *body, stm, cur_bid as int, fuel as nat);
            }
        }
        if fuel == 0 {
            self.fail(ExecutionError::OutOfFuel);
            return;
        }
        let ghost e0 = *self;
        let tmp_cond = match self.evaluate_expression(cond, fuel - 1) {
            Some(v) => v,
            None => {
                return;
            },
        };
        let evaled_condition = match self.fold_variables(&tmp_cond, !self.setting.propagate_assignments) {
            Some(v) => v,
            None => {
                self.fail(ExecutionError::FoldFailed);
                return;
            },
        };
        let ghost e1 = *self;
        proof {
            if go {
                assert(e1 == e0);
                assert(evaled_condition@ == fold_in(c, fr, operator_value(*cond, c.owner).unwrap(), c.fold_constant).unwrap());
            }
        }
        match evaled_condition {
            SymbolicValue::ConstantBool(flag) => {
                if flag {
                    let one: Vec<&DebugStatement> = vec![body];
                    proof {
                        assert(derefs(one@) =~= seq![*body]);
                    }
                    self.exec_list(&one, 0, fuel - 1);
                    let ghost e2 = *self;
                    self.symbolic_store.block_end_states.pop();
                    proof {
                        lemma_continues_same(e2.cur_state, self.cur_state);
                        assert forall|i: int| 0 <= i < self.symbolic_store.block_end_states@.len() implies {
                            ||| (i < e2.symbolic_store.block_end_states@.len()
                                && continues(path_of(e2.symbolic_store.block_end_states@[i]), #[trigger] self.symbolic_store.block_end_states@[i]))
                            ||| continues(path_of(e2.cur_state), self.symbolic_store.block_end_states@[i])
                        } by {
                            assert(self.symbolic_store.block_end_states@[i] == e2.symbolic_store.block_end_states@[i]);
                            lemma_continues_same(e2.symbolic_store.block_end_states@[i], self.symbolic_store.block_end_states@[i]);
                        }
                        lemma_progressed_step(e2, *self);
                        lemma_progressed_trans(e1, e2, *self);
                    }
                    let ghost e3 = *self;
                    let ghost o1 = run_list(c, ks, pend, fr, seq![*body], 0, (fuel - 1) as nat).unwrap();
                    let ghost o1d = Outcome {
                        ends: if o1.ends.len() > 0 { o1.ends.drop_last() } else { o1.ends },
                        ..o1
                    };
                    proof {
                        if go {
                            assert(ran(c, e1, e2, o1));
                            assert(pending_of(e3) =~= o1d.ends);
                            assert forall|i: int| 0 <= i < e3.symbolic_store.block_end_states@.len()
                                implies state_in(c, #[trigger] e3.symbolic_store.block_end_states@[i]) by {
                                assert(e3.symbolic_store.block_end_states@[i] == e2.symbolic_store.block_end_states@[i]);
                            }
                            assert(ran(c, e1, e3, o1d));
                        }
                    }
                    self.exec_list(statements, cur_bid, fuel - 1);
                    proof {
                        lemma_progressed_trans(e1, e3, *self);
                        if go {
                            let o2 = run_list(c, o1d.kinds, o1d.ends, o1d.cur, stm, cur_bid as int, (fuel - 1) as nat).unwrap();
                            assert(ran(c, e3, *self, o2));
                            lemma_ran_compose(c, e1, e3, *self, o1d, o2);
                        }
                    }
                } else {
                    let st = self.cur_state.copy();
                    self.symbolic_store.block_end_states.push(st);
                    proof {
                        lemma_continues_same(e1.cur_state, e1.cur_state);
                        lemma_continues_same(e1.cur_state, st);
                        assert forall|i: int| 0 <= i < self.symbolic_store.block_end_states@.len() implies {
                            ||| (i < e1.symbolic_store.block_end_states@.len()
                                && continues(path_of(e1.symbolic_store.block_end_states@[i]), #[trigger] self.symbolic_store.block_end_states@[i]))
                            ||| continues(path_of(e1.cur_state), self.symbolic_store.block_end_states@[i])
                        } by {
                            if i < e1.symbolic_store.block_end_states@.len() {
                                lemma_continues_same(e1.symbolic_store.block_end_states@[i], self.symbolic_store.block_end_states@[i]);
                            }
                        }
                        lemma_progressed_step(e1, *self);
                        if go {
                            assert(frame_of(st) == fr);
                            assert(pending_of(*self) =~= pend.push(fr));
                            assert(frames_of(self.symbolic_store.final_states@) =~= frames_of(e0.symbolic_store.final_states@));
                            assert forall|i: int| 0 <= i < self.symbolic_store.block_end_states@.len()
                                implies state_in(c, #[trigger] self.symbolic_store.block_end_states@[i]) by {
                                if i < e1.symbolic_store.block_end_states@.len() {
                                    assert(self.symbolic_store.block_end_states@[i] == e1.symbolic_store.block_end_states@[i]);
                                }
                            }
                        }
                    }
                }
            },
            _ => {
                self.fail(ExecutionError::UnsupportedWhileCondition);
                return;
            },
        }
        proof {
            lemma_progressed_trans(e0, e1, *self);
        }
        let ghost e4 = *self;
        let d = self.cur_state.depth;
        self.expand_all_stack_states(statements, cur_bid + 1, d, fuel - 1);
        proof {
            lemma_progressed_trans(e0, e4, *self);
            if go {
                let cv = fold_in(c, fr, operator_value(*cond, c.owner).unwrap(), c.fold_constant).unwrap();
                if cv == SpecValue::Bool(true) {
                    let o1 = run_list(c, ks, pend, fr, seq![*body], 0, (fuel - 1) as nat).unwrap();
                    let o1d = Outcome { ends: if o1.ends.len() > 0 { o1.ends.drop_last() } else { o1.ends }, ..o1 };
                    let o2 = run_list(c, o1d.kinds, o1d.ends, o1d.cur, stm, cur_bid as int, (fuel - 1) as nat).unwrap();
                    let o12 = Outcome { finals: o1d.finals + o2.finals, ends: o2.ends, kinds: o2.kinds, cur: o2.cur };
                    assert(ran(c, e0, e4, o12));
                    let o3 = expand_run(c, o2.kinds, Seq::empty(), o2.ends, stm, cur_bid + 1, o2.cur.depth, o2.cur, (fuel - 1) as nat).unwrap();
                    assert(ran(c, e4, *self, o3));
                    lemma_ran_compose(c, e0, e4, *self, o12, o3);
                    assert(o12.finals + o3.finals =~= o1.finals + o2.finals + o3.finals);
                } else {
                    let o = expand_run(c, ks, Seq::empty(), pend.push(fr), stm, cur_bid + 1, fr.depth, fr, (fuel - 1) as nat).unwrap();
                    assert(ran(c, e4, *self, o));
                    assert(frames_of(self.symbolic_store.final_states@) =~= frames_of(e0.symbolic_store.final_states@) + o.finals);
                }
            }
            if operator_fold(e0, *cond, fuel as nat, !e0.setting.propagate_assignments)
                == Some(Some(SpecValue::Bool(false))) && fuel > 2 && e0.symbolic_store.error is None
                && cur_bid + 1 < statements@.len() && *statements@[cur_bid + 1] is Ret {
                let n = e4.symbolic_store.block_end_states@.len() - 1;
                assert(e4.symbolic_store.block_end_states@[n] == e4.symbolic_store.block_end_states@.last());
                assert(self.symbolic_store.final_states@.last()
                    == self.symbolic_store.final_states@[e4.symbolic_store.final_states@.len() + n]);
            }
        }
    }

    /// Executes a `return`: binds the folded value to the return name of the current owner,
    /// then goes on with the next statement.
    fn exec_return(&mut self, statements: &Vec<&DebugStatement>, cur_bid: usize, value: &DebugExpression, fuel: u64)
        requires
            old(self).wf(),
            cur_bid < statements.len(),
        ensures
            final(self).wf(),
            progressed(*old(self), *final(self)),
            operator_fold(*old(self), *value, fuel as nat, !old(self).setting.propagate_assignments) == Some(None::<SpecValue>)
                ==> final(self).symbolic_store.error is Some,
            operator_fold(*old(self), *value, fuel as nat, !old(self).setting.propagate_assignments) matches Some(Some(v))
                ==> (fuel > 1 && old(self).symbolic_store.error is None && cur_bid + 1 < statements@.len()
                && *statements@[cur_bid + 1] is Ret ==> {
                &&& final(self).symbolic_store.final_states@.len() == old(self).symbolic_store.final_states@.len() + 1
                &&& final(self).symbolic_store.final_states@.last().values@ == old(self).cur_state.values@.insert(
                    SpecName { name: usize::MAX, owner: old(self).cur_state.owner_name@, access: Seq::empty() },
                    v,
                )
            }),
            then_run(context_of(*old(self)), kinds_of(*old(self)), pending_of(*old(self)),
                return_frame(context_of(*old(self)), frame_of(old(self).cur_state), *value, fuel as nat),
                derefs(statements@), cur_bid + 1, fuel as nat) matches Some(o)
                ==> (ready_to_run(*old(self)) ==> ran(context_of(*old(self)), *old(self), *final(self), o)),
        decreases fuel, 2u64,
    {
        proof {
            let c = context_of(*self);
            let st = return_frame(c, frame_of(self.cur_state), *value, fuel as nat);
            if then_run(c, kinds_of(*self), pending_of(*self), st, derefs(statements@), cur_bid + 1, fuel as nat) is Some {
                lemma_then_run(c, kinds_of(*self), pending_of(*self), st, derefs(statements@), cur_bid + 1, fuel as nat);
            }
        }
        if fuel == 0 {
            self.fail(ExecutionError::OutOfFuel);
            return;
        }
        let ghost e0 = *self;
        let tmp_val = match self.evaluate_expression(value, fuel - 1) {
            Some(v) => v,
            None => {
                return;
            },
        };
        let ghost e1 = *self;
        let return_value = match self.fold_variables(&tmp_val, !self.setting.propagate_assignments) {
            Some(v) => v,
            None => {
                self.fail(ExecutionError::FoldFailed);
                return;
            },
        };
        if !fx_contains_key(&self.symbolic_library.id2name, usize::MAX) {
            fx_name_insert(&mut self.symbolic_library.name2id, "__return__".to_owned(), usize::MAX);
            fx_insert(&mut self.symbolic_library.id2name, usize::MAX, "__return__".to_owned());
        }
        let n = plain_name(usize::MAX, &self.cur_state.owner_name);
        self.cur_state.set_symval(n, return_value);
        proof {
            lemma_continues_same(e1.cur_state, self.cur_state);
            lemma_progressed_local(e1, *self);
            lemma_progressed_trans(e0, e1, *self);
        }
        let ghost e2 = *self;
        proof {
            let c = context_of(e0);
            if ready_to_run(e0) && return_frame(c, frame_of(e0.cur_state), *value, fuel as nat) is Some {
                let f2 = return_frame(c, frame_of(e0.cur_state), *value, fuel as nat).unwrap();
                assert(e1 == e0);
                assert(frame_of(e2.cur_state).values =~= f2.values);
                assert(frame_of(e2.cur_state) == f2);
                assert(context_of(e2) == c);
                assert(runs_in(c, e2));
                if then_run(c, kinds_of(e0), pending_of(e0), Some(f2), derefs(statements@), cur_bid + 1, fuel as nat) is Some {
                    lemma_then_run(c, kinds_of(e0), pending_of(e0), Some(f2), derefs(statements@), cur_bid + 1, fuel as nat);
                }
            }
        }
        self.exec_list(statements, cur_bid + 1, fuel - 1);
        proof {
            lemma_progressed_trans(e0, e2, *self);
        }
    }

    /// Executes `lhe === rhe` (or a multiple substitution): adds `lhe == rhe` folded as the
    /// setting says to the trace constraints and, where `signal` is set, the same with only
    /// constants folded to the side constraints; then goes on with the next statement.
    fn exec_equality(
        &mut self,
        statements: &Vec<&DebugStatement>,
        cur_bid: usize,
        lhe: &DebugExpression,
        rhe: &DebugExpression,
        signal: bool,
        fuel: u64,
    )
        requires
            old(self).wf(),
            cur_bid < statements.len(),
        ensures
            final(self).wf(),
            progressed(*old(self), *final(self)),
            equality_path(*old(self), *lhe, *rhe, signal, fuel as nat) matches Some(q)
                ==> (old(self).symbolic_store.block_end_states@.len() == 0 ==> new_paths_continue(q, *old(self), *final(self))),
            then_run(context_of(*old(self)), kinds_of(*old(self)), pending_of(*old(self)),
                equality_frame(context_of(*old(self)), frame_of(old(self).cur_state), *lhe, *rhe, signal, fuel as nat),
                derefs(statements@), cur_bid + 1, fuel as nat) matches Some(o)
                ==> (ready_to_run(*old(self)) ==> ran(context_of(*old(self)), *old(self), *final(self), o)),
        decreases fuel, 2u64,
    {
        proof {
            let c = context_of(*self);
            let st = equality_frame(c, frame_of(self.cur_state), *lhe, *rhe, signal, fuel as nat);
            if then_run(c, kinds_of(*self), pending_of(*self), st, derefs(statements@), cur_bid + 1, fuel as nat) is Some {
                lemma_then_run(c, kinds_of(*self), pending_of(*self), st, derefs(statements@), cur_bid + 1, fuel as nat);
            }
        }
        if fuel == 0 {
            self.fail(ExecutionError::OutOfFuel);
            return;
        }
        let ghost e0 = *self;
        let lhe_val = match self.evaluate_expression(lhe, fuel - 1) {
            Some(v) => v,
            None => {
                return;
            },
        };
        let ghost e1 = *self;
        let rhe_val = match self.evaluate_expression(rhe, fuel - 1) {
            Some(v) => v,
            None => {
                proof {
                    lemma_progressed_trans(e0, e1, *self);
                }
                return;
            },
        };
        proof {
            lemma_progressed_trans(e0, e1, *self);
        }
        let ghost e2 = *self;
        let prop = !self.setting.propagate_assignments;
        let (original_lhs, lhs, original_rhs, rhs) = match (
            self.fold_variables(&lhe_val, true),
            self.fold_variables(&lhe_val, prop),
            self.fold_variables(&rhe_val, true),
            self.fold_variables(&rhe_val, prop),
        ) {
            (Some(a), Some(b), Some(c), Some(d)) => (a, b, c, d),
            _ => {
                self.fail(ExecutionError::FoldFailed);
                return;
            },
        };
        let cond = SymbolicValue::BinaryOp(
            Rc::new(lhs),
            DebugExpressionInfixOpcode(ExpressionInfixOpcode::Eq),
            Rc::new(rhs),
        );
        self.cur_state.push_trace_constraint(&cond);
        proof {
            assert(values_view(self.cur_state.trace_constraints@) =~= values_view(e2.cur_state.trace_constraints@) + seq![cond@]);
            assert(values_view(self.cur_state.side_constraints@) =~= values_view(e2.cur_state.side_constraints@) + Seq::<SpecValue>::empty());
            lemma_continues_extend(e2.cur_state, self.cur_state, seq![cond@], Seq::empty());
        }
        if signal {
            let original_cond = SymbolicValue::BinaryOp(
                Rc::new(original_lhs),
                DebugExpressionInfixOpcode(ExpressionInfixOpcode::Eq),
                Rc::new(original_rhs),
            );
            let ghost e3 = self.cur_state;
            self.cur_state.push_side_constraint(&original_cond);
            proof {
                assert(values_view(self.cur_state.trace_constraints@) =~= values_view(e3.trace_constraints@) + Seq::<SpecValue>::empty());
                assert(values_view(self.cur_state.side_constraints@) =~= values_view(e3.side_constraints@) + seq![original_cond@]);
                lemma_continues_extend(e3, self.cur_state, Seq::empty(), seq![original_cond@]);
                lemma_continues_trans(path_of(e2.cur_state), e3, self.cur_state);
            }
        }
        proof {
            lemma_progressed_local(e2, *self);
            lemma_progressed_trans(e0, e2, *self);
        }
        let ghost e4 = *self;
        proof {
            let c = context_of(e0);
            if ready_to_run(e0) && equality_frame(c, frame_of(e0.cur_state), *lhe, *rhe, signal, fuel as nat) is Some {
                let f2 = equality_frame(c, frame_of(e0.cur_state), *lhe, *rhe, signal, fuel as nat).unwrap();
                assert(e2 == e0);
                assert(frame_of(e4.cur_state).trace =~= f2.trace);
                assert(frame_of(e4.cur_state).side =~= f2.side);
                assert(frame_of(e4.cur_state) == f2);
                assert(context_of(e4) == c);
                assert(runs_in(c, e4));
                if then_run(c, kinds_of(e0), pending_of(e0), Some(f2), derefs(statements@), cur_bid + 1, fuel as nat) is Some {
                    lemma_then_run(c, kinds_of(e0), pending_of(e0), Some(f2), derefs(statements@), cur_bid + 1, fuel as nat);
                }
            }
        }
        self.exec_list(statements, cur_bid + 1, fuel - 1);
        proof {
            lemma_progressed_trans(e0, e4, *self);
            if e0.symbolic_store.block_end_states@.len() == 0 && equality_path(e0, *lhe, *rhe, signal, fuel as nat) is Some {
                let q = equality_path(e0, *lhe, *rhe, signal, fuel as nat).unwrap();
                assert(path_of(e4.cur_state).trace =~= q.trace);
                assert(path_of(e4.cur_state).side =~= q.side);
                lemma_continues_same(e4.cur_state, e4.cur_state);
                assert(open_paths_continue(q, e4));
            }
        }
    }

    /// Executes an `assert`: adds its folded condition to the trace constraints, then goes
    /// on with the next statement.
    fn exec_assert(&mut self, statements: &Vec<&DebugStatement>, cur_bid: usize, arg: &DebugExpression, fuel: u64)
        requires
            old(self).wf(),
            cur_bid < statements.len(),
        ensures
            final(self).wf(),
            progressed(*old(self), *final(self)),
            assert_path(*old(self), *arg, fuel as nat) matches Some(q)
                ==> (old(self).symbolic_store.block_end_states@.len() == 0 ==> new_paths_continue(q, *old(self), *final(self))),
            then_run(context_of(*old(self)), kinds_of(*old(self)), pending_of(*old(self)),
                assert_frame(context_of(*old(self)), frame_of(old(self).cur_state), *arg, fuel as nat),
                derefs(statements@), cur_bid + 1, fuel as nat) matches Some(o)
                ==> (ready_to_run(*old(self)) ==> ran(context_of(*old(self)), *old(self), *final(self), o)),
        decreases fuel, 2u64,
    {
        proof {
            let c = context_of(*self);
            let st = assert_frame(c, frame_of(self.cur_state), *arg, fuel as nat);
            if then_run(c, kinds_of(*self), pending_of(*self), st, derefs(statements@), cur_bid + 1, fuel as nat) is Some {
                lemma_then_run(c, kinds_of(*self), pending_of(*self), st, derefs(statements@), cur_bid + 1, fuel as nat);
            }
        }
        if fuel == 0 {
            self.fail(ExecutionError::OutOfFuel);
            return;
        }
        let ghost e0 = *self;
        let expr = match self.evaluate_expression(arg, fuel - 1) {
            Some(v) => v,
            None => {
                return;
            },
        };
        let condition = match self.fold_variables(&expr, !self.setting.propagate_assignments) {
            Some(v) => v,
            None => {
                self.fail(ExecutionError::FoldFailed);
                return;
            },
        };
        let ghost e1 = *self;
        self.cur_state.push_trace_constraint(&condition);
        proof {
            assert(values_view(self.cur_state.trace_constraints@) =~= values_view(e1.cur_state.trace_constraints@) + seq![condition@]);
            assert(values_view(self.cur_state.side_constraints@) =~= values_view(e1.cur_state.side_constraints@) + Seq::<SpecValue>::empty());
            lemma_continues_extend(e1.cur_state, self.cur_state, seq![condition@], Seq::empty());
            lemma_progressed_local(e1, *self);
            lemma_progressed_trans(e0, e1, *self);
        }
        let ghost e2 = *self;
        proof {
            let c = context_of(e0);
            if ready_to_run(e0) && assert_frame(c, frame_of(e0.cur_state), *arg, fuel as nat) is Some {
                let f2 = assert_frame(c, frame_of(e0.cur_state), *arg, fuel as nat).unwrap();
                assert(e1 == e0);
                assert(frame_of(e2.cur_state).trace =~= f2.trace);
                assert(frame_of(e2.cur_state).side =~= f2.side);
                assert(frame_of(e2.cur_state) == f2);
                assert(context_of(e2) == c);
                assert(runs_in(c, e2));
                if then_run(c, kinds_of(e0), pending_of(e0), Some(f2), derefs(statements@), cur_bid + 1, fuel as nat) is Some {
                    lemma_then_run(c, kinds_of(e0), pending_of(e0), Some(f2), derefs(statements@), cur_bid + 1, fuel as nat);
                }
            }
        }
        self.exec_list(statements, cur_bid + 1, fuel - 1);
        proof {
            lemma_progressed_trans(e0, e2, *self);
            if e0.symbolic_store.block_end_states@.len() == 0 && assert_path(e0, *arg, fuel as nat) is Some {
                let q = assert_path(e0, *arg, fuel as nat).unwrap();
                assert(path_of(e2.cur_state).trace =~= q.trace);
                assert(path_of(e2.cur_state).side =~= q.side);
                lemma_continues_same(e2.cur_state, e2.cur_state);
                assert(open_paths_continue(q, e2));
            }
        }
    }
}

impl<'a> SymbolicExecutor<'a> {
    /// Executes a branch: the path where the condition holds (unless it folds to `false`)
    /// and the path where it fails (unless its negation folds to `false`), both taken from
    /// the state before the branch, each continuing with the statements after the branch.
    #[verifier::rlimit(100)]
    #[verifier::spinoff_prover]
    fn exec_if_then_else(
        &mut self,
        statements: &Vec<&DebugStatement>,
        cur_bid: usize,
        cond: &DebugExpression,
        if_case: &DebugStatement,
        else_case: &Option<Box<DebugStatement>>,
        fuel: u64,
    )
        requires
            old(self).wf(),
            cur_bid < statements.len(),
        ensures
            final(self).wf(),
            progressed(*old(self), *final(self)),
            branch_paths(*old(self), *cond, fuel as nat) matches Some((t, f))
                ==> (old(self).symbolic_store.block_end_states@.len() == 0 && old(self).cur_state.depth < usize::MAX ==> {
                &&& new_paths_continue_either(t, f, *old(self), *final(self))
                &&& t.trace.last() == SpecValue::Bool(false) ==> new_paths_continue(f, *old(self), *final(self))
                &&& f.trace.last() == SpecValue::Bool(false) ==> new_paths_continue(t, *old(self), *final(self))
            }),
            if_run(context_of(*old(self)), kinds_of(*old(self)), pending_of(*old(self)), frame_of(old(self).cur_state),
                *cond, *if_case, *else_case, derefs(statements@), cur_bid as int, fuel as nat) matches Some(o)
                ==> (ready_to_run(*old(self)) ==> ran(context_of(*old(self)), *old(self), *final(self), o)),
        decreases fuel, 0u64,
    {
        if fuel == 0 {
            proof {
                assert(if_run(context_of(*old(self)), kinds_of(*old(self)), pending_of(*old(self)), frame_of(old(self).cur_state),
                    *cond, *if_case, *else_case, derefs(statements@), cur_bid as int, fuel as nat) is None) by {
                    reveal_with_fuel(then_run, 1);
                    reveal_with_fuel(run_list, 1);
                    reveal_with_fuel(expand_run, 1);
                    reveal_with_fuel(then_part, 1);
                    reveal_with_fuel(else_part, 1);
                    reveal_with_fuel(if_run, 1);
                    reveal_with_fuel(while_run, 1);
                }
            }
            self.fail(ExecutionError::OutOfFuel);
            return;
        }
        let ghost e0 = *self;
        let ghost ok = branch_paths(e0, *cond, fuel as nat) is Some
            && e0.symbolic_store.block_end_states@.len() == 0 && e0.cur_state.depth < usize::MAX;
        let ghost (t, f) = match branch_paths(e0, *cond, fuel as nat) {
            Some(tf) => tf,
            None => (path_of(e0.cur_state), path_of(e0.cur_state)),
        };
        let ghost c = context_of(e0);
        let ghost fr = frame_of(e0.cur_state);
        let ghost ks = kinds_of(e0);
        let ghost pend = pending_of(e0);
        let ghost stm = derefs(statements@);
        let ghost go = ready_to_run(e0) && if_run(c, ks, pend, fr, *cond, *if_case, *else_case, stm, cur_bid as int, fuel as nat) is Some;
        let ghost cv = fold_in(c, fr, operator_value(*cond, c.owner).unwrap(), c.fold_constant).unwrap();
        let ghost oc = fold_in(c, fr, operator_value(*cond, c.owner).unwrap(), true).unwrap();
        let ghost a = then_part(c, ks, pend, fr, cv, oc, *if_case, stm, cur_bid as int, fuel as nat).unwrap();
        let ghost b = else_part(c, a.kinds, pend, fr, cv, oc, *else_case, stm, cur_bid as int, fuel as nat).unwrap();
        proof {
            if go {
                lemma_if_run(c, ks, pend, fr, *cond, *if_case, *else_case, stm, cur_bid as int, fuel as nat);
                lemma_then_part(c, ks, pend, fr, cv, oc, *if_case, stm, cur_bid as int, fuel as nat);
            }
        }
        let tmp_cond = match self.evaluate_expression(cond, fuel - 1) {
            Some(v) => v,
            None => {
                return;
            },
        };
        let (original_evaled_condition, evaled_condition) = match (
            self.fold_variables(&tmp_cond, true),
            self.fold_variables(&tmp_cond, !self.setting.propagate_assignments),
        ) {
            (Some(a), Some(b)) => (a, b),
            _ => {
                self.fail(ExecutionError::FoldFailed);
                return;
            },
        };
        let cur_depth = self.cur_state.depth;
        if cur_depth == usize::MAX {
            self.fail(ExecutionError::CounterOverflow);
            return;
        }
        let ghost e1 = *self;
        proof {
            if go {
                assert(e1 == e0);
                assert(evaled_condition@ == cv);
                assert(original_evaled_condition@ == oc);
            }
            if ok {
                assert(e1 == e0);
                assert(t.trace.last() == evaled_condition@);
                assert(f.trace.last() == negated(evaled_condition@));
            }
        }
        let stack_states = copy_states(&self.symbolic_store.block_end_states);
        let else_base = self.cur_state.copy();
        let mut if_state = self.cur_state.copy();
        proof {
            lemma_continues_same(e1.cur_state, if_state);
        }
        let then_unreachable = match &evaled_condition {
            SymbolicValue::ConstantBool(b) => !*b,
            _ => false,
        };
        proof {
            assert(then_unreachable == (evaled_condition@ == SpecValue::Bool(false)));
        }
        if !then_unreachable {
            let ghost c0 = if_state;
            if_state.push_trace_constraint(&evaled_condition);
            let ghost c1 = if_state;
            if_state.push_side_constraint(&original_evaled_condition);
            if_state.set_depth(cur_depth + 1);
            proof {
                assert(values_view(c1.trace_constraints@) =~= values_view(c0.trace_constraints@) + seq![evaled_condition@]);
                assert(values_view(c1.side_constraints@) =~= values_view(c0.side_constraints@) + Seq::<SpecValue>::empty());
                lemma_continues_extend(c0, c1, seq![evaled_condition@], Seq::empty());
                assert(values_view(if_state.trace_constraints@) =~= values_view(c1.trace_constraints@) + Seq::<SpecValue>::empty());
                assert(values_view(if_state.side_constraints@) =~= values_view(c1.side_constraints@) + seq![original_evaled_condition@]);
                lemma_continues_extend(c1, if_state, Seq::empty(), seq![original_evaled_condition@]);
                lemma_continues_trans(path_of(e1.cur_state), c0, c1);
                lemma_continues_trans(path_of(e1.cur_state), c1, if_state);
            }
            self.cur_state = if_state;
            proof {
                lemma_progressed_local(e1, *self);
                if ok {
                    assert(path_of(self.cur_state).trace =~= t.trace);
                    assert(path_of(self.cur_state).side =~= t.side);
                    lemma_continues_same(self.cur_state, self.cur_state);
                    assert(new_paths_continue(t, e0, *self));
                }
                if go {
                    assert(frame_of(self.cur_state).trace =~= branch_frame(fr, cv, oc).trace);
                    assert(frame_of(self.cur_state).side =~= branch_frame(fr, cv, oc).side);
                    assert(frame_of(self.cur_state) == branch_frame(fr, cv, oc));
                    assert(context_of(*self) == c);
                    assert(runs_in(c, *self));
                }
            }
            let ghost e2 = *self;
            let one: Vec<&DebugStatement> = vec![if_case];
            proof {
                assert(derefs(one@) =~= seq![*if_case]);
            }
            self.exec_list(&one, 0, fuel - 1);
            let ghost e3 = *self;
            self.expand_all_stack_states(statements, cur_bid + 1, cur_depth, fuel - 1);
            proof {
                lemma_progressed_trans(e2, e3, *self);
                lemma_progressed_trans(e1, e2, *self);
                if ok {
                    lemma_new_paths_step(t, e0, e2, *self);
                }
                assert(go ==> ran(c, e0, *self, a)) by {
                if go {
                    let o1 = run_list(c, ks, pend, branch_frame(fr, cv, oc), seq![*if_case], 0, (fuel - 1) as nat).unwrap();
                    assert(ran(c, e2, e3, o1));
                    let o2 = expand_run(c, o1.kinds, Seq::empty(), o1.ends, stm, cur_bid + 1, fr.depth, o1.cur, (fuel - 1) as nat).unwrap();
                    assert(ran(c, e3, *self, o2));
                    lemma_ran_compose(c, e2, e3, *self, o1, o2);
                }
                }
            }
        }
        let ghost ea = *self;
        proof {
            assert(go ==> ran(c, e0, ea, a)) by {
            if go {
                if then_unreachable {
                    assert(frames_of(ea.symbolic_store.final_states@) =~= frames_of(e0.symbolic_store.final_states@) + a.finals);
                }
                assert(ran(c, e0, ea, a));
            }
            }
        }
        let mut stack_states_if_true = copy_states(&self.symbolic_store.block_end_states);
        self.symbolic_store.block_end_states = stack_states;
        proof {
            assert forall|s0: Path| #[trigger] open_paths_continue(s0, e1) implies {
                &&& open_paths_continue(s0, *self)
                &&& forall|i: int| e1.symbolic_store.final_states@.len() <= i < self.symbolic_store.final_states@.len()
                    ==> continues(s0, #[trigger] self.symbolic_store.final_states@[i])
            } by {
                assert(open_paths_continue(s0, ea));
                assert forall|i: int| 0 <= i < self.symbolic_store.block_end_states@.len()
                    implies continues(s0, #[trigger] self.symbolic_store.block_end_states@[i]) by {
                    lemma_continues_trans(s0, e1.symbolic_store.block_end_states@[i], self.symbolic_store.block_end_states@[i]);
                }
            }
        }
        let ghost eb = *self;
        proof {
            assert(go ==> {
                &&& pending_of(eb) == pend
                &&& frames_of(stack_states_if_true@) == a.ends
                &&& forall|i: int| 0 <= i < eb.symbolic_store.block_end_states@.len() ==> state_in(c, #[trigger] eb.symbolic_store.block_end_states@[i])
                &&& forall|i: int| 0 <= i < stack_states_if_true@.len() ==> state_in(c, #[trigger] stack_states_if_true@[i])
            }) by {
            if go {
                assert(pending_of(eb) == pend);
                assert(frames_of(stack_states_if_true@) == a.ends);
                assert forall|i: int| 0 <= i < eb.symbolic_store.block_end_states@.len()
                    implies state_in(c, #[trigger] eb.symbolic_store.block_end_states@[i]) by {
                    assert(state_in(c, e1.symbolic_store.block_end_states@[i]));
                }
                assert forall|i: int| 0 <= i < stack_states_if_true@.len()
                    implies state_in(c, #[trigger] stack_states_if_true@[i]) by {
                    assert(state_in(c, ea.symbolic_store.block_end_states@[i]));
                }
            }
            }
            if ok && !then_unreachable {
                assert(open_paths_continue(t, ea));
                assert(new_paths_continue(t, e0, eb));
            }
        }
        let neg_evaled_condition = match &evaled_condition {
            SymbolicValue::ConstantBool(v) => SymbolicValue::ConstantBool(!*v),
            _ => SymbolicValue::UnaryOp(
                DebugExpressionPrefixOpcode(ExpressionPrefixOpcode::BoolNot),
                Rc::new(evaled_condition),
            ),
        };
        let original_neg_evaled_condition = match &original_evaled_condition {
            SymbolicValue::ConstantBool(v) => SymbolicValue::ConstantBool(!*v),
            _ => SymbolicValue::UnaryOp(
                DebugExpressionPrefixOpcode(ExpressionPrefixOpcode::BoolNot),
                Rc::new(original_evaled_condition),
            ),
        };
        let else_unreachable = match &neg_evaled_condition {
            SymbolicValue::ConstantBool(b) => !*b,
            _ => false,
        };
        proof {
            assert(neg_evaled_condition@ == negated(evaled_condition@));
            assert(original_neg_evaled_condition@ == negated(original_evaled_condition@));
            assert(else_unreachable == (neg_evaled_condition@ == SpecValue::Bool(false)));
        }
        if !else_unreachable {
            let mut else_state = else_base;
            let ghost c0 = else_state;
            else_state.push_trace_constraint(&neg_evaled_condition);
            let ghost c1 = else_state;
            else_state.push_side_constraint(&original_neg_evaled_condition);
            else_state.set_depth(cur_depth + 1);
            proof {
                lemma_continues_same(e1.cur_state, c0);
                assert(values_view(c1.trace_constraints@) =~= values_view(c0.trace_constraints@) + seq![neg_evaled_condition@]);
                assert(values_view(c1.side_constraints@) =~= values_view(c0.side_constraints@) + Seq::<SpecValue>::empty());
                lemma_continues_extend(c0, c1, seq![neg_evaled_condition@], Seq::empty());
                assert(values_view(else_state.trace_constraints@) =~= values_view(c1.trace_constraints@) + Seq::<SpecValue>::empty());
                assert(values_view(else_state.side_constraints@) =~= values_view(c1.side_constraints@) + seq![original_neg_evaled_condition@]);
                lemma_continues_extend(c1, else_state, Seq::empty(), seq![original_neg_evaled_condition@]);
                lemma_continues_trans(path_of(e1.cur_state), c0, c1);
                lemma_continues_trans(path_of(e1.cur_state), c1, else_state);
            }
            self.cur_state = else_state;
            proof {
                assert forall|s0: Path| #[trigger] open_paths_continue(s0, e1) implies {
                    &&& open_paths_continue(s0, *self)
                    &&& forall|i: int| e1.symbolic_store.final_states@.len() <= i < self.symbolic_store.final_states@.len()
                        ==> continues(s0, #[trigger] self.symbolic_store.final_states@[i])
                } by {
                    assert(open_paths_continue(s0, eb));
                    lemma_continues_trans(s0, e1.cur_state, self.cur_state);
                }
                assert(progressed(e1, *self));
                if ok {
                    assert(path_of(self.cur_state).trace =~= f.trace);
                    assert(path_of(self.cur_state).side =~= f.side);
                    lemma_continues_same(self.cur_state, self.cur_state);
                    assert(new_paths_continue(f, *self, *self));
                }
                if go {
                    let efr = branch_frame(fr, negated(cv), negated(oc));
                    assert(frame_of(self.cur_state).trace =~= efr.trace);
                    assert(frame_of(self.cur_state).side =~= efr.side);
                    assert(frame_of(self.cur_state) == efr);
                    assert(context_of(*self) == c);
                    assert(runs_in(c, *self));
                    assert(kinds_of(*self) == a.kinds);
                }
            }
            let ghost ec = *self;
            match else_case {
                Some(else_stmt) => {
                    let one: Vec<&DebugStatement> = vec![&**else_stmt];
                    proof {
                        assert(derefs(one@) =~= seq![**else_stmt]);
                    }
                    self.exec_list(&one, 0, fuel - 1);
                },
                None => {
                    let st = self.cur_state.copy();
                    self.symbolic_store.block_end_states = vec![st];
                    proof {
                        lemma_continues_same(ec.cur_state, ec.cur_state);
                        lemma_continues_same(ec.cur_state, st);
                        assert(self.symbolic_store.block_end_states@[0] == st);
                        lemma_progressed_step(ec, *self);
                        assert(frames_of(self.symbolic_store.block_end_states@) =~= seq![frame_of(ec.cur_state)]);
                        assert(frames_of(self.symbolic_store.final_states@) =~= frames_of(ec.symbolic_store.final_states@) + Seq::<Frame>::empty());
                    }
                },
            }
            let ghost ed = *self;
            self.expand_all_stack_states(statements, cur_bid + 1, cur_depth, fuel - 1);
            proof {
                lemma_progressed_trans(ec, ed, *self);
                lemma_progressed_trans(e1, ec, *self);
                if ok {
                    lemma_new_paths_step(f, ec, ec, *self);
                }
                assert(go ==> ran(c, ec, *self, b)) by {
                if go {
                    lemma_else_part(c, a.kinds, pend, fr, cv, oc, *else_case, stm, cur_bid as int, fuel as nat);
                    let efr = branch_frame(fr, negated(cv), negated(oc));
                    let first: Outcome = match else_case {
                        Some(es) => run_list(c, a.kinds, pend, efr, seq![**es], 0, (fuel - 1) as nat).unwrap(),
                        None => Outcome { finals: Seq::empty(), ends: seq![efr], kinds: a.kinds, cur: efr },
                    };
                    assert(ran(c, ec, ed, first));
                    let o2 = expand_run(c, first.kinds, Seq::empty(), first.ends, stm, cur_bid + 1, fr.depth, first.cur, (fuel - 1) as nat).unwrap();
                    assert(ran(c, ed, *self, o2));
                    lemma_ran_compose(c, ec, ed, *self, first, o2);
                    assert(ran(c, ec, *self, b));
                }
                }
            }
        }
        let ghost ee = *self;
        let ghost extra = stack_states_if_true@;
        self.symbolic_store.block_end_states.append(&mut stack_states_if_true);
        proof {
            assert forall|s0: Path| #[trigger] open_paths_continue(s0, e1) implies {
                &&& open_paths_continue(s0, *self)
                &&& forall|i: int| e1.symbolic_store.final_states@.len() <= i < self.symbolic_store.final_states@.len()
                    ==> continues(s0, #[trigger] self.symbolic_store.final_states@[i])
            } by {
                assert(open_paths_continue(s0, ea));
                assert(open_paths_continue(s0, ee));
                assert forall|i: int| 0 <= i < self.symbolic_store.block_end_states@.len()
                    implies continues(s0, #[trigger] self.symbolic_store.block_end_states@[i]) by {
                    let n = ee.symbolic_store.block_end_states@.len();
                    if i < n {
                        assert(self.symbolic_store.block_end_states@[i] == ee.symbolic_store.block_end_states@[i]);
                    } else {
                        assert(self.symbolic_store.block_end_states@[i] == extra[i - n]);
                        lemma_continues_trans(s0, ea.symbolic_store.block_end_states@[i - n], extra[i - n]);
                    }
                }
            }
            lemma_progressed_trans(e0, e1, *self);
            assert(ok ==> {
                &&& new_paths_continue_either(t, f, e0, *self)
                &&& t.trace.last() == SpecValue::Bool(false) ==> new_paths_continue(f, e0, *self)
                &&& f.trace.last() == SpecValue::Bool(false) ==> new_paths_continue(t, e0, *self)
            }) by {
            if ok {
                let n = ee.symbolic_store.block_end_states@.len();
                let n0 = e0.symbolic_store.final_states@.len();
                let na = ea.symbolic_store.final_states@.len();
                if !then_unreachable {
                    assert(open_paths_continue(t, ea));
                }
                if else_unreachable {
                    assert(ee == eb);
                }
                assert forall|i: int| 0 <= i < self.symbolic_store.block_end_states@.len()
                    implies continues(t, #[trigger] self.symbolic_store.block_end_states@[i])
                        || continues(f, self.symbolic_store.block_end_states@[i]) by {
                    if i < n {
                        assert(self.symbolic_store.block_end_states@[i] == ee.symbolic_store.block_end_states@[i]);
                        if !else_unreachable {
                            assert(open_paths_continue(f, ee));
                        }
                    } else {
                        assert(self.symbolic_store.block_end_states@[i] == extra[i - n]);
                        lemma_continues_trans(t, ea.symbolic_store.block_end_states@[i - n], extra[i - n]);
                    }
                }
                assert forall|i: int| n0 <= i < self.symbolic_store.final_states@.len()
                    implies continues(t, #[trigger] self.symbolic_store.final_states@[i])
                        || continues(f, self.symbolic_store.final_states@[i]) by {
                    if i < na {
                        assert(self.symbolic_store.final_states@[i] == ea.symbolic_store.final_states@[i]);
                    }
                }
                if !else_unreachable {
                    assert(open_paths_continue(f, ee));
                }
                assert(new_paths_continue_either(t, f, e0, *self));
                if t.trace.last() == SpecValue::Bool(false) {
                    assert forall|i: int| 0 <= i < self.symbolic_store.block_end_states@.len()
                        implies continues(f, #[trigger] self.symbolic_store.block_end_states@[i]) by {
                        assert(self.symbolic_store.block_end_states@[i] == ee.symbolic_store.block_end_states@[i]);
                    }
                    assert(new_paths_continue(f, e0, *self));
                }
                if f.trace.last() == SpecValue::Bool(false) {
                    assert forall|i: int| 0 <= i < self.symbolic_store.block_end_states@.len()
                        implies continues(t, #[trigger] self.symbolic_store.block_end_states@[i]) by {
                        if i < n {
                            assert(self.symbolic_store.block_end_states@[i] == ee.symbolic_store.block_end_states@[i]);
                        } else {
                            assert(self.symbolic_store.block_end_states@[i] == extra[i - n]);
                            lemma_continues_trans(t, ea.symbolic_store.block_end_states@[i - n], extra[i - n]);
                        }
                    }
                    assert(new_paths_continue(t, e0, *self));
                }
            }
            }
        }
        proof {
            assert(go ==> ran(c, e0, *self, if_run(c, ks, pend, fr, *cond, *if_case, *else_case, stm, cur_bid as int, fuel as nat).unwrap())) by {
            if go {
                let nn = ee.symbolic_store.block_end_states@.len();
                assert(frames_of(self.symbolic_store.block_end_states@) =~= frames_of(ee.symbolic_store.block_end_states@) + frames_of(extra));
                assert forall|i: int| 0 <= i < self.symbolic_store.block_end_states@.len()
                    implies state_in(c, #[trigger] self.symbolic_store.block_end_states@[i]) by {
                    if i < nn {
                        assert(self.symbolic_store.block_end_states@[i] == ee.symbolic_store.block_end_states@[i]);
                    } else {
                        assert(self.symbolic_store.block_end_states@[i] == extra[i - nn]);
                    }
                }
                if else_unreachable {
                    assert(ee == eb);
                } else {
                    assert(frames_of(self.symbolic_store.final_states@)
                        =~= frames_of(e0.symbolic_store.final_states@) + (a.finals + b.finals));
                    assert forall|i: int| e0.symbolic_store.final_states@.len() <= i < self.symbolic_store.final_states@.len()
                        implies state_in(c, #[trigger] self.symbolic_store.final_states@[i]) by {
                        if i < ea.symbolic_store.final_states@.len() {
                            assert(self.symbolic_store.final_states@[i] == ea.symbolic_store.final_states@[i]);
                        }
                    }
                }
            }
            }
        }
    }

    /// Records `var_name` among the unrolled outputs of the current template, when `var` is
    /// declared there as an output signal.
    fn track_unrolled_output(&mut self, var: usize, var_name: &SymbolicName)
        requires
            old(self).wf(),
        ensures
            final(self).wf(),
            progressed(*old(self), *final(self)),
            final(self).cur_state == old(self).cur_state,
            final(self).symbolic_store == old(self).symbolic_store,
            final(self).symbolic_library.name2id == old(self).symbolic_library.name2id,
            final(self).symbolic_library.function_library == old(self).symbolic_library.function_library,
            final(self).symbolic_library.function_counter == old(self).symbolic_library.function_counter,
            !declares_output(old(self).symbolic_library.template_library@, old(self).cur_state.template_id, var)
                ==> final(self).symbolic_library.template_library == old(self).symbolic_library.template_library,
            declares_output(old(self).symbolic_library.template_library@, old(self).cur_state.template_id, var) ==> {
                let tid = old(self).cur_state.template_id;
                let (t0, t1) = (old(self).symbolic_library.template_library@[tid], final(self).symbolic_library.template_library@[tid]);
                &&& final(self).symbolic_library.template_library@ == old(self).symbolic_library.template_library@.insert(tid, t1)
                &&& t1.unrolled_outputs@ == t0.unrolled_outputs@.insert(var_name@)
                &&& t1.template_parameter_names == t0.template_parameter_names
                &&& t1.inputs == t0.inputs
                &&& t1.outputs == t0.outputs
                &&& t1.var2type == t0.var2type
                &&& t1.body == t0.body
            },
    {
        let tid = self.cur_state.template_id;
        let is_output = match fx_get(&self.symbolic_library.template_library, tid) {
            Some(t) => match fx_get(&t.var2type, var) {
                Some(ty) => ty.is_output_signal(),
                None => false,
            },
            None => false,
        };
        if is_output {
            match fx_remove(&mut self.symbolic_library.template_library, tid) {
                Some(t) => {
                    let mut t = t;
                    t.unrolled_outputs.insert(var_name.copy());
                    fx_insert(&mut self.symbolic_library.template_library, tid, t);
                },
                None => {},
            }
        }
    }

    /// Gives the input `input` of the component stored under `var_name` the value `value`.
    fn set_component_input(&mut self, var_name: &SymbolicName, input: usize, value: &SymbolicValue)
        requires
            old(self).wf(),
        ensures
            final(self).wf(),
            progressed(*old(self), *final(self)),
            final(self).cur_state == old(self).cur_state,
            final(self).symbolic_library == old(self).symbolic_library,
            final(self).symbolic_store.block_end_states == old(self).symbolic_store.block_end_states,
            final(self).symbolic_store.final_states == old(self).symbolic_store.final_states,
            final(self).symbolic_store.variable_types == old(self).symbolic_store.variable_types,
            final(self).symbolic_store.error == old(self).symbolic_store.error,
            !old(self).symbolic_store.components_store@.contains_key(var_name@)
                ==> final(self).symbolic_store.components_store@ == old(self).symbolic_store.components_store@,
            old(self).symbolic_store.components_store@.contains_key(var_name@) ==> {
                let (c0, c1) = (old(self).symbolic_store.components_store@[var_name@], final(self).symbolic_store.components_store@[var_name@]);
                &&& final(self).symbolic_store.components_store@ == old(self).symbolic_store.components_store@.insert(var_name@, c1)
                &&& c1.template_name == c0.template_name
                &&& c1.args == c0.args
                &&& c1.is_done == c0.is_done
                &&& c1.inputs@ == c0.inputs@.insert(input, c1.inputs@[input])
                &&& c1.inputs@[input] matches Some(v) && v@ == value@
            },
    {
        match self.symbolic_store.components_store.find(var_name) {
            Some(i) => {
                let ghost before = self.symbolic_store.components_store.entries@;
                let (k, c) = self.symbolic_store.components_store.entries.remove(i);
                let mut c = c;
                let v = value.copy();
                let ghost vv = v;
                fx_insert(&mut c.inputs, input, Some(v));
                self.symbolic_store.components_store.entries.insert(i, (k, c));
                proof {
                    assert(self.symbolic_store.components_store.entries@ =~= before.update(i as int, (k, c)));
                    lemma_entries_update(before, i as int, (k, c));
                    assert(c.inputs@[input] == Some(vv));
                }
            },
            None => {},
        }
    }

    /// Runs the template of the component stored under `var_name` in a fresh frame, on
    /// the component's arguments and inputs, and takes over the constraints of its first
    /// final state.
    fn instantiate_component(&mut self, var: usize, var_name: &SymbolicName, fuel: u64)
        requires
            old(self).wf(),
        ensures
            final(self).wf(),
            progressed(*old(self), *final(self)),
            same_frame(*old(self), *final(self)),
            fuel == 0 ==> final(self).symbolic_store.error is Some,
            fuel > 0 && !old(self).symbolic_store.components_store@.contains_key(var_name@) ==> *final(self) == *old(self),
            old(self).symbolic_store.components_store@.contains_key(var_name@) && !component_runnable(*old(self), var_name@)
                ==> final(self).symbolic_store.error is Some,
            ({
                let c = old(self).symbolic_store.components_store@[var_name@];
                let body = old(self).symbolic_library.template_library@[c.template_name].body@;
                component_runnable(*old(self), var_name@) && fuel > 1 && old(self).symbolic_store.error is None
                    && body.len() > 0 && body[0] is Ret
            }) ==> final(self).symbolic_store.error is None && path_of(final(self).cur_state) == path_of(old(self).cur_state),
        decreases fuel, 0u64,
    {
        if fuel == 0 {
            self.fail(ExecutionError::OutOfFuel);
            return;
        }
        let ghost e0 = *self;
        let (tname, args, inputs) = match self.symbolic_store.components_store.get(var_name) {
            Some(c) => {
                let keys = fx_keys(&c.inputs);
                let mut pairs: Vec<(usize, Option<SymbolicValue>)> = Vec::new();
                let mut i: usize = 0;
                while i < keys.len()
                    invariant
                        i <= keys@.len(),
                        pairs@.len() == i,
                        keys@.to_set() == c.inputs@.dom(),
                        forall|t: int| 0 <= t < i ==> (#[trigger] pairs@[t]).0 == keys@[t]
                            && (pairs@[t].1 is None <==> c.inputs@[keys@[t]] is None),
                    decreases keys.len() - i,
                {
                    proof {
                        assert(keys@.to_set().contains(keys@[i as int]));
                    }
                    match fx_get(&c.inputs, keys[i]) {
                        Some(Some(v)) => pairs.push((keys[i], Some(v.copy()))),
                        _ => pairs.push((keys[i], None)),
                    }
                    i = i + 1;
                }
                proof {
                    assert forall|t: int| 0 <= t < pairs@.len() implies c.inputs@.contains_key(#[trigger] pairs@[t].0)
                        && (pairs@[t].1 is None <==> c.inputs@[pairs@[t].0] is None) by {
                        assert(keys@.to_set().contains(keys@[t]));
                    }
                    assert forall|k: usize| #[trigger] c.inputs@.contains_key(k)
                        implies exists|t: int| 0 <= t < pairs@.len() && pairs@[t].0 == k by {
                        assert(keys@.to_set().contains(k));
                        let t = choose|t: int| 0 <= t < keys@.len() && keys@[t] == k;
                        assert(pairs@[t].0 == k);
                    }
                }
                (c.template_name, values_copy(&c.args), pairs)
            },
            None => {
                return;
            },
        };
        let (params, body) = match fx_get(&self.symbolic_library.template_library, tname) {
            Some(t) => {
                let params = t.template_parameter_names.clone();
                proof {
                    assert(params@ =~= t.template_parameter_names@);
                }
                (params, t.body.clone())
            },
            None => {
                self.fail(ExecutionError::UnknownName);
                return;
            },
        };
        let owner = extend_owner(&self.cur_state.owner_name, OwnerName { name: var, counter: 0 });
        let mut frame = SymbolicState::new();
        frame.owner_name = owner.clone();
        frame.set_template_id(tname);
        let mut ok = true;
        let mut i: usize = 0;
        while i < params.len()
            invariant
                i <= params@.len(),
                frame.wf(),
                frame.trace_constraints@.len() == 0,
                frame.side_constraints@.len() == 0,
                ok == (i <= args@.len()),
            decreases params.len() - i,
        {
            if i < args.len() {
                frame.set_rc_symval(plain_name(params[i], &owner), args[i].clone());
            } else {
                ok = false;
            }
            i = i + 1;
        }
        let mut j: usize = 0;
        let ghost ok_params = ok;
        while j < inputs.len()
            invariant
                j <= inputs@.len(),
                frame.wf(),
                frame.trace_constraints@.len() == 0,
                frame.side_constraints@.len() == 0,
                ok == (ok_params && forall|t: int| 0 <= t < j ==> (#[trigger] inputs@[t]).1 is Some),
            decreases inputs.len() - j,
        {
            match &inputs[j].1 {
                Some(v) => frame.set_symval(plain_name(inputs[j].0, &owner), v.copy()),
                None => {
                    ok = false;
                },
            }
            j = j + 1;
        }
        let ghost runs = ({
            let c = e0.symbolic_store.components_store@[var_name@];
            let body0 = e0.symbolic_library.template_library@[c.template_name].body@;
            component_runnable(e0, var_name@) && fuel > 1 && e0.symbolic_store.error is None
                && body0.len() > 0 && body0[0] is Ret
        });
        proof {
            if runs {
                assert forall|t: int| 0 <= t < inputs@.len() implies (#[trigger] inputs@[t]).1 is Some by {
                    assert(e0.symbolic_store.components_store@[var_name@].inputs@.contains_key(inputs@[t].0));
                }
                assert(ok);
            }
            let c = e0.symbolic_store.components_store@[var_name@];
            if !component_runnable(e0, var_name@) && e0.symbolic_library.template_library@.contains_key(c.template_name)
                && params@.len() <= args@.len() {
                let k = choose|k: usize| #[trigger] c.inputs@.contains_key(k) && c.inputs@[k] is None;
                let t = choose|t: int| 0 <= t < inputs@.len() && inputs@[t].0 == k;
                assert(inputs@[t].1 is None);
                assert(!ok);
            }
        }
        let result: Result<(Vec<Rc<SymbolicValue>>, Vec<Rc<SymbolicValue>>), ExecutionError> = if !ok {
            Err(ExecutionError::IndexOutOfRange)
        } else {
            match self.run_in_fresh_frame(&body, frame, fuel - 1) {
                Err(e) => Err(e),
                Ok(fs) => Ok((values_copy(&fs.trace_constraints), values_copy(&fs.side_constraints))),
            }
        };
        proof {
            if runs {
                assert(result matches Ok((t, s)) && t@.len() == 0 && s@.len() == 0);
            }
        }
        proof {
            lemma_continues_same(e0.cur_state, self.cur_state);
            lemma_progressed_local(e0, *self);
        }
        let ghost ex = *self;
        match result {
            Ok((t, s)) => {
                let mut t = t;
                let mut s = s;
                let ghost (t0, s0) = (t@, s@);
                self.cur_state.trace_constraints.append(&mut t);
                self.cur_state.side_constraints.append(&mut s);
                proof {
                    assert(values_view(self.cur_state.trace_constraints@) =~= values_view(ex.cur_state.trace_constraints@) + values_view(t0));
                    assert(values_view(self.cur_state.side_constraints@) =~= values_view(ex.cur_state.side_constraints@) + values_view(s0));
                    lemma_continues_extend(ex.cur_state, self.cur_state, values_view(t0), values_view(s0));
                    lemma_progressed_local(ex, *self);
                    lemma_progressed_trans(e0, ex, *self);
                    if runs {
                        assert(path_of(self.cur_state).trace =~= path_of(e0.cur_state).trace);
                        assert(path_of(self.cur_state).side =~= path_of(e0.cur_state).side);
                    }
                }
            },
            Err(e) => {
                self.fail(e);
                proof {
                    lemma_progressed_trans(e0, ex, *self);
                }
            },
        }
    }

    /// Executes a substitution `var[access] op rhe`: stores the folded value, feeds
    /// components, runs components whose inputs are all given, records new components, and
    /// adds the trace constraint (and, for `<==`, the side constraint) of a signal.
    fn exec_substitution(
        &mut self,
        var: usize,
        access: &Vec<DebugAccess>,
        op: DebugAssignOp,
        rhe: &DebugExpression,
        fuel: u64,
    )
        requires
            old(self).wf(),
        ensures
            final(self).wf(),
            progressed(*old(self), *final(self)),
            substitution_path(*old(self), var, access@, op.0, *rhe, fuel as nat) matches Some(q) ==> {
                &&& path_of(final(self).cur_state) == q
                &&& final(self).symbolic_store.block_end_states == old(self).symbolic_store.block_end_states
                &&& final(self).symbolic_store.final_states == old(self).symbolic_store.final_states
            },
            substitution_frame(context_of(*old(self)), kinds_of(*old(self)), frame_of(old(self).cur_state),
                var, access@, op.0, *rhe, fuel as nat) matches Some(f2) ==> ready_to_run(*old(self)) ==> {
                &&& final(self).symbolic_store.error is None
                &&& final(self).symbolic_library.function_counter == old(self).symbolic_library.function_counter
                &&& frame_of(final(self).cur_state) == f2
                &&& runs_in(context_of(*old(self)), *final(self))
                &&& final(self).symbolic_store.block_end_states == old(self).symbolic_store.block_end_states
                &&& final(self).symbolic_store.final_states == old(self).symbolic_store.final_states
                &&& final(self).symbolic_store.variable_types == old(self).symbolic_store.variable_types
            },
        decreases fuel, 0u64,
    {
        if fuel == 0 {
            self.fail(ExecutionError::OutOfFuel);
            return;
        }
        let ghost e0 = *self;
        let expr = match self.evaluate_expression(rhe, fuel - 1) {
            Some(v) => v,
            None => {
                return;
            },
        };
        let ghost ea = *self;
        let (original_value, value) = match (
            self.fold_variables(&expr, true),
            self.fold_variables(&expr, !self.setting.propagate_assignments),
        ) {
            (Some(a), Some(b)) => (a, b),
            _ => {
                self.fail(ExecutionError::FoldFailed);
                return;
            },
        };
        let ghost (ov_g, val_g) = (original_value@, value@);
        let ghost eb = *self;
        let mut evaluated_access: Vec<SymbolicAccess> = Vec::new();
        let mut i: usize = 0;
        while i < access.len()
            invariant
                i <= access@.len(),
                self.wf(),
                e0 == *old(self),
                progressed(e0, *self),
                evaluated_access@.len() == i,
                i == 0 ==> *self == eb,
                fuel > 0,
            decreases access.len() - i,
        {
            let ghost x = *self;
            let step = self.evaluate_access(&access[i], fuel - 1);
            proof {
                lemma_progressed_trans(e0, x, *self);
            }
            match step {
                Some(a) => evaluated_access.push(a),
                None => {
                    return;
                },
            }
            i = i + 1;
        }
        let var_name = SymbolicName {
            name: var,
            owner: self.cur_state.owner_name.clone(),
            access: evaluated_access,
        };
        proof {
            if access@.len() == 0 {
                assert(var_name@.access =~= Seq::<crate::symbolic_value::SpecAccess>::empty());
            }
        }
        let ghost vn = var_name@;
        if self.setting.keep_track_constraints {
            let ghost x = *self;
            self.track_unrolled_output(var, &var_name);
            proof {
                lemma_progressed_trans(e0, x, *self);
            }
        }
        let ghost e1 = *self;
        self.cur_state.set_symval(var_name.copy(), value.copy());
        proof {
            lemma_continues_same(e1.cur_state, self.cur_state);
            lemma_progressed_local(e1, *self);
            lemma_progressed_trans(e0, e1, *self);
        }
        if access.len() > 0 {
            let mut k: usize = 0;
            while k < access.len()
                invariant
                    k <= access@.len(),
                    self.wf(),
                    e0 == *old(self),
                    progressed(e0, *self),
                decreases access.len() - k,
            {
                match &access[k] {
                    DebugAccess::ComponentAccess(tmp_name) => {
                        let ghost x = *self;
                        self.set_component_input(&var_name, *tmp_name, &value);
                        proof {
                            lemma_progressed_trans(e0, x, *self);
                        }
                    },
                    _ => {},
                }
                k = k + 1;
            }
            if self.is_ready(&var_name) {
                let done = match self.symbolic_store.components_store.get(&var_name) {
                    Some(c) => c.is_done,
                    None => true,
                };
                if !done {
                    let ghost x = *self;
                    self.instantiate_component(var, &var_name, fuel - 1);
                    proof {
                        lemma_progressed_trans(e0, x, *self);
                    }
                }
            }
        }
        let ghost e2 = *self;
        match &value {
            SymbolicValue::Call(callee_name, args) => {
                let template_inputs = match fx_get(&self.symbolic_library.template_library, *callee_name) {
                    Some(t) => Some(t.inputs.clone()),
                    None => None,
                };
                match template_inputs {
                    Some(ids) => {
                        let mut comp_inputs: FxHashMap<usize, Option<SymbolicValue>> = fx_new();
                        let mut j: usize = 0;
                        while j < ids.len()
                            invariant
                                j <= ids@.len(),
                            decreases ids.len() - j,
                        {
                            fx_insert(&mut comp_inputs, ids[j], None);
                            j = j + 1;
                        }
                        let c = SymbolicComponent {
                            template_name: *callee_name,
                            args: values_copy(args),
                            inputs: comp_inputs,
                            is_done: false,
                        };
                        self.symbolic_store.components_store.insert(var_name.copy(), c);
                        proof {
                            lemma_continues_same(e2.cur_state, self.cur_state);
                            lemma_progressed_local(e2, *self);
                            lemma_progressed_trans(e0, e2, *self);
                        }
                    },
                    None => {},
                }
            },
            _ => {
                let is_var = match fx_get(&self.symbolic_store.variable_types, var) {
                    Some(t) => Some(t.0.is_var()),
                    None => None,
                };
                match is_var {
                    Some(false) => {
                        let ghost before_push = self.cur_state;
                        let lhs = SymbolicValue::Variable(var_name.copy());
                        let rhs = value.copy();
                        proof {
                            assert(lhs@ == SpecValue::Var(vn));
                            assert(rhs@ == val_g);
                        }
                        let cont = SymbolicValue::BinaryOp(
                            Rc::new(lhs),
                            DebugExpressionInfixOpcode(ExpressionInfixOpcode::Eq),
                            Rc::new(rhs),
                        );
                        let ghost cv = cont@;
                        proof {
                            assert(cv == SpecValue::BinaryOp(Box::new(SpecValue::Var(vn)), ExpressionInfixOpcode::Eq, Box::new(val_g)));
                        }
                        self.cur_state.push_trace_constraint(&cont);
                        let ghost after_trace = self.cur_state;
                        proof {
                            assert(values_view(self.cur_state.trace_constraints@) =~= values_view(e2.cur_state.trace_constraints@) + seq![cont@]);
                            assert(values_view(self.cur_state.side_constraints@) =~= values_view(e2.cur_state.side_constraints@) + Seq::<SpecValue>::empty());
                            lemma_continues_extend(e2.cur_state, self.cur_state, seq![cont@], Seq::empty());
                        }
                        if op.0 == AssignOp::AssignConstraintSignal {
                            let original_lhs = SymbolicValue::Variable(var_name);
                            proof {
                                assert(original_lhs@ == SpecValue::Var(vn));
                            }
                            let original_cont = SymbolicValue::BinaryOp(
                                Rc::new(original_lhs),
                                DebugExpressionInfixOpcode(ExpressionInfixOpcode::Eq),
                                Rc::new(original_value),
                            );
                            let ghost e3 = self.cur_state;
                            proof {
                                assert(original_cont@ == SpecValue::BinaryOp(Box::new(SpecValue::Var(vn)), ExpressionInfixOpcode::Eq, Box::new(ov_g)));
                            }
                            self.cur_state.push_side_constraint(&original_cont);
                            proof {
                                assert(values_view(self.cur_state.trace_constraints@) =~= values_view(e3.trace_constraints@) + Seq::<SpecValue>::empty());
                                assert(values_view(self.cur_state.side_constraints@) =~= values_view(e3.side_constraints@) + seq![original_cont@]);
                                lemma_continues_extend(e3, self.cur_state, Seq::empty(), seq![original_cont@]);
                                lemma_continues_trans(path_of(e2.cur_state), e3, self.cur_state);
                            }
                        }
                        proof {
                            lemma_progressed_local(e2, *self);
                            lemma_progressed_trans(e0, e2, *self);
                            if substitution_path(e0, var, access@, op.0, *rhe, fuel as nat) is Some {
                                let q = substitution_path(e0, var, access@, op.0, *rhe, fuel as nat).unwrap();
                                let v = operator_value(*rhe, e0.cur_state.owner_name@).unwrap();
                                assert(ea == e0);
                                assert(expr@ == v);
                                assert(Some(val_g) == e0.spec_fold_here(v, !e0.setting.propagate_assignments));
                                assert(Some(ov_g) == e0.spec_fold_here(v, true));
                                assert(vn == SpecName { name: var, owner: e0.cur_state.owner_name@, access: Seq::empty() });
                                assert(path_of(before_push) == path_of(e0.cur_state));
                                assert(path_of(after_trace).trace =~= path_of(e0.cur_state).trace.push(cv));
                                assert(path_of(self.cur_state).trace =~= q.trace);
                                assert(path_of(self.cur_state).side =~= q.side);
                            }
                        }
                    },
                    Some(true) => {},
                    None => {
                        self.fail(ExecutionError::UnknownName);
                        proof {
                            lemma_progressed_trans(e0, e2, *self);
                        }
                    },
                }
            },
        }
    }
}

impl<'a> SymbolicExecutor<'a> {
    /// Executes `statements` from index `cur_bid` on, on the current state. Each path that
    /// reaches a `Ret` adds its state to the final states; a path that runs off the end of
    /// the list adds it to the block-end states. Where execution cannot go on, the reason is
    /// recorded in the store's `error`, and nothing runs once one is recorded. Execution only
    /// adds constraints: where the pending block-end states continue the current state (as
    /// when there are none), every path it leaves open and every final state it adds begins
    /// with the current state's trace and side constraints. An assertion, a constraint
    /// equality or a substitution of a signal at `cur_bid`, over operators on numbers and
    /// plain variables, adds its folded condition or equality (`statement_path`) to every path
    /// after it, where no block-end state is pending. Code made of declarations,
    /// substitutions of plain names, equalities, assertions and returns over operators,
    /// blocks, branches, loops and `Ret` runs exactly as `run_list` says: the final states it adds,
    /// the block-end states it leaves, their variables and constraints. A branch takes its
    /// else path from the state before the branch.
    pub fn execute(&mut self, statements: &Vec<DebugStatement>, cur_bid: usize)
        requires
            old(self).wf(),
        ensures
            final(self).wf(),
            progressed(*old(self), *final(self)),
            old(self).symbolic_store.error is Some ==> *final(self) == *old(self),
            old(self).symbolic_store.error is None && cur_bid >= statements@.len() ==> {
                &&& final(self).symbolic_store.final_states@ == old(self).symbolic_store.final_states@
                &&& final(self).symbolic_store.block_end_states@.len() == old(self).symbolic_store.block_end_states@.len() + 1
                &&& final(self).symbolic_store.block_end_states@.drop_last() == old(self).symbolic_store.block_end_states@
                &&& final(self).symbolic_store.block_end_states@.last().values@ == old(self).cur_state.values@
                &&& path_of(final(self).symbolic_store.block_end_states@.last()) == path_of(old(self).cur_state)
                &&& final(self).symbolic_store.block_end_states@.last().owner_name@ == old(self).cur_state.owner_name@
                &&& final(self).symbolic_store.block_end_states@.last().template_id == old(self).cur_state.template_id
                &&& final(self).symbolic_store.block_end_states@.last().depth == old(self).cur_state.depth
                &&& final(self).cur_state == old(self).cur_state
                &&& final(self).symbolic_library == old(self).symbolic_library
                &&& final(self).symbolic_store.components_store == old(self).symbolic_store.components_store
                &&& final(self).symbolic_store.variable_types == old(self).symbolic_store.variable_types
                &&& final(self).symbolic_store.max_depth == old(self).symbolic_store.max_depth
                &&& final(self).symbolic_store.error is None
            },
            old(self).symbolic_store.error is None && cur_bid < statements@.len()
                && (statements@[cur_bid as int] is Ret) ==> records_path(*old(self), *final(self)),
            (forall|i: int| 0 <= i < old(self).symbolic_store.block_end_states@.len()
                ==> continues(path_of(old(self).cur_state), #[trigger] old(self).symbolic_store.block_end_states@[i])) ==> {
                &&& continues(path_of(old(self).cur_state), final(self).cur_state)
                &&& forall|i: int| 0 <= i < final(self).symbolic_store.block_end_states@.len()
                    ==> continues(path_of(old(self).cur_state), #[trigger] final(self).symbolic_store.block_end_states@[i])
                &&& forall|i: int| old(self).symbolic_store.final_states@.len() <= i < final(self).symbolic_store.final_states@.len()
                    ==> continues(path_of(old(self).cur_state), #[trigger] final(self).symbolic_store.final_states@[i])
            },
            statement_path(*old(self), statements@[cur_bid as int], u64::MAX as nat) matches Some(q)
                ==> (cur_bid < statements@.len() && old(self).symbolic_store.error is None
                && old(self).symbolic_store.block_end_states@.len() == 0 ==> new_paths_continue(q, *old(self), *final(self))),
            run_list(context_of(*old(self)), kinds_of(*old(self)), pending_of(*old(self)), frame_of(old(self).cur_state),
                statements@, cur_bid as int, u64::MAX as nat) matches Some(o)
                ==> (ready_to_run(*old(self)) ==> ran(context_of(*old(self)), *old(self), *final(self), o)),
    {
        let refs = statement_refs(statements);
        proof {
            assert(derefs(refs@) =~= statements@);
        }
        self.exec_list(&refs, cur_bid, u64::MAX);
        proof {
            lemma_continues_same(old(self).cur_state, old(self).cur_state);
            if forall|i: int| 0 <= i < old(self).symbolic_store.block_end_states@.len()
                ==> continues(path_of(old(self).cur_state), #[trigger] old(self).symbolic_store.block_end_states@[i]) {
                assert(open_paths_continue(path_of(old(self).cur_state), *old(self)));
            }
        }
    }

    /// Binds each parameter name of `names` to the value of the expression at the same
    /// place in `args` (as far as the shorter list goes), in the current state. Names are
    /// looked up in the name table as it is on entry; an unknown name records
    /// `UnknownName` and binds nothing. Where every argument is made of operators on numbers
    /// and plain variables, the bindings are exactly their values, in order
    /// (`bound_arguments`).
    pub fn feed_arguments(&mut self, names: &Vec<String>, args: &Vec<DebugExpression>)
        requires
            old(self).wf(),
        ensures
            final(self).wf(),
            progressed(*old(self), *final(self)),
            (exists|i: int| 0 <= i < names@.len() && i < args@.len()
                && !name_ids(old(self).symbolic_library.name2id).contains_key(#[trigger] names@[i]@))
                ==> final(self).symbolic_store.error is Some,
            final(self).symbolic_store.error is None ==> forall|i: int| 0 <= i < names@.len() && i < args@.len()
                ==> #[trigger] final(self).cur_state.values@.contains_key(SpecName {
                    name: name_ids(old(self).symbolic_library.name2id)[names@[i]@],
                    owner: old(self).cur_state.owner_name@,
                    access: Seq::empty(),
                }),
            operator_arguments(names@, args@, old(self).cur_state.owner_name@)
                && (forall|i: int| 0 <= i < names@.len() && i < args@.len()
                    ==> name_ids(old(self).symbolic_library.name2id).contains_key(#[trigger] names@[i]@))
                ==> final(self).cur_state.values@ == bound_arguments(
                    old(self).cur_state.values@,
                    name_ids(old(self).symbolic_library.name2id),
                    names@,
                    args@,
                    old(self).cur_state.owner_name@,
                    if names@.len() < args@.len() { names@.len() } else { args@.len() },
                ),
            operator_arguments(names@, args@, old(self).cur_state.owner_name@)
                && (forall|i: int| 0 <= i < names@.len() && i < args@.len()
                    ==> name_ids(old(self).symbolic_library.name2id).contains_key(#[trigger] names@[i]@))
                ==> {
                &&& final(self).symbolic_store == old(self).symbolic_store
                &&& final(self).symbolic_library == old(self).symbolic_library
                &&& final(self).setting == old(self).setting
                &&& final(self).cur_state.owner_name == old(self).cur_state.owner_name
                &&& final(self).cur_state.template_id == old(self).cur_state.template_id
                &&& final(self).cur_state.depth == old(self).cur_state.depth
                &&& final(self).cur_state.trace_constraints == old(self).cur_state.trace_constraints
                &&& final(self).cur_state.side_constraints == old(self).cur_state.side_constraints
            },
    {
        let n: usize = if names.len() < args.len() { names.len() } else { args.len() };
        let ghost table = name_ids(self.symbolic_library.name2id);
        let mut ids: Vec<usize> = Vec::new();
        let mut i: usize = 0;
        while i < n
            invariant
                i <= n,
                n <= names@.len(),
                n <= args@.len(),
                n == names@.len() || n == args@.len(),
                ids@.len() == i,
                *self == *old(self),
                self.wf(),
                table == name_ids(self.symbolic_library.name2id),
                forall|j: int| 0 <= j < i ==> #[trigger] resolves(table, names@[j]@, ids@[j]),
            decreases n - i,
        {
            let found = fx_name_get(&self.symbolic_library.name2id, names[i].as_str());
            if found.is_none() {
                self.fail(ExecutionError::UnknownName);
                return;
            }
            let id: usize = found.unwrap();
            let ghost before = ids@;
            ids.push(id);
            proof {
                assert forall|j: int| 0 <= j <= i implies #[trigger] resolves(table, names@[j]@, ids@[j]) by {
                    if j < i {
                        assert(ids@[j] == before[j]);
                        assert(resolves(table, names@[j]@, before[j]));
                    }
                }
            }
            i = i + 1;
        }
        assert(forall|j: int| 0 <= j < names@.len() && j < args@.len() ==> table.contains_key(#[trigger] names@[j]@)) by {
            assert forall|j: int| 0 <= j < names@.len() && j < args@.len() implies table.contains_key(#[trigger] names@[j]@) by {
                assert(resolves(table, names@[j]@, ids@[j]));
            }
        }
        let ghost owner = self.cur_state.owner_name@;
        let mut k: usize = 0;
        while k < n
            invariant
                k <= n,
                n <= names@.len(),
                n <= args@.len(),
                n == names@.len() || n == args@.len(),
                ids@.len() == n,
                self.wf(),
                progressed(*old(self), *self),
                owner == old(self).cur_state.owner_name@,
                self.cur_state.owner_name@ == owner,
                forall|j: int| 0 <= j < n ==> #[trigger] resolves(table, names@[j]@, ids@[j]),
                table == name_ids(old(self).symbolic_library.name2id),
                operator_arguments(names@, args@, owner) ==> {
                    &&& self.cur_state.values@ == bound_arguments(old(self).cur_state.values@, table, names@, args@, owner, k as nat)
                    &&& self.symbolic_store == old(self).symbolic_store
                    &&& self.symbolic_library == old(self).symbolic_library
                    &&& self.setting == old(self).setting
                    &&& self.cur_state.template_id == old(self).cur_state.template_id
                    &&& self.cur_state.owner_name == old(self).cur_state.owner_name
                    &&& self.cur_state.depth == old(self).cur_state.depth
                    &&& self.cur_state.trace_constraints == old(self).cur_state.trace_constraints
                    &&& self.cur_state.side_constraints == old(self).cur_state.side_constraints
                },
                self.symbolic_store.error is None ==> forall|j: int| 0 <= j < k
                    ==> #[trigger] self.cur_state.values@.contains_key(SpecName { name: ids@[j], owner: owner, access: Seq::empty() }),
            decreases n - k,
        {
            let ghost x = *self;
            proof {
                if operator_arguments(names@, args@, owner) {
                    assert(operator_value(args@[k as int], owner) is Some && operator_depth(args@[k as int]) <= u64::MAX);
                }
            }
            let v = match self.evaluate_expression(&args[k], u64::MAX) {
                Some(v) => v,
                None => {
                    return;
                },
            };
            let nm = plain_name(ids[k], &self.cur_state.owner_name);
            let ghost before = self.cur_state.values@;
            self.cur_state.set_symval(nm, v);
            proof {
                if operator_arguments(names@, args@, owner) {
                    assert(resolves(table, names@[k as int]@, ids@[k as int]));
                    assert(*self == SymbolicExecutor { cur_state: self.cur_state, ..x });
                    assert(self.cur_state.values@ == bound_arguments(old(self).cur_state.values@, table, names@, args@, owner, (k + 1) as nat));
                }
            }
            proof {
                assert forall|j: int| 0 <= j <= k && self.symbolic_store.error is None implies
                    #[trigger] self.cur_state.values@.contains_key(SpecName { name: ids@[j], owner: owner, access: Seq::empty() }) by {
                    if j < k {
                        assert(before.contains_key(SpecName { name: ids@[j], owner: owner, access: Seq::empty() }));
                    }
                }
            }
            k = k + 1;
        }
        proof {
            if self.symbolic_store.error is None {
                assert forall|i: int| 0 <= i < names@.len() && i < args@.len() implies
                    #[trigger] self.cur_state.values@.contains_key(SpecName { name: table[names@[i]@], owner: owner, access: Seq::empty() }) by {
                    assert(resolves(table, names@[i]@, ids@[i]));
                    assert(self.cur_state.values@.contains_key(SpecName { name: ids@[i], owner: owner, access: Seq::empty() }));
                }
            }
        }
    }

    /// Runs the template named `id` on the concrete values of `assignment`: the current
    /// state takes the template and the assigned constants, then the template's body is
    /// executed from its start. An unknown template name records `UnknownName`. Each final
    /// state that the run adds begins with the constraints of the current state on entry,
    /// where the pending block-end states do (as when there are none).
    pub fn concrete_execute(&mut self, id: &String, assignment: &NameMap<BigNum>, off_trace: bool)
        requires
            old(self).wf(),
        ensures
            final(self).wf(),
            progressed(*old(self), *final(self)),
            !name_ids(old(self).symbolic_library.name2id).contains_key(id@) ==> final(self).symbolic_store.error is Some,
            name_ids(old(self).symbolic_library.name2id).contains_key(id@)
                && !old(self).symbolic_library.template_library@.contains_key(name_ids(old(self).symbolic_library.name2id)[id@])
                ==> final(self).symbolic_store.error is Some,
            ({
                let tid = name_ids(old(self).symbolic_library.name2id)[id@];
                let c = template_context(*old(self), tid);
                name_ids(old(self).symbolic_library.name2id).contains_key(id@)
                    && old(self).symbolic_library.template_library@.contains_key(tid)
                    && old(self).symbolic_store.error is None
                    && (forall|i: int| 0 <= i < old(self).symbolic_store.block_end_states@.len()
                        ==> state_in(c, #[trigger] old(self).symbolic_store.block_end_states@[i]))
                    ==> (run_list(c, kinds_of(*old(self)), pending_of(*old(self)), assigned_frame(*old(self), assignment.entries@),
                        old(self).symbolic_library.template_library@[tid].body@, 0, u64::MAX as nat) matches Some(o)
                        ==> ran(c, *old(self), *final(self), o))
            }),
            (forall|i: int| 0 <= i < old(self).symbolic_store.block_end_states@.len()
                ==> continues(path_of(old(self).cur_state), #[trigger] old(self).symbolic_store.block_end_states@[i]))
                ==> forall|i: int| old(self).symbolic_store.final_states@.len() <= i < final(self).symbolic_store.final_states@.len()
                    ==> continues(path_of(old(self).cur_state), #[trigger] final(self).symbolic_store.final_states@[i]),
    {
        proof {
            lemma_continues_same(old(self).cur_state, old(self).cur_state);
            if forall|i: int| 0 <= i < old(self).symbolic_store.block_end_states@.len()
                ==> continues(path_of(old(self).cur_state), #[trigger] old(self).symbolic_store.block_end_states@[i]) {
                assert(open_paths_continue(path_of(old(self).cur_state), *old(self)));
            }
        }
        let tid = match fx_name_get(&self.symbolic_library.name2id, id.as_str()) {
            Some(t) => t,
            None => {
                self.fail(ExecutionError::UnknownName);
                return;
            },
        };
        let ghost e0 = *old(self);
        self.cur_state.set_template_id(tid);
        let mut i: usize = 0;
        proof {
            assert(assignment.entries@.take(0) =~= Seq::<(SymbolicName, BigNum)>::empty());
        }
        while i < assignment.entries.len()
            invariant
                i <= assignment.entries@.len(),
                self.wf(),
                progressed(*old(self), *self),
                e0 == *old(self),
                tid == name_ids(e0.symbolic_library.name2id)[id@],
                self.cur_state.values@ == assigned_values(e0.cur_state.values@, assignment.entries@.take(i as int)),
                self.cur_state.template_id == tid,
                self.cur_state.owner_name == e0.cur_state.owner_name,
                self.cur_state.depth == e0.cur_state.depth,
                self.cur_state.trace_constraints == e0.cur_state.trace_constraints,
                self.cur_state.side_constraints == e0.cur_state.side_constraints,
                self.symbolic_store == e0.symbolic_store,
                self.symbolic_library == e0.symbolic_library,
                self.setting == e0.setting,
            decreases assignment.entries.len() - i,
        {
            let (vname, value) = &assignment.entries[i];
            proof {
                assert(assignment.entries@.take(i + 1).drop_last() =~= assignment.entries@.take(i as int));
            }
            self.cur_state.set_symval(vname.copy(), SymbolicValue::ConstantInt(value.copy()));
            i = i + 1;
        }
        proof {
            assert(assignment.entries@.take(assignment.entries@.len() as int) =~= assignment.entries@);
        }
        let body = match fx_get(&self.symbolic_library.template_library, tid) {
            Some(t) => t.body.clone(),
            None => {
                self.fail(ExecutionError::UnknownName);
                return;
            },
        };
        let ghost e2 = *self;
        proof {
            assert(body@ == e0.symbolic_library.template_library@[tid].body@);
            assert(context_of(e2) == template_context(e0, tid));
            assert(frame_of(e2.cur_state) == assigned_frame(e0, assignment.entries@));
        }
        self.execute(&body, 0);
    }
}

} // verus!
