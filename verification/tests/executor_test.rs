use rand::rngs::StdRng;
use rand::SeedableRng;
use rustc_hash::FxHashMap;
use std::rc::Rc;

use tcct::ast::{
    AssignOp, DebugAssignOp, DebugExpression, DebugExpressionInfixOpcode, DebugStatement, ExpressionInfixOpcode, Meta,
    SignalType, VariableType,
};
use tcct::bignum::BigNum;
use tcct::executor::symbolic_setting::{
    get_default_setting_for_concrete_execution, get_default_setting_for_symbolic_execution,
};
use tcct::name_map::{NameMap, NameSet};
use tcct::solver::brute_force::brute_force_search;
use tcct::solver::genetic_algorithm::genetic_algorithm_search;
use tcct::solver::utils::{verify_assignment, VerificationResult, VerificationSetting};
use tcct::symbolic_execution::{ExecutionError, SymbolicExecutor, SymbolicState};
use tcct::symbolic_library::{SymbolicLibrary, SymbolicTemplate};
use tcct::symbolic_value::{OwnerName, SymbolicName, SymbolicValue};

fn meta() -> Meta {
    Meta { elem_id: 0 }
}

fn number(v: i64) -> DebugExpression {
    DebugExpression::Number(meta(), BigNum::from_i64(v))
}

fn variable(n: usize) -> DebugExpression {
    DebugExpression::Variable { meta: meta(), name: n, access: vec![] }
}

fn infix(l: DebugExpression, o: ExpressionInfixOpcode, r: DebugExpression) -> DebugExpression {
    DebugExpression::InfixOp { meta: meta(), lhe: Box::new(l), infix_op: DebugExpressionInfixOpcode(o), rhe: Box::new(r) }
}

fn declare(n: usize, xtype: VariableType) -> DebugStatement {
    DebugStatement::Declaration { meta: meta(), xtype, name: n, dimensions: vec![], is_constant: false }
}

fn substitute(n: usize, op: AssignOp, rhe: DebugExpression) -> DebugStatement {
    DebugStatement::Substitution { meta: meta(), var: n, access: vec![], op: DebugAssignOp(op), rhe }
}

fn plain(n: usize) -> SymbolicName {
    SymbolicName { name: n, owner: Rc::new(vec![]), access: vec![] }
}

fn owned(n: usize, owner: usize) -> SymbolicName {
    SymbolicName { name: n, owner: Rc::new(vec![OwnerName { name: owner, counter: 0 }]), access: vec![] }
}

fn konst(v: i64) -> SymbolicValue {
    SymbolicValue::ConstantInt(BigNum::from_i64(v))
}

fn eq(l: SymbolicValue, r: SymbolicValue) -> Rc<SymbolicValue> {
    Rc::new(SymbolicValue::BinaryOp(Rc::new(l), DebugExpressionInfixOpcode(ExpressionInfixOpcode::Eq), Rc::new(r)))
}

fn empty_library() -> SymbolicLibrary {
    SymbolicLibrary {
        template_library: FxHashMap::default(),
        name2id: FxHashMap::default(),
        id2name: FxHashMap::default(),
        function_library: FxHashMap::default(),
        function_counter: FxHashMap::default(),
    }
}

fn template(outputs: Vec<usize>, body: Vec<DebugStatement>) -> SymbolicTemplate {
    SymbolicTemplate {
        template_parameter_names: vec![],
        inputs: vec![],
        outputs,
        unrolled_outputs: NameSet::new(),
        var2type: FxHashMap::default(),
        body: Rc::new(body),
    }
}

#[test]
fn state_records_values_and_constraints() {
    let mut st = SymbolicState::new();
    st.set_symval(plain(1), konst(3));
    assert_eq!(**st.get_symval(&plain(1)).unwrap(), konst(3));
    assert!(st.get_symval(&plain(2)).is_none());
    st.push_trace_constraint(&konst(1));
    st.push_side_constraint(&konst(2));
    st.set_depth(4);
    st.add_owner(&OwnerName { name: 9, counter: 1 });
    let copy = st.copy();
    assert_eq!(copy.get_depth(), 4);
    assert_eq!(copy.trace_constraints.len(), 1);
    assert_eq!(copy.side_constraints.len(), 1);
    assert_eq!(copy.owner_name.len(), 1);
    assert_eq!(**copy.get_symval(&plain(1)).unwrap(), konst(3));
}

#[test]
fn assignments_of_variables_are_stored() {
    let mut lib = empty_library();
    let setting = get_default_setting_for_symbolic_execution(BigNum::from_i64(17));
    let mut sexe = SymbolicExecutor::new(&mut lib, &setting);
    let body = vec![
        declare(1, VariableType::Var),
        substitute(1, AssignOp::AssignVar, infix(number(20), ExpressionInfixOpcode::Add, number(1))),
        DebugStatement::Ret,
    ];
    sexe.execute(&body, 0);
    assert!(sexe.symbolic_store.error.is_none());
    assert_eq!(sexe.symbolic_store.final_states.len(), 1);
    let fs = &sexe.symbolic_store.final_states[0];
    assert_eq!(**fs.get_symval(&plain(1)).unwrap(), konst(4));
    assert_eq!(fs.trace_constraints.len(), 0);
}

#[test]
fn signal_assignment_adds_trace_and_side_constraints() {
    let mut lib = empty_library();
    let setting = get_default_setting_for_symbolic_execution(BigNum::from_i64(17));
    let mut sexe = SymbolicExecutor::new(&mut lib, &setting);
    let body = vec![
        declare(2, VariableType::Signal(SignalType::Output, vec![])),
        substitute(2, AssignOp::AssignConstraintSignal, infix(number(3), ExpressionInfixOpcode::Add, number(4))),
        DebugStatement::Ret,
    ];
    sexe.execute(&body, 0);
    assert_eq!(sexe.symbolic_store.final_states.len(), 1);
    let fs = &sexe.symbolic_store.final_states[0];
    assert_eq!(fs.trace_constraints.len(), 1);
    assert_eq!(fs.side_constraints.len(), 1);
    assert_eq!(*fs.trace_constraints[0], *eq(SymbolicValue::Variable(plain(2)), konst(7)));
    assert_eq!(*fs.side_constraints[0], *eq(SymbolicValue::Variable(plain(2)), konst(7)));
}

#[test]
fn symbolic_branch_forks_two_paths() {
    let mut lib = empty_library();
    let setting = get_default_setting_for_symbolic_execution(BigNum::from_i64(17));
    let mut sexe = SymbolicExecutor::new(&mut lib, &setting);
    let body = vec![
        DebugStatement::IfThenElse {
            meta: meta(),
            cond: infix(variable(1), ExpressionInfixOpcode::Lesser, number(3)),
            if_case: Box::new(DebugStatement::Ret),
            else_case: None,
        },
        DebugStatement::Ret,
    ];
    sexe.execute(&body, 0);
    assert!(sexe.symbolic_store.error.is_none());
    assert_eq!(sexe.symbolic_store.final_states.len(), 2);
    // The path of the `then` branch holds the condition; the `else` path starts from the
    // state before the branch, so it holds only the negation.
    let fs = &sexe.symbolic_store.final_states;
    assert_eq!(fs[0].trace_constraints.len(), 1);
    assert_eq!(fs[0].side_constraints.len(), 1);
    assert_eq!(fs[1].trace_constraints.len(), 1);
    assert_eq!(fs[1].side_constraints.len(), 1);
    assert_eq!(sexe.symbolic_store.max_depth, 1);
}

#[test]
fn constant_branch_takes_one_path() {
    let mut lib = empty_library();
    let setting = get_default_setting_for_symbolic_execution(BigNum::from_i64(17));
    let mut sexe = SymbolicExecutor::new(&mut lib, &setting);
    let body = vec![
        DebugStatement::IfThenElse {
            meta: meta(),
            cond: infix(number(1), ExpressionInfixOpcode::Lesser, number(3)),
            if_case: Box::new(DebugStatement::Ret),
            else_case: None,
        },
        DebugStatement::Ret,
    ];
    sexe.execute(&body, 0);
    assert_eq!(sexe.symbolic_store.final_states.len(), 1);
}

#[test]
fn loop_runs_until_its_condition_fails() {
    let mut lib = empty_library();
    let setting = get_default_setting_for_symbolic_execution(BigNum::from_i64(17));
    let mut sexe = SymbolicExecutor::new(&mut lib, &setting);
    let body = vec![
        declare(1, VariableType::Var),
        substitute(1, AssignOp::AssignVar, number(0)),
        DebugStatement::While {
            meta: meta(),
            cond: infix(variable(1), ExpressionInfixOpcode::Lesser, number(2)),
            stmt: Box::new(substitute(1, AssignOp::AssignVar, infix(variable(1), ExpressionInfixOpcode::Add, number(1)))),
        },
        DebugStatement::Ret,
    ];
    sexe.execute(&body, 0);
    assert!(sexe.symbolic_store.error.is_none());
    assert_eq!(sexe.symbolic_store.final_states.len(), 1);
    assert_eq!(**sexe.symbolic_store.final_states[0].get_symval(&plain(1)).unwrap(), konst(2));
}

#[test]
fn constraint_equality_adds_both_constraints() {
    let mut lib = empty_library();
    let setting = get_default_setting_for_symbolic_execution(BigNum::from_i64(17));
    let mut sexe = SymbolicExecutor::new(&mut lib, &setting);
    let body = vec![
        DebugStatement::ConstraintEquality { meta: meta(), lhe: variable(1), rhe: number(5) },
        DebugStatement::Assert { meta: meta(), arg: infix(variable(1), ExpressionInfixOpcode::Eq, number(5)) },
        DebugStatement::Ret,
    ];
    sexe.execute(&body, 0);
    let fs = &sexe.symbolic_store.final_states[0];
    assert_eq!(fs.trace_constraints.len(), 2);
    assert_eq!(fs.side_constraints.len(), 1);
}

#[test]
fn unsupported_loop_condition_is_reported() {
    let mut lib = empty_library();
    let setting = get_default_setting_for_symbolic_execution(BigNum::from_i64(17));
    let mut sexe = SymbolicExecutor::new(&mut lib, &setting);
    let body = vec![
        DebugStatement::While {
            meta: meta(),
            cond: infix(variable(1), ExpressionInfixOpcode::Lesser, number(2)),
            stmt: Box::new(DebugStatement::Ret),
        },
        DebugStatement::Ret,
    ];
    sexe.execute(&body, 0);
    assert_eq!(sexe.symbolic_store.error, Some(ExecutionError::UnsupportedWhileCondition));
    assert_eq!(sexe.symbolic_store.final_states.len(), 0);
}

#[test]
fn failed_folding_is_reported() {
    let mut lib = empty_library();
    let setting = get_default_setting_for_symbolic_execution(BigNum::from_i64(17));
    let mut sexe = SymbolicExecutor::new(&mut lib, &setting);
    let body = vec![
        DebugStatement::Assert { meta: meta(), arg: infix(number(1), ExpressionInfixOpcode::IntDiv, number(0)) },
        DebugStatement::Ret,
    ];
    sexe.execute(&body, 0);
    assert_eq!(sexe.symbolic_store.error, Some(ExecutionError::FoldFailed));
}

#[test]
fn undeclared_signal_is_reported() {
    let mut lib = empty_library();
    let setting = get_default_setting_for_symbolic_execution(BigNum::from_i64(17));
    let mut sexe = SymbolicExecutor::new(&mut lib, &setting);
    let body = vec![substitute(3, AssignOp::AssignVar, number(1)), DebugStatement::Ret];
    sexe.execute(&body, 0);
    assert_eq!(sexe.symbolic_store.error, Some(ExecutionError::UnknownName));
    assert_eq!(sexe.symbolic_store.final_states.len(), 0);
}

#[test]
fn arguments_are_fed_by_name() {
    let mut lib = empty_library();
    lib.name2id.insert("a".to_string(), 7);
    let setting = get_default_setting_for_symbolic_execution(BigNum::from_i64(17));
    let mut sexe = SymbolicExecutor::new(&mut lib, &setting);
    sexe.feed_arguments(&vec!["a".to_string()], &vec![number(9)]);
    assert!(sexe.symbolic_store.error.is_none());
    assert_eq!(**sexe.cur_state.get_symval(&plain(7)).unwrap(), konst(9));
    sexe.feed_arguments(&vec!["b".to_string()], &vec![number(1)]);
    assert_eq!(sexe.symbolic_store.error, Some(ExecutionError::UnknownName));
}

#[test]
fn concrete_execution_runs_the_named_template() {
    let mut lib = empty_library();
    lib.name2id.insert("T".to_string(), 5);
    lib.template_library.insert(5, template(vec![], vec![DebugStatement::Ret]));
    let setting = get_default_setting_for_concrete_execution(BigNum::from_i64(17));
    let mut sexe = SymbolicExecutor::new(&mut lib, &setting);
    let mut asg = NameMap::new();
    asg.insert(plain(1), BigNum::from_i64(3));
    sexe.concrete_execute(&"T".to_string(), &asg, true);
    assert_eq!(sexe.symbolic_store.final_states.len(), 1);
    assert_eq!(sexe.symbolic_store.final_states[0].template_id, 5);
    assert_eq!(**sexe.symbolic_store.final_states[0].get_symval(&plain(1)).unwrap(), konst(3));
    sexe.clear();
    sexe.concrete_execute(&"U".to_string(), &asg, true);
    assert_eq!(sexe.symbolic_store.error, Some(ExecutionError::UnknownName));
}

fn verification_library() -> SymbolicLibrary {
    let mut lib = empty_library();
    lib.name2id.insert("main".to_string(), 100);
    lib.name2id.insert("T".to_string(), 5);
    let body = vec![
        declare(2, VariableType::Signal(SignalType::Output, vec![])),
        substitute(2, AssignOp::AssignConstraintSignal, number(2)),
        DebugStatement::Ret,
    ];
    lib.template_library.insert(5, template(vec![2], body));
    lib
}

fn verification_setting(quick: bool, heuristics: bool, prime: i64, range: i64) -> VerificationSetting {
    VerificationSetting {
        id: "T".to_string(),
        prime: BigNum::from_i64(prime),
        range: BigNum::from_i64(range),
        quick_mode: quick,
        heuristics_mode: heuristics,
        progress_interval: 1,
        template_param_names: vec![],
        template_param_values: vec![],
    }
}

#[test]
fn verdicts_of_single_assignments() {
    let mut lib = verification_library();
    let setting = get_default_setting_for_concrete_execution(BigNum::from_i64(17));
    let mut sexe = SymbolicExecutor::new(&mut lib, &setting);
    let vs = verification_setting(false, false, 17, 0);
    let out = || SymbolicValue::Variable(owned(2, 100));
    let trace = vec![eq(out(), konst(5))];
    let side = vec![eq(out(), konst(3))];
    let asg = |v: i64| {
        let mut m = NameMap::new();
        m.insert(owned(2, 100), BigNum::from_i64(v));
        m
    };
    // The side constraints accept 3, the program does not, and running it gives 2.
    assert_eq!(verify_assignment(&mut sexe, &trace, &side, &asg(3), &vs), VerificationResult::UnderConstrained);
    // The program accepts 5, the side constraints do not.
    assert_eq!(verify_assignment(&mut sexe, &trace, &side, &asg(5), &vs), VerificationResult::OverConstrained);
    // Both reject 1.
    assert_eq!(verify_assignment(&mut sexe, &trace, &side, &asg(1), &vs), VerificationResult::WellConstrained);
}

#[test]
fn brute_force_finds_an_over_constrained_assignment() {
    let mut lib = verification_library();
    let setting = get_default_setting_for_concrete_execution(BigNum::from_i64(17));
    let mut sexe = SymbolicExecutor::new(&mut lib, &setting);
    let x = || SymbolicValue::Variable(plain(1));
    let trace = vec![eq(x(), x())];
    let side = vec![eq(x(), konst(1))];
    let ce = brute_force_search(&mut sexe, &trace, &side, &verification_setting(true, false, 17, 0)).unwrap();
    assert_eq!(ce.flag, VerificationResult::OverConstrained);
    assert_eq!(ce.assignment.get(&plain(1)), Some(&BigNum::from_i64(0)));

    let side_full = vec![eq(x(), konst(3))];
    let ce = brute_force_search(&mut sexe, &trace, &side_full, &verification_setting(false, false, 5, 0)).unwrap();
    assert_eq!(ce.assignment.get(&plain(1)), Some(&BigNum::from_i64(0)));

    let side_zero = vec![eq(x(), konst(0))];
    let ce = brute_force_search(&mut sexe, &trace, &side_zero, &verification_setting(false, true, 17, 1)).unwrap();
    assert_eq!(ce.flag, VerificationResult::OverConstrained);
    assert_eq!(ce.assignment.get(&plain(1)), Some(&BigNum::from_i64(-1)));
}

#[test]
fn brute_force_reports_nothing_when_constraints_agree() {
    let mut lib = verification_library();
    let setting = get_default_setting_for_concrete_execution(BigNum::from_i64(17));
    let mut sexe = SymbolicExecutor::new(&mut lib, &setting);
    let x = || SymbolicValue::Variable(plain(1));
    let trace = vec![eq(x(), konst(1))];
    let side = vec![eq(x(), konst(1))];
    assert!(brute_force_search(&mut sexe, &trace, &side, &verification_setting(true, false, 17, 0)).is_none());
    assert!(brute_force_search(&mut sexe, &trace, &side, &verification_setting(false, false, 7, 0)).is_none());
}

#[test]
fn function_calls_return_their_value() {
    let mut lib = empty_library();
    lib.name2id.insert("g".to_string(), 7);
    lib.id2name.insert(7, "g".to_string());
    lib.function_library.insert(
        7,
        tcct::symbolic_library::SymbolicFunction {
            function_argument_names: vec![8],
            body: Rc::new(vec![
                DebugStatement::Return { meta: meta(), value: infix(variable(8), ExpressionInfixOpcode::Add, number(1)) },
                DebugStatement::Ret,
            ]),
        },
    );
    lib.function_counter.insert(7, 0);
    let setting = get_default_setting_for_symbolic_execution(BigNum::from_i64(17));
    let mut sexe = SymbolicExecutor::new(&mut lib, &setting);
    let body = vec![
        declare(1, VariableType::Var),
        substitute(1, AssignOp::AssignVar, DebugExpression::Call { meta: meta(), id: 7, args: vec![number(2)] }),
        DebugStatement::Ret,
    ];
    sexe.execute(&body, 0);
    assert!(sexe.symbolic_store.error.is_none());
    assert_eq!(**sexe.symbolic_store.final_states[0].get_symval(&plain(1)).unwrap(), konst(3));
    assert_eq!(sexe.symbolic_library.name2id.get("__return__"), Some(&usize::MAX));
    assert_eq!(sexe.symbolic_library.id2name.get(&usize::MAX).map(|s| s.as_str()), Some("__return__"));
    // The call was counted.
    assert_eq!(sexe.symbolic_library.function_counter.get(&7), Some(&1));
}

#[test]
fn assigned_outputs_are_recorded_in_the_template() {
    let mut lib = empty_library();
    let mut t = template(vec![2], vec![]);
    t.var2type.insert(2, VariableType::Signal(SignalType::Output, vec![]));
    lib.template_library.insert(5, t);
    let setting = get_default_setting_for_symbolic_execution(BigNum::from_i64(17));
    let mut sexe = SymbolicExecutor::new(&mut lib, &setting);
    sexe.cur_state.set_template_id(5);
    let body = vec![
        declare(2, VariableType::Signal(SignalType::Output, vec![])),
        substitute(2, AssignOp::AssignConstraintSignal, number(1)),
        DebugStatement::Ret,
    ];
    sexe.execute(&body, 0);
    assert!(sexe.symbolic_store.error.is_none());
    let t = sexe.symbolic_library.template_library.get(&5).unwrap();
    assert!(t.unrolled_outputs.contains(&plain(2)));
    assert_eq!(t.unrolled_outputs.items.len(), 1);
}

#[test]
fn component_inputs_go_by_the_accessed_name() {
    // The component is stored under `c`, while its input is given through `c.a`, a name of
    // another meaning: the component is not fed and not run, and the assignment is kept as a
    // trace constraint.
    let mut lib = empty_library();
    let mut sub = template(vec![3], vec![DebugStatement::Ret]);
    sub.inputs = vec![4];
    lib.template_library.insert(9, sub);
    let setting = get_default_setting_for_symbolic_execution(BigNum::from_i64(17));
    let mut sexe = SymbolicExecutor::new(&mut lib, &setting);
    let body = vec![
        declare(1, VariableType::Component),
        substitute(1, AssignOp::AssignVar, DebugExpression::Call { meta: meta(), id: 9, args: vec![] }),
        DebugStatement::Substitution {
            meta: meta(),
            var: 1,
            access: vec![tcct::ast::DebugAccess::ComponentAccess(4)],
            op: DebugAssignOp(AssignOp::AssignConstraintSignal),
            rhe: number(5),
        },
        DebugStatement::Ret,
    ];
    sexe.execute(&body, 0);
    assert!(sexe.symbolic_store.error.is_none());
    assert_eq!(sexe.symbolic_store.components_store.len(), 1);
    let c = sexe.symbolic_store.components_store.get(&plain(1)).unwrap();
    assert_eq!(c.template_name, 9);
    assert!(c.inputs.get(&4).unwrap().is_none());
    let fs = &sexe.symbolic_store.final_states[0];
    assert_eq!(fs.trace_constraints.len(), 1);
    assert_eq!(fs.side_constraints.len(), 1);
}

fn function_library(body: Vec<DebugStatement>, params: Vec<usize>, counter: usize) -> SymbolicLibrary {
    let mut lib = empty_library();
    lib.function_library.insert(
        7,
        tcct::symbolic_library::SymbolicFunction { function_argument_names: params, body: Rc::new(body) },
    );
    lib.function_counter.insert(7, counter);
    lib
}

fn run_call(lib: &mut SymbolicLibrary, args: Vec<DebugExpression>) -> Option<ExecutionError> {
    let setting = get_default_setting_for_symbolic_execution(BigNum::from_i64(17));
    let mut sexe = SymbolicExecutor::new(lib, &setting);
    let body = vec![
        declare(1, VariableType::Var),
        substitute(1, AssignOp::AssignVar, DebugExpression::Call { meta: meta(), id: 7, args }),
        DebugStatement::Ret,
    ];
    sexe.execute(&body, 0);
    sexe.symbolic_store.error
}

#[test]
fn failing_calls_are_reported() {
    let ret_one = vec![DebugStatement::Return { meta: meta(), value: number(1) }, DebugStatement::Ret];
    // A function whose body ends on no path.
    let mut lib = function_library(vec![DebugStatement::Return { meta: meta(), value: number(1) }], vec![], 0);
    assert_eq!(run_call(&mut lib, vec![]), Some(ExecutionError::MissingCalleeState));
    // A function that returns nothing.
    let mut lib = function_library(vec![DebugStatement::Ret], vec![], 0);
    assert_eq!(run_call(&mut lib, vec![]), Some(ExecutionError::MissingReturnValue));
    // A function given fewer arguments than it takes.
    let mut lib = function_library(ret_one, vec![8], 0);
    assert_eq!(run_call(&mut lib, vec![]), Some(ExecutionError::IndexOutOfRange));
    // A function whose instance counter is exhausted.
    let ret_one = vec![DebugStatement::Return { meta: meta(), value: number(1) }, DebugStatement::Ret];
    let mut lib = function_library(ret_one, vec![], usize::MAX);
    assert_eq!(run_call(&mut lib, vec![]), Some(ExecutionError::CounterOverflow));
}

#[test]
fn out_of_range_index_is_reported() {
    let mut lib = empty_library();
    let setting = get_default_setting_for_symbolic_execution(BigNum::from_i64(17));
    let mut sexe = SymbolicExecutor::new(&mut lib, &setting);
    let indexed = |i: i64| DebugExpression::Variable {
        meta: meta(),
        name: 1,
        access: vec![tcct::ast::DebugAccess::ArrayAccess(number(i))],
    };
    let body = vec![
        declare(1, VariableType::Var),
        substitute(1, AssignOp::AssignVar, DebugExpression::ArrayInLine { meta: meta(), values: vec![number(4), number(6)] }),
        DebugStatement::Assert { meta: meta(), arg: infix(indexed(1), ExpressionInfixOpcode::Eq, number(6)) },
        DebugStatement::Ret,
    ];
    sexe.execute(&body, 0);
    assert!(sexe.symbolic_store.error.is_none());
    let fs = &sexe.symbolic_store.final_states[0];
    assert_eq!(*fs.trace_constraints[0], SymbolicValue::ConstantBool(true));

    sexe.clear();
    let body = vec![
        declare(1, VariableType::Var),
        substitute(1, AssignOp::AssignVar, DebugExpression::ArrayInLine { meta: meta(), values: vec![number(4), number(6)] }),
        DebugStatement::Assert { meta: meta(), arg: infix(indexed(5), ExpressionInfixOpcode::Eq, number(6)) },
        DebugStatement::Ret,
    ];
    sexe.execute(&body, 0);
    assert_eq!(sexe.symbolic_store.error, Some(ExecutionError::IndexOutOfRange));
}

#[test]
fn bus_calls_are_not_handled() {
    let mut lib = empty_library();
    let setting = get_default_setting_for_symbolic_execution(BigNum::from_i64(17));
    let mut sexe = SymbolicExecutor::new(&mut lib, &setting);
    let body = vec![
        DebugStatement::Assert { meta: meta(), arg: DebugExpression::BusCall { meta: meta(), id: 3, args: vec![] } },
        DebugStatement::Ret,
    ];
    sexe.execute(&body, 0);
    assert_eq!(sexe.symbolic_store.error, Some(ExecutionError::UnhandledExpression));
}

#[test]
fn every_path_keeps_the_constraints_it_started_with() {
    let mut lib = empty_library();
    let setting = get_default_setting_for_symbolic_execution(BigNum::from_i64(17));
    let mut sexe = SymbolicExecutor::new(&mut lib, &setting);
    let start_trace = eq(SymbolicValue::Variable(plain(5)), konst(1));
    let start_side = eq(SymbolicValue::Variable(plain(6)), konst(2));
    sexe.cur_state.push_trace_constraint(&start_trace);
    sexe.cur_state.push_side_constraint(&start_side);
    let body = vec![
        declare(2, VariableType::Signal(SignalType::Output, vec![])),
        DebugStatement::IfThenElse {
            meta: meta(),
            cond: infix(variable(1), ExpressionInfixOpcode::Lesser, number(3)),
            if_case: Box::new(substitute(2, AssignOp::AssignConstraintSignal, number(4))),
            else_case: Some(Box::new(substitute(2, AssignOp::AssignConstraintSignal, number(5)))),
        },
        DebugStatement::Ret,
    ];
    sexe.execute(&body, 0);
    assert!(sexe.symbolic_store.error.is_none());
    assert_eq!(sexe.symbolic_store.final_states.len(), 2);
    for fs in &sexe.symbolic_store.final_states {
        assert!(fs.trace_constraints.len() > 1);
        assert!(fs.side_constraints.len() > 1);
        assert_eq!(*fs.trace_constraints[0], *start_trace);
        assert_eq!(*fs.side_constraints[0], *start_side);
    }
}

#[test]
fn assertions_and_constraints_reach_every_later_path() {
    let mut lib = empty_library();
    let setting = get_default_setting_for_symbolic_execution(BigNum::from_i64(17));
    let mut sexe = SymbolicExecutor::new(&mut lib, &setting);
    let body = vec![
        DebugStatement::Assert { meta: meta(), arg: infix(variable(1), ExpressionInfixOpcode::Lesser, number(3)) },
        DebugStatement::IfThenElse {
            meta: meta(),
            cond: infix(variable(2), ExpressionInfixOpcode::Eq, number(0)),
            if_case: Box::new(DebugStatement::Ret),
            else_case: None,
        },
        DebugStatement::Ret,
    ];
    sexe.execute(&body, 0);
    assert!(sexe.symbolic_store.error.is_none());
    assert_eq!(sexe.symbolic_store.final_states.len(), 2);
    let asserted = SymbolicValue::BinaryOp(
        Rc::new(SymbolicValue::Variable(plain(1))),
        DebugExpressionInfixOpcode(ExpressionInfixOpcode::Lesser),
        Rc::new(konst(3)),
    );
    for fs in &sexe.symbolic_store.final_states {
        assert_eq!(*fs.trace_constraints[0], asserted);
        assert_eq!(fs.side_constraints.len(), fs.trace_constraints.len() - 1);
    }
}

#[test]
fn arguments_bind_their_operator_values_in_order() {
    let mut lib = empty_library();
    lib.name2id.insert("a".to_string(), 7);
    lib.name2id.insert("b".to_string(), 8);
    let setting = get_default_setting_for_symbolic_execution(BigNum::from_i64(17));
    let mut sexe = SymbolicExecutor::new(&mut lib, &setting);
    let names = vec!["a".to_string(), "b".to_string(), "a".to_string()];
    let args = vec![number(1), infix(variable(3), ExpressionInfixOpcode::Add, number(2)), number(5)];
    sexe.feed_arguments(&names, &args);
    assert!(sexe.symbolic_store.error.is_none());
    assert_eq!(**sexe.cur_state.get_symval(&plain(7)).unwrap(), konst(5));
    let sum = SymbolicValue::BinaryOp(
        Rc::new(SymbolicValue::Variable(plain(3))),
        DebugExpressionInfixOpcode(ExpressionInfixOpcode::Add),
        Rc::new(konst(2)),
    );
    assert_eq!(**sexe.cur_state.get_symval(&plain(8)).unwrap(), sum);
}

#[test]
fn genetic_search_finds_an_over_constrained_assignment() {
    let mut lib = verification_library();
    let setting = get_default_setting_for_concrete_execution(BigNum::from_i64(17));
    let mut sexe = SymbolicExecutor::new(&mut lib, &setting);
    let x = || SymbolicValue::Variable(plain(1));
    let trace = vec![eq(x(), x())];
    let side = vec![eq(x(), konst(5))];
    let mut rng = StdRng::seed_from_u64(3);
    let ce = genetic_algorithm_search(&mut sexe, &trace, &side, &verification_setting(false, false, 17, 0), &mut rng).unwrap();
    assert_eq!(ce.flag, VerificationResult::OverConstrained);
    assert_eq!(ce.assignment.entries.len(), 1);
    let v = ce.assignment.get(&plain(1)).unwrap();
    assert!([-2i64, -1, 0, 1].iter().any(|c| *v == BigNum::from_i64(*c)));
}

#[test]
fn genetic_search_gives_up_when_the_constraints_agree() {
    let mut lib = verification_library();
    let setting = get_default_setting_for_concrete_execution(BigNum::from_i64(17));
    let mut sexe = SymbolicExecutor::new(&mut lib, &setting);
    let x = || SymbolicValue::Variable(plain(1));
    let trace = vec![eq(x(), x())];
    let side = vec![eq(x(), x())];
    let mut rng = StdRng::seed_from_u64(4);
    assert!(genetic_algorithm_search(&mut sexe, &trace, &side, &verification_setting(false, false, 17, 0), &mut rng).is_none());
}

#[test]
fn names_are_interned_once_in_order() {
    let mut lib = empty_library();
    assert_eq!(lib.intern("main"), 0);
    assert_eq!(lib.intern("x"), 1);
    assert_eq!(lib.intern("main"), 0);
    assert_eq!(lib.intern("y"), 2);
    assert_eq!(lib.name2id.len(), 3);
    assert_eq!(lib.id2name.get(&1), Some(&"x".to_string()));
    assert_eq!(lib.name2id.get("y"), Some(&2));
}

fn library_with_x() -> SymbolicLibrary {
    let mut lib = empty_library();
    lib.name2id.insert("x".to_string(), 0);
    lib.id2name.insert(0, "x".to_string());
    lib
}

fn quiet_setting() -> tcct::executor::symbolic_setting::SymbolicExecutorSetting {
    tcct::executor::symbolic_setting::SymbolicExecutorSetting {
        prime: BigNum::from_i64(17),
        only_initialization_blocks: false,
        skip_initialization_blocks: false,
        off_trace: true,
        keep_track_constraints: false,
        substitute_output: false,
        propagate_assignments: false,
    }
}

#[test]
fn assign_signal_adds_no_side_constraint() {
    let mut lib = library_with_x();
    let setting = quiet_setting();
    let mut s = SymbolicExecutor::new(&mut lib, &setting);
    let stmts = vec![
        declare(0, VariableType::Signal(SignalType::Output, vec![])),
        substitute(0, AssignOp::AssignSignal, number(5)),
        DebugStatement::Ret,
    ];
    s.execute(&stmts, 0);
    assert_eq!(s.symbolic_store.final_states.len(), 1);
    let fs = &s.symbolic_store.final_states[0];
    assert_eq!(fs.trace_constraints.len(), 1);
    assert_eq!(*fs.trace_constraints[0], *eq(SymbolicValue::Variable(plain(0)), konst(5)));
    assert_eq!(fs.side_constraints.len(), 0);
    assert_eq!(**fs.get_symval(&plain(0)).unwrap(), konst(5));
}

#[test]
fn constrain_signal_adds_both_constraints() {
    let mut lib = library_with_x();
    let setting = quiet_setting();
    let mut s = SymbolicExecutor::new(&mut lib, &setting);
    let stmts = vec![
        declare(0, VariableType::Signal(SignalType::Output, vec![])),
        substitute(0, AssignOp::AssignConstraintSignal, number(5)),
        DebugStatement::Ret,
    ];
    s.execute(&stmts, 0);
    assert_eq!(s.symbolic_store.final_states.len(), 1);
    let fs = &s.symbolic_store.final_states[0];
    let c = eq(SymbolicValue::Variable(plain(0)), konst(5));
    assert_eq!(fs.trace_constraints.len(), 1);
    assert_eq!(*fs.trace_constraints[0], *c);
    assert_eq!(fs.side_constraints.len(), 1);
    assert_eq!(*fs.side_constraints[0], *c);
}

#[test]
fn branch_on_false_runs_only_the_else_path() {
    let mut lib = empty_library();
    let setting = quiet_setting();
    let mut s = SymbolicExecutor::new(&mut lib, &setting);
    let stmts = vec![
        DebugStatement::IfThenElse {
            meta: meta(),
            cond: infix(number(1), ExpressionInfixOpcode::Eq, number(2)),
            if_case: Box::new(DebugStatement::ConstraintEquality { meta: meta(), lhe: number(1), rhe: number(1) }),
            else_case: None,
        },
        DebugStatement::Ret,
    ];
    s.execute(&stmts, 0);
    assert_eq!(s.symbolic_store.final_states.len(), 1);
    let fs = &s.symbolic_store.final_states[0];
    assert_eq!(fs.trace_constraints.len(), 1);
    assert_eq!(*fs.trace_constraints[0], SymbolicValue::ConstantBool(true));
    assert_eq!(fs.side_constraints.len(), 1);
    assert_eq!(*fs.side_constraints[0], SymbolicValue::ConstantBool(true));
}

#[test]
fn else_path_starts_from_the_state_before_the_branch() {
    let mut lib = library_with_x();
    let setting = quiet_setting();
    let mut s = SymbolicExecutor::new(&mut lib, &setting);
    let stmts = vec![
        DebugStatement::IfThenElse {
            meta: meta(),
            cond: infix(variable(0), ExpressionInfixOpcode::Eq, number(0)),
            if_case: Box::new(DebugStatement::Block { meta: meta(), stmts: vec![] }),
            else_case: None,
        },
        DebugStatement::Ret,
    ];
    s.execute(&stmts, 0);
    let c = eq(SymbolicValue::Variable(plain(0)), konst(0));
    let not_c = SymbolicValue::UnaryOp(
        tcct::ast::DebugExpressionPrefixOpcode(tcct::ast::ExpressionPrefixOpcode::BoolNot),
        c.clone(),
    );
    assert_eq!(s.symbolic_store.final_states.len(), 2);
    assert_eq!(s.symbolic_store.final_states[0].trace_constraints.len(), 1);
    assert_eq!(*s.symbolic_store.final_states[0].trace_constraints[0], *c);
    assert_eq!(s.symbolic_store.final_states[1].trace_constraints.len(), 1);
    assert_eq!(*s.symbolic_store.final_states[1].trace_constraints[0], not_c);
}

#[test]
fn constraint_equality_adds_one_final_state() {
    let mut lib = empty_library();
    let setting = quiet_setting();
    let mut s = SymbolicExecutor::new(&mut lib, &setting);
    let stmts = vec![
        DebugStatement::ConstraintEquality { meta: meta(), lhe: number(3), rhe: infix(number(1), ExpressionInfixOpcode::Add, number(2)) },
        DebugStatement::Ret,
    ];
    s.execute(&stmts, 0);
    assert_eq!(s.symbolic_store.final_states.len(), 1);
    let fs = &s.symbolic_store.final_states[0];
    assert_eq!(fs.trace_constraints.len(), 1);
    assert_eq!(fs.side_constraints.len(), 1);
    assert_eq!(*fs.trace_constraints[0], *fs.side_constraints[0]);
}

#[test]
fn running_past_the_end_leaves_a_block_end_state() {
    let mut lib = empty_library();
    let setting = quiet_setting();
    let mut s = SymbolicExecutor::new(&mut lib, &setting);
    s.cur_state.push_trace_constraint(&konst(1));
    let stmts: Vec<DebugStatement> = vec![];
    s.execute(&stmts, 0);
    assert_eq!(s.symbolic_store.final_states.len(), 0);
    assert_eq!(s.symbolic_store.block_end_states.len(), 1);
    assert_eq!(s.symbolic_store.block_end_states[0].trace_constraints.len(), 1);
    assert_eq!(s.cur_state.trace_constraints.len(), 1);
}

#[test]
fn brute_force_runs_side_only_assignments_concretely() {
    let mut lib = verification_library();
    let setting = get_default_setting_for_concrete_execution(BigNum::from_i64(5));
    let mut sexe = SymbolicExecutor::new(&mut lib, &setting);
    let out = || SymbolicValue::Variable(owned(2, 100));
    // The trace never holds; the side holds only at 2, where the program computes 2 too.
    let trace = vec![eq(out(), konst(2)), eq(out(), konst(3))];
    let side_agrees = vec![eq(out(), konst(2))];
    assert!(brute_force_search(&mut sexe, &trace, &side_agrees, &verification_setting(false, false, 5, 0)).is_none());
    // The side holds only at 3, where the program computes 2.
    let side_disagrees = vec![eq(out(), konst(3))];
    let ce = brute_force_search(&mut sexe, &trace, &side_disagrees, &verification_setting(false, false, 5, 0)).unwrap();
    assert_eq!(ce.flag, VerificationResult::UnderConstrained);
    assert_eq!(ce.assignment.get(&owned(2, 100)), Some(&BigNum::from_i64(3)));
}
