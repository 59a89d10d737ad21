use std::rc::Rc;

use tcct::ast::{DebugExpressionInfixOpcode, DebugExpressionPrefixOpcode, ExpressionInfixOpcode, ExpressionPrefixOpcode};
use tcct::bignum::BigNum;
use tcct::name_map::{NameMap, NameSet};
use tcct::solver::utils::{
    count_satisfied_constraints, emulate_symbolic_values, evaluate_constraints, evaluate_symbolic_value,
    extract_variables, get_dependency_graph, is_contain_key, is_vulnerable, outputs_differ, VerificationResult,
};
use tcct::symbolic_value::{SymbolicName, SymbolicValue};

fn name(n: usize) -> SymbolicName {
    SymbolicName { name: n, owner: Rc::new(vec![]), access: vec![] }
}

fn var(n: usize) -> SymbolicValue {
    SymbolicValue::Variable(name(n))
}

fn konst(v: i64) -> SymbolicValue {
    SymbolicValue::ConstantInt(BigNum::from_i64(v))
}

fn bin(l: SymbolicValue, o: ExpressionInfixOpcode, r: SymbolicValue) -> SymbolicValue {
    SymbolicValue::BinaryOp(Rc::new(l), DebugExpressionInfixOpcode(o), Rc::new(r))
}

fn assignment(pairs: &[(usize, i64)]) -> NameMap<BigNum> {
    let mut m = NameMap::new();
    for (n, v) in pairs {
        m.insert(name(*n), BigNum::from_i64(*v));
    }
    m
}

#[test]
fn vulnerable_results() {
    assert!(is_vulnerable(&VerificationResult::UnderConstrained));
    assert!(is_vulnerable(&VerificationResult::OverConstrained));
    assert!(!is_vulnerable(&VerificationResult::WellConstrained));
}

#[test]
fn evaluation_under_an_assignment() {
    let prime = BigNum::from_i64(17);
    let asg = assignment(&[(1, 5), (2, 9)]);
    let v = bin(var(1), ExpressionInfixOpcode::Mul, var(2));
    assert_eq!(evaluate_symbolic_value(&prime, &v, &asg), konst(11)); // 45 mod 17
    let neg = SymbolicValue::UnaryOp(DebugExpressionPrefixOpcode(ExpressionPrefixOpcode::Sub), Rc::new(var(1)));
    assert_eq!(evaluate_symbolic_value(&prime, &neg, &asg), konst(-5));
    let not = SymbolicValue::UnaryOp(
        DebugExpressionPrefixOpcode(ExpressionPrefixOpcode::BoolNot),
        Rc::new(bin(var(1), ExpressionInfixOpcode::Eq, konst(5))),
    );
    assert_eq!(evaluate_symbolic_value(&prime, &not, &asg), SymbolicValue::ConstantBool(false));
    let assign = SymbolicValue::Assign(Rc::new(var(1)), Rc::new(konst(22)));
    assert_eq!(evaluate_symbolic_value(&prime, &assign, &asg), SymbolicValue::ConstantBool(true));
}

#[test]
fn constraints_hold_or_fail() {
    let prime = BigNum::from_i64(17);
    let cs = vec![
        Rc::new(bin(var(1), ExpressionInfixOpcode::Eq, konst(5))),
        Rc::new(bin(var(2), ExpressionInfixOpcode::Lesser, konst(3))),
    ];
    assert!(evaluate_constraints(&prime, &cs, &assignment(&[(1, 5), (2, 2)])));
    assert!(!evaluate_constraints(&prime, &cs, &assignment(&[(1, 5), (2, 4)])));
    assert!(!evaluate_constraints(&prime, &cs, &assignment(&[(1, 6), (2, 2)])));
    assert!(evaluate_constraints(&prime, &[], &assignment(&[])));
    assert_eq!(count_satisfied_constraints(&prime, &cs, &assignment(&[(1, 5), (2, 2)])), 2);
    assert_eq!(count_satisfied_constraints(&prime, &cs, &assignment(&[(1, 5), (2, 4)])), 1);
    assert_eq!(count_satisfied_constraints(&prime, &cs, &assignment(&[(1, 0), (2, 4)])), 0);
}

#[test]
fn emulation_assigns_and_checks() {
    let prime = BigNum::from_i64(17);
    let values = vec![
        Rc::new(SymbolicValue::Assign(Rc::new(var(2)), Rc::new(bin(var(1), ExpressionInfixOpcode::Add, konst(1))))),
        Rc::new(bin(var(2), ExpressionInfixOpcode::Eq, konst(4))),
    ];
    let mut asg = assignment(&[(1, 3)]);
    assert!(emulate_symbolic_values(&prime, &values, &mut asg));
    assert_eq!(asg.get(&name(2)), Some(&BigNum::from_i64(4)));
    let mut asg2 = assignment(&[(1, 5)]);
    assert!(!emulate_symbolic_values(&prime, &values, &mut asg2));
    assert_eq!(asg2.get(&name(2)), Some(&BigNum::from_i64(6)));
    let mut asg3 = assignment(&[]);
    assert!(!emulate_symbolic_values(&prime, &[Rc::new(SymbolicValue::ConstantBool(false))], &mut asg3));
}

#[test]
fn variables_are_extracted_once() {
    let cs = vec![
        Rc::new(bin(var(1), ExpressionInfixOpcode::Add, var(2))),
        Rc::new(bin(var(2), ExpressionInfixOpcode::Eq, var(3))),
        Rc::new(konst(4)),
    ];
    let vars = extract_variables(&cs);
    assert_eq!(vars.len(), 3);
    let mut ids: Vec<usize> = vars.iter().map(|n| n.name).collect();
    ids.sort();
    assert_eq!(ids, vec![1, 2, 3]);
}

#[test]
fn contain_key_reports_any_variable() {
    // The variable case compares the bound name with itself, so any variable counts.
    assert!(is_contain_key(&var(1), &name(7)));
    assert!(is_contain_key(&bin(konst(1), ExpressionInfixOpcode::Add, var(2)), &name(2)));
    assert!(!is_contain_key(&konst(3), &name(3)));
}

#[test]
fn dependency_graph_links_variables() {
    let values = vec![
        Rc::new(SymbolicValue::Assign(Rc::new(var(1)), Rc::new(bin(var(2), ExpressionInfixOpcode::Add, var(3))))),
        Rc::new(bin(var(1), ExpressionInfixOpcode::Eq, var(4))),
        Rc::new(SymbolicValue::UnaryOp(DebugExpressionPrefixOpcode(ExpressionPrefixOpcode::Sub), Rc::new(var(5)))),
    ];
    let mut graph: NameMap<NameSet> = NameMap::new();
    get_dependency_graph(&values, &mut graph);
    let a = graph.get(&name(1)).unwrap();
    assert!(a.contains(&name(2)) && a.contains(&name(3)) && a.contains(&name(4)));
    assert_eq!(a.items.len(), 3);
    let d = graph.get(&name(4)).unwrap();
    assert!(d.contains(&name(1)));
    assert_eq!(d.items.len(), 1);
    assert!(graph.get(&name(2)).is_none());
    assert!(graph.get(&name(5)).is_none());
    assert_eq!(graph.len(), 2);
}

#[test]
fn outputs_that_differ_are_found() {
    let mut values: NameMap<Rc<SymbolicValue>> = NameMap::new();
    values.insert(name(1), Rc::new(konst(2)));
    values.insert(name(2), Rc::new(var(9)));
    assert!(outputs_differ(&vec![1], &values, &assignment(&[(1, 3)])));
    assert!(!outputs_differ(&vec![1], &values, &assignment(&[(1, 2)])));
    assert!(!outputs_differ(&vec![5], &values, &assignment(&[(1, 3)])));
    assert!(!outputs_differ(&vec![2], &values, &assignment(&[(2, 3)])));
}

#[test]
fn counting_agrees_with_evaluation() {
    let prime = BigNum::from_i64(17);
    let cs = vec![
        Rc::new(bin(var(1), ExpressionInfixOpcode::Eq, konst(5))),
        Rc::new(bin(var(2), ExpressionInfixOpcode::Greater, konst(1))),
        Rc::new(bin(var(1), ExpressionInfixOpcode::NotEq, var(2))),
    ];
    for (a, b) in [(5i64, 2i64), (5, 5), (4, 2), (0, 0)] {
        let asg = assignment(&[(1, a), (2, b)]);
        let all = evaluate_constraints(&prime, &cs, &asg);
        let counted = count_satisfied_constraints(&prime, &cs, &asg);
        assert!(counted <= cs.len());
        assert_eq!(all, counted == cs.len());
    }
}
