use rustc_hash::FxHashMap;
use std::rc::Rc;

use tcct::ast::{DebugExpressionInfixOpcode, DebugExpressionPrefixOpcode, ExpressionInfixOpcode, ExpressionPrefixOpcode};
use tcct::bignum::BigNum;
use tcct::lookup::{
    access_lookup_text, assignment_names_known, counter_example_lookup_text, name_lookup_text, name_names_known,
    value_lookup_text, value_names_known, verdict_lookup_text,
};
use tcct::name_map::NameMap;
use tcct::solver::utils::{CounterExample, VerificationResult};
use tcct::symbolic_execution::SymbolicState;
use tcct::symbolic_value::{OwnerName, SymbolicAccess, SymbolicName, SymbolicValue};

fn table() -> FxHashMap<usize, String> {
    let mut t = FxHashMap::default();
    t.insert(0, "main".to_string());
    t.insert(1, "x".to_string());
    t.insert(2, "out".to_string());
    t.insert(3, "f".to_string());
    t
}

fn x() -> SymbolicValue {
    SymbolicValue::Variable(SymbolicName {
        name: 1,
        owner: Rc::new(vec![OwnerName { name: 0, counter: 0 }]),
        access: vec![],
    })
}

fn num(v: i64) -> SymbolicValue {
    SymbolicValue::ConstantInt(BigNum::from_i64(v))
}

#[test]
fn values_read_with_their_names() {
    let t = table();
    let sum = SymbolicValue::BinaryOp(Rc::new(x()), DebugExpressionInfixOpcode(ExpressionInfixOpcode::Add), Rc::new(num(3)));
    assert_eq!(value_lookup_text(&sum, &t, false), "(Add main.x 3)");
    assert_eq!(value_lookup_text(&sum, &t, true), "(\x1b[33mAdd\x1b[0m main.x 3)");
    let cmp = SymbolicValue::BinaryOp(Rc::new(x()), DebugExpressionInfixOpcode(ExpressionInfixOpcode::Eq), Rc::new(num(-1)));
    assert_eq!(value_lookup_text(&cmp, &t, true), "(\x1b[32mEq\x1b[0m main.x -1)");
    let shift = SymbolicValue::BinaryOp(Rc::new(x()), DebugExpressionInfixOpcode(ExpressionInfixOpcode::ShiftR), Rc::new(num(1)));
    assert_eq!(value_lookup_text(&shift, &t, true), "(\x1b[31mShR\x1b[0m main.x 1)");
    let neg = SymbolicValue::UnaryOp(DebugExpressionPrefixOpcode(ExpressionPrefixOpcode::BoolNot), Rc::new(SymbolicValue::ConstantBool(true)));
    assert_eq!(value_lookup_text(&neg, &t, true), "(\x1b[35mBoolNot\x1b[0m ✅ true)");
    let call = SymbolicValue::Call(3, vec![Rc::new(num(1)), Rc::new(x())]);
    assert_eq!(value_lookup_text(&call, &t, false), "📞f(1, main.x)");
    let arr = SymbolicValue::Array(vec![Rc::new(num(1)), Rc::new(num(2)), Rc::new(num(3))]);
    assert_eq!(value_lookup_text(&arr, &t, false), "🧬 1, 2, 3");
    let uni = SymbolicValue::UniformArray(Rc::new(num(0)), Rc::new(num(4)));
    assert_eq!(value_lookup_text(&uni, &t, false), "🧬 (0, 4)");
    let cond = SymbolicValue::Conditional(Rc::new(SymbolicValue::ConstantBool(false)), Rc::new(num(1)), Rc::new(num(2)));
    assert_eq!(value_lookup_text(&cond, &t, false), "(❌ false 1 2)");
    let tuple = SymbolicValue::Tuple(vec![]);
    assert_eq!(value_lookup_text(&tuple, &t, false), "❓Unknown symbolic value");
}

#[test]
fn names_with_accesses() {
    let t = table();
    let n = SymbolicName {
        name: 2,
        owner: Rc::new(vec![OwnerName { name: 0, counter: 0 }, OwnerName { name: 3, counter: 1 }]),
        access: vec![SymbolicAccess::ArrayAccess(num(4)), SymbolicAccess::ComponentAccess(1)],
    };
    assert_eq!(name_lookup_text(&n, &t, false), "main.f.out[4].x");
    let top = SymbolicName { name: 2, owner: Rc::new(vec![]), access: vec![] };
    assert_eq!(name_lookup_text(&top, &t, false), ".out");
    assert_eq!(access_lookup_text(&SymbolicAccess::ComponentAccess(2), &t, false), ".out");
    let plain = n.lookup_fmt(&t);
    assert!(plain == "main.f.out[4].x");
}

#[test]
fn owner_path_of_a_state() {
    let t = table();
    let mut st = SymbolicState::new();
    assert_eq!(st.get_owner(&t), "");
    st.add_owner(&OwnerName { name: 0, counter: 0 });
    st.add_owner(&OwnerName { name: 3, counter: 2 });
    assert_eq!(st.get_owner(&t), "main.f");
}

fn report_of(flag: VerificationResult) -> CounterExample {
    let out = SymbolicName {
        name: 2,
        owner: Rc::new(vec![OwnerName { name: 0, counter: 0 }]),
        access: vec![SymbolicAccess::ArrayAccess(num(1))],
    };
    let mut entries = Vec::new();
    entries.push((out, BigNum::from_i64(-7)));
    entries.push((SymbolicName { name: 1, owner: Rc::new(vec![OwnerName { name: 0, counter: 0 }]), access: vec![] }, BigNum::from_i64(12)));
    CounterExample { flag, assignment: NameMap { entries } }
}

#[test]
fn counter_example_report_plain() {
    let t = table();
    let ce = report_of(VerificationResult::UnderConstrained);
    let expected = String::new()
        + "╔══════════════════════════════════════════════════════════════╗\n"
        + "║🚨 Counter Example:                                           ║\n"
        + "║    🔥 UnderConstrained 🔥 \n"
        + "║    🔍 Assignment Details: \n"
        + "║           ➡️ main.out[1] = -7 \n"
        + "║           ➡️ main.x = 12 \n"
        + "╚══════════════════════════════════════════════════════════════╝\n";
    assert_eq!(counter_example_lookup_text(&ce, &t, false), expected);
}

#[test]
fn counter_example_report_painted() {
    let t = table();
    let ce = CounterExample { flag: VerificationResult::OverConstrained, assignment: NameMap { entries: vec![] } };
    let expected = String::new()
        + "\x1b[31m╔══════════════════════════════════════════════════════════════╗\n\x1b[0m"
        + "\x1b[31m║\x1b[0m🚨 \x1b[1;101;37mCounter Example:\x1b[0m                                           \x1b[31m║\n\x1b[0m"
        + "\x1b[31m║\x1b[0m    \x1b[1;33m💣 OverConstrained 💣\x1b[0m \n"
        + "\x1b[31m║\x1b[0m    \x1b[1;34m🔍 Assignment Details:\x1b[0m \n"
        + "\x1b[31m╚══════════════════════════════════════════════════════════════╝\n\x1b[0m";
    assert_eq!(counter_example_lookup_text(&ce, &t, true), expected);
}

#[test]
fn verdict_banners() {
    assert_eq!(verdict_lookup_text(VerificationResult::WellConstrained, false), "✅ WellConstrained ✅");
    assert_eq!(verdict_lookup_text(VerificationResult::WellConstrained, true), "\x1b[1;32m✅ WellConstrained ✅\x1b[0m");
    assert_eq!(verdict_lookup_text(VerificationResult::UnderConstrained, true), "\x1b[1;31m🔥 UnderConstrained 🔥\x1b[0m");
}

#[test]
fn painted_name_keeps_its_paint_after_an_inner_reset() {
    let t = table();
    let idx = SymbolicValue::BinaryOp(Rc::new(x()), DebugExpressionInfixOpcode(ExpressionInfixOpcode::Add), Rc::new(num(1)));
    let n = SymbolicName { name: 2, owner: Rc::new(vec![OwnerName { name: 0, counter: 0 }]), access: vec![SymbolicAccess::ArrayAccess(idx)] };
    let ce = CounterExample { flag: VerificationResult::UnderConstrained, assignment: NameMap { entries: vec![(n, BigNum::from_i64(5))] } };
    let report = counter_example_lookup_text(&ce, &t, true);
    let line = "\x1b[31m║\x1b[0m           \x1b[36m➡️\x1b[0m \x1b[1;35mmain.out[(\x1b[33mAdd\x1b[0m\x1b[1;35m main.x 1)]\x1b[0m = \x1b[93m5\x1b[0m \n";
    assert!(report.contains(line));
}

#[test]
fn names_checked_against_the_table() {
    let t = table();
    let ce = report_of(VerificationResult::UnderConstrained);
    assert!(assignment_names_known(&ce.assignment.entries, &t));
    let stranger = SymbolicName { name: 9, owner: Rc::new(vec![]), access: vec![] };
    assert!(!name_names_known(&stranger, &t));
    let deep = SymbolicName { name: 1, owner: Rc::new(vec![OwnerName { name: 7, counter: 0 }]), access: vec![] };
    assert!(!name_names_known(&deep, &t));
    assert!(!value_names_known(&SymbolicValue::Call(8, vec![]), &t));
    assert!(value_names_known(&SymbolicValue::Call(3, vec![Rc::new(x())]), &t));
    let bad_index = SymbolicName { name: 1, owner: Rc::new(vec![]), access: vec![SymbolicAccess::ComponentAccess(42)] };
    assert!(!assignment_names_known(&vec![(bad_index, BigNum::from_i64(0))], &t));
}
