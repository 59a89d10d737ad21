use colored::Colorize;
use rustc_hash::FxHashMap;
use std::rc::Rc;

use tcct::ast::{DebugExpressionInfixOpcode, DebugExpressionPrefixOpcode, ExpressionInfixOpcode, ExpressionPrefixOpcode};
use tcct::bignum::BigNum;
use tcct::lookup::{counter_example_lookup_text, name_lookup_text, value_lookup_text};
use tcct::name_map::NameMap;
use tcct::solver::utils::{CounterExample, VerificationResult};
use tcct::symbolic_value::{OwnerName, SymbolicAccess, SymbolicName, SymbolicValue};

fn painted_by_colored(ce: &CounterExample, t: &FxHashMap<usize, String>) -> String {
    let verdict = match ce.flag {
        VerificationResult::UnderConstrained => "🔥 UnderConstrained 🔥".red().bold(),
        VerificationResult::OverConstrained => "💣 OverConstrained 💣".yellow().bold(),
        VerificationResult::WellConstrained => "✅ WellConstrained ✅".green().bold(),
    };
    let mut s = String::new();
    s += &format!("{}", "╔══════════════════════════════════════════════════════════════╗\n".red());
    s += &format!("{}", "║".red());
    s += &format!("🚨 {}                                           ", "Counter Example:".on_bright_red().white().bold());
    s += &format!("{}", "║\n".red());
    s += &format!("{}", "║".red());
    s += &format!("    {} \n", verdict);
    s += &format!("{}", "║".red());
    s += &format!("    {} \n", "🔍 Assignment Details:".blue().bold());
    for (var, value) in &ce.assignment.entries {
        s += &format!("{}", "║".red());
        s += &format!(
            "           {} {} = {} \n",
            "➡️".cyan(),
            name_lookup_text(var, t, true).magenta().bold(),
            tcct::pretty::bignum_text(value).bright_yellow()
        );
    }
    s += &format!("{}", "╚══════════════════════════════════════════════════════════════╝\n".red());
    s
}

fn plain_name() -> SymbolicName {
    SymbolicName { name: 1, owner: Rc::new(vec![OwnerName { name: 0, counter: 0 }]), access: vec![] }
}

fn indexed_name() -> SymbolicName {
    let idx = SymbolicValue::BinaryOp(
        Rc::new(SymbolicValue::Variable(plain_name())),
        DebugExpressionInfixOpcode(ExpressionInfixOpcode::Mul),
        Rc::new(SymbolicValue::ConstantInt(BigNum::from_i64(2))),
    );
    SymbolicName {
        name: 2,
        owner: Rc::new(vec![OwnerName { name: 0, counter: 0 }]),
        access: vec![SymbolicAccess::ArrayAccess(idx), SymbolicAccess::ComponentAccess(1)],
    }
}

#[test]
fn report_paints_as_colored_does() {
    colored::control::set_override(true);
    let mut t = FxHashMap::default();
    t.insert(0, "main".to_string());
    t.insert(1, "x".to_string());
    t.insert(2, "out".to_string());
    for flag in [VerificationResult::UnderConstrained, VerificationResult::OverConstrained, VerificationResult::WellConstrained] {
        let ce = CounterExample {
            flag,
            assignment: NameMap { entries: vec![(indexed_name(), BigNum::from_i64(-3)), (plain_name(), BigNum::from_i64(40))] },
        };
        assert_eq!(counter_example_lookup_text(&ce, &t, true), painted_by_colored(&ce, &t));
        assert_eq!(ce.lookup_fmt(&t), painted_by_colored(&ce, &t));
    }
}

#[test]
fn operators_paint_as_colored_does() {
    colored::control::set_override(true);
    let mut t = FxHashMap::default();
    t.insert(0, "main".to_string());
    t.insert(1, "x".to_string());
    let x = || Rc::new(SymbolicValue::Variable(plain_name()));
    let two = || Rc::new(SymbolicValue::ConstantInt(BigNum::from_i64(2)));
    let cases = [
        (ExpressionInfixOpcode::Add, "Add".yellow()),
        (ExpressionInfixOpcode::Eq, "Eq".green()),
        (ExpressionInfixOpcode::ShiftL, "ShL".red()),
        (ExpressionInfixOpcode::IntDiv, "IntDiv".red()),
    ];
    for (op, painted) in cases {
        let v = SymbolicValue::BinaryOp(x(), DebugExpressionInfixOpcode(op), two());
        assert_eq!(value_lookup_text(&v, &t, true), format!("({} {} {})", painted, "main.x", "2"));
        assert_eq!(v.lookup_fmt(&t), format!("({} {} {})", painted, "main.x", "2"));
    }
    let neg = SymbolicValue::UnaryOp(DebugExpressionPrefixOpcode(ExpressionPrefixOpcode::Sub), x());
    assert_eq!(value_lookup_text(&neg, &t, true), format!("({} {})", "Minus".magenta(), "main.x"));
}
