use tcct::ast::{
    AssignOp, DebugAccess, DebugAssignOp, DebugExpression, DebugExpressionInfixOpcode, DebugExpressionPrefixOpcode,
    DebugSignalType, DebugStatement, DebugVariableType, ExpressionInfixOpcode, ExpressionPrefixOpcode, Meta, SignalType,
    VariableType,
};
use tcct::bignum::BigNum;
use tcct::pretty::{bignum_text, bool_str, indentation_text, usize_text};

fn meta(id: usize) -> Meta {
    Meta { elem_id: id }
}

fn number(v: i64) -> DebugExpression {
    DebugExpression::Number(meta(0), BigNum::from_i64(v))
}

#[test]
fn numbers_and_indentation_as_text() {
    assert_eq!(usize_text(0), "0");
    assert_eq!(usize_text(1234), "1234");
    assert_eq!(usize_text(usize::MAX), usize::MAX.to_string());
    assert_eq!(bignum_text(&BigNum::from_i64(-42)), "-42");
    assert_eq!(bignum_text(&BigNum::from_i64(0)), "0");
    assert_eq!(bool_str(true), "true");
    assert_eq!(bool_str(false), "false");
    assert_eq!(indentation_text(0), "");
    assert_eq!(indentation_text(3), "      ");
}

#[test]
fn operator_names() {
    assert_eq!(DebugExpressionInfixOpcode(ExpressionInfixOpcode::ShiftL).fmt(), "ShL");
    assert_eq!(DebugExpressionInfixOpcode(ExpressionInfixOpcode::Lesser).fmt(), "Lt");
    assert_eq!(DebugExpressionInfixOpcode(ExpressionInfixOpcode::NotEq).fmt(), "NEq");
    assert_eq!(DebugExpressionPrefixOpcode(ExpressionPrefixOpcode::Sub).fmt(), "Minus");
    assert_eq!(DebugAssignOp(AssignOp::AssignConstraintSignal).fmt(), "AssignConstraintSignal");
    assert_eq!(DebugSignalType(SignalType::Intermediate).fmt(), "Intermediate");
}

#[test]
fn declared_kinds_as_text() {
    assert_eq!(DebugVariableType(VariableType::Var).fmt(), "Var");
    assert_eq!(
        DebugVariableType(VariableType::Signal(SignalType::Output, vec!["binary".to_string()])).fmt(),
        "Signal: Output [\"binary\"]"
    );
    assert_eq!(
        DebugVariableType(VariableType::Bus("B".to_string(), SignalType::Input, vec![])).fmt(),
        "Bus: B Input []"
    );
}

#[test]
fn expression_tree() {
    colored::control::set_override(true);
    assert_eq!(number(5).pretty_fmt(0), "\x1b[34mNumber:\x1b[0m 5\n");
    let e = DebugExpression::InfixOp {
        meta: meta(0),
        lhe: Box::new(number(1)),
        infix_op: DebugExpressionInfixOpcode(ExpressionInfixOpcode::Add),
        rhe: Box::new(DebugExpression::Variable { meta: meta(0), name: 3, access: vec![DebugAccess::ComponentAccess(4)] }),
    };
    let expected = String::new()
        + "  \x1b[32mInfixOp:\x1b[0m\n"
        + "    \x1b[36mOperator:\x1b[0m Add\n"
        + "    \x1b[33mLeft-Hand Expression:\x1b[0m\n"
        + "      \x1b[34mNumber:\x1b[0m 1\n"
        + "    \x1b[33mRight-Hand Expression:\x1b[0m\n"
        + "      \x1b[34mVariable:\x1b[0m\n"
        + "        Name: 3\n"
        + "        Access:\n"
        + "          ComponentAccess\n"
        + "            name: 4\n";
    assert_eq!(e.pretty_fmt(1), expected);
}

#[test]
fn access_forms() {
    colored::control::set_override(true);
    assert_eq!(DebugAccess::ComponentAccess(7).compact_fmt(), ".7");
    assert_eq!(DebugAccess::ArrayAccess(number(2)).compact_fmt(), "[\x1b[34mNumber:\x1b[0m 2]");
    let nested = DebugAccess::ArrayAccess(DebugExpression::PrefixOp {
        meta: meta(0),
        prefix_op: DebugExpressionPrefixOpcode(ExpressionPrefixOpcode::Sub),
        rhe: Box::new(number(2)),
    });
    assert_eq!(
        nested.compact_fmt(),
        "[\x1b[32mPrefixOp:\x1b[0m \x1b[36mOperator:\x1b[0m Minus \x1b[33mRight-Hand Expression:\x1b[0m  \x1b[34mNumber:\x1b[0m 2]"
    );
    assert!(!nested.compact_fmt().contains('\n'));
    assert_eq!(DebugAccess::ComponentAccess(7).pretty_fmt(1), "  ComponentAccess\n    name: 7\n");
}

#[test]
fn statement_tree() {
    colored::control::set_override(true);
    let s = DebugStatement::Substitution {
        meta: meta(9),
        var: 2,
        access: vec![],
        op: DebugAssignOp(AssignOp::AssignVar),
        rhe: number(1),
    };
    let expected = String::new()
        + "\x1b[32mSubstitution\x1b[0m (elem_id=9):\n"
        + "  \x1b[34mVariable:\x1b[0m 2\n"
        + "  \x1b[35mAccess:\x1b[0m\n"
        + "  \x1b[36mOperation:\x1b[0m AssignVar\n"
        + "  \x1b[33mRight-Hand Expression:\x1b[0m:\n"
        + "    \x1b[34mNumber:\x1b[0m 1\n";
    assert_eq!(s.pretty_fmt(0), expected);
    let block = DebugStatement::Block { meta: meta(1), stmts: vec![DebugStatement::Ret] };
    let expected_block = String::new()
        + "\x1b[32mBlock\x1b[0m (elem_id=1):\n"
        + "    \x1b[31m-------------------------------\x1b[0m\n"
        + "    \x1b[34mRet\x1b[0m\n"
        + "    \x1b[31m-------------------------------\x1b[0m\n";
    assert_eq!(block.pretty_fmt(0), expected_block);
    let decl = DebugStatement::Declaration {
        meta: meta(2),
        xtype: VariableType::Var,
        name: 4,
        dimensions: vec![],
        is_constant: true,
    };
    let expected_decl = String::new()
        + "\x1b[32mDeclaration\x1b[0m (elem_id=2):\n"
        + "  \x1b[36mType:\x1b[0m Var\n"
        + "  \x1b[35mName:\x1b[0m 4\n"
        + "  \x1b[33mDimensions:\x1b[0m:\n"
        + "  \x1b[36mIs Constant:\x1b[0m true\n";
    assert_eq!(decl.pretty_fmt(0), expected_decl);
}

#[test]
fn trees_are_plain_where_colors_are_off() {
    colored::control::set_override(false);
    assert_eq!(number(5).pretty_fmt(1), "  Number: 5\n");
    assert_eq!(DebugAccess::ArrayAccess(number(2)).compact_fmt(), "[Number: 2]");
    assert_eq!(DebugStatement::Ret.pretty_fmt(0), "Ret\n");
}
