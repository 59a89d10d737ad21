use num_bigint_dig::BigInt;
use std::str::FromStr;

use tcct::arith::evaluate_binary_op;
use tcct::ast::{DebugExpressionInfixOpcode, ExpressionInfixOpcode};
use tcct::bignum::BigNum;
use tcct::symbolic_value::SymbolicValue;

fn konst(v: i64) -> SymbolicValue {
    SymbolicValue::ConstantInt(BigNum::from_i64(v))
}

#[test]
fn test_arithmetic_operations() {
    let prime = BigNum::from_i64(17);

    // Addition
    assert_eq!(
        evaluate_binary_op(&konst(5), &konst(7), &prime, &DebugExpressionInfixOpcode(ExpressionInfixOpcode::Add)),
        konst(12)
    );

    // Subtraction
    assert_eq!(
        evaluate_binary_op(&konst(10), &konst(7), &prime, &DebugExpressionInfixOpcode(ExpressionInfixOpcode::Sub)),
        konst(3)
    );

    // Multiplication
    assert_eq!(
        evaluate_binary_op(&konst(5), &konst(7), &prime, &DebugExpressionInfixOpcode(ExpressionInfixOpcode::Mul)),
        konst(1) // (5 * 7) % 17 = 35 % 17 = 1
    );

    // Division
    assert_eq!(
        evaluate_binary_op(&konst(8), &konst(2), &prime, &DebugExpressionInfixOpcode(ExpressionInfixOpcode::Div)),
        konst(4)
    );
}

#[test]
fn test_comparison_operations() {
    let prime = BigNum::from_i64(17);

    // Less than
    assert_eq!(
        evaluate_binary_op(&konst(5), &konst(7), &prime, &DebugExpressionInfixOpcode(ExpressionInfixOpcode::Lesser)),
        SymbolicValue::ConstantBool(true)
    );

    // Greater than or equal
    assert_eq!(
        evaluate_binary_op(&konst(7), &konst(5), &prime, &DebugExpressionInfixOpcode(ExpressionInfixOpcode::GreaterEq)),
        SymbolicValue::ConstantBool(true)
    );

    // Equal
    assert_eq!(
        evaluate_binary_op(&konst(5), &konst(5), &prime, &DebugExpressionInfixOpcode(ExpressionInfixOpcode::Eq)),
        SymbolicValue::ConstantBool(true)
    );
}

#[test]
fn test_bitwise_operations() {
    let prime = BigNum::from_i64(17);

    // Bitwise OR
    assert_eq!(
        evaluate_binary_op(&konst(5), &konst(3), &prime, &DebugExpressionInfixOpcode(ExpressionInfixOpcode::BitOr)),
        konst(7)
    );

    // Bitwise AND
    assert_eq!(
        evaluate_binary_op(&konst(5), &konst(3), &prime, &DebugExpressionInfixOpcode(ExpressionInfixOpcode::BitAnd)),
        konst(1)
    );

    // Bitwise XOR
    assert_eq!(
        evaluate_binary_op(&konst(5), &konst(3), &prime, &DebugExpressionInfixOpcode(ExpressionInfixOpcode::BitXor)),
        konst(6)
    );
}

#[test]
fn test_boolean_operations() {
    let prime = BigNum::from_i64(17);

    // Boolean AND
    assert_eq!(
        evaluate_binary_op(
            &SymbolicValue::ConstantBool(true),
            &SymbolicValue::ConstantBool(false),
            &prime,
            &DebugExpressionInfixOpcode(ExpressionInfixOpcode::BoolAnd)
        ),
        SymbolicValue::ConstantBool(false)
    );

    // Boolean OR
    assert_eq!(
        evaluate_binary_op(
            &SymbolicValue::ConstantBool(true),
            &SymbolicValue::ConstantBool(false),
            &prime,
            &DebugExpressionInfixOpcode(ExpressionInfixOpcode::BoolOr)
        ),
        SymbolicValue::ConstantBool(true)
    );
}

#[test]
fn test_edge_cases() {
    let prime = BigNum::from_i64(17);

    // Division by zero
    assert_eq!(
        evaluate_binary_op(&konst(5), &konst(0), &prime, &DebugExpressionInfixOpcode(ExpressionInfixOpcode::Div)),
        konst(0)
    );

    // Large numbers
    let large_num = BigInt::from_str("1000000000000000000000000").unwrap();
    let large = SymbolicValue::ConstantInt(BigNum::from_signed_bytes_le(&large_num.to_signed_bytes_le()));
    assert_eq!(
        evaluate_binary_op(&large, &konst(2), &prime, &DebugExpressionInfixOpcode(ExpressionInfixOpcode::Mul)),
        konst(15) // (1000000000000000000000000 * 2) % 17 = 15
    );
}
