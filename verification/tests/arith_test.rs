use num_bigint_dig::BigInt;
use std::rc::Rc;

use tcct::arith::{binop_is_defined, evaluate_binary_op, extended_euclidean};
use tcct::ast::{DebugExpressionInfixOpcode, ExpressionInfixOpcode};
use tcct::bignum::BigNum;
use tcct::pretty::bignum_text;
use tcct::symbolic_value::{SymbolicName, SymbolicValue};

fn num(v: i64) -> BigNum {
    BigNum::from_i64(v)
}

fn konst(v: i64) -> SymbolicValue {
    SymbolicValue::ConstantInt(num(v))
}

fn big(b: &BigNum) -> BigInt {
    BigInt::from_signed_bytes_le(&b.to_signed_bytes_le())
}

fn op(o: ExpressionInfixOpcode) -> DebugExpressionInfixOpcode {
    DebugExpressionInfixOpcode(o)
}

#[test]
fn bignum_bytes_round_trip() {
    let b = BigNum::from_i64(-300);
    assert_eq!(big(&b), BigInt::from(-300));
    let c = BigNum::from_signed_bytes_le(&BigInt::from(123456789i64).to_signed_bytes_le());
    assert_eq!(bignum_text(&c), "123456789");
    assert_eq!(c.copy(), c);
}

#[test]
fn extended_euclidean_satisfies_bezout() {
    for (a, b) in [(17i64, 5i64), (240, 46), (5, 17), (0, 7), (12, 0), (-30, 12)] {
        let (g, x, y) = extended_euclidean(num(a), num(b));
        assert_eq!(BigInt::from(a) * big(&x) + BigInt::from(b) * big(&y), big(&g));
    }
    let (g, _, _) = extended_euclidean(num(240), num(46));
    assert_eq!(big(&g), BigInt::from(2));
}

#[test]
fn division_undoes_multiplication_modulo_prime() {
    let prime = num(17);
    for lv in [0i64, 1, 5, 8, 16, 23] {
        for rv in [1i64, 2, 3, 9, 16, 20] {
            let q = evaluate_binary_op(&konst(lv), &konst(rv), &prime, &op(ExpressionInfixOpcode::Div));
            let back = evaluate_binary_op(&q, &konst(rv), &prime, &op(ExpressionInfixOpcode::Mul));
            assert_eq!(back, konst(lv % 17));
        }
    }
}

#[test]
fn division_by_negative_divisor() {
    // -1 stands for 16 modulo 17, whose inverse is 16: 3 / -1 = 3 * 16 mod 17 = 14.
    let prime = num(17);
    let q = evaluate_binary_op(&konst(3), &konst(-1), &prime, &op(ExpressionInfixOpcode::Div));
    assert_eq!(q, konst(14));
}

#[test]
fn integer_division_and_remainder_truncate() {
    let prime = num(17);
    assert_eq!(evaluate_binary_op(&konst(7), &konst(2), &prime, &op(ExpressionInfixOpcode::IntDiv)), konst(3));
    assert_eq!(evaluate_binary_op(&konst(-7), &konst(2), &prime, &op(ExpressionInfixOpcode::IntDiv)), konst(-3));
    assert_eq!(evaluate_binary_op(&konst(7), &konst(3), &prime, &op(ExpressionInfixOpcode::Mod)), konst(1));
    assert_eq!(evaluate_binary_op(&konst(-7), &konst(3), &prime, &op(ExpressionInfixOpcode::Mod)), konst(-1));
    assert!(!binop_is_defined(ExpressionInfixOpcode::IntDiv, &konst(7), &konst(0)));
    assert!(!binop_is_defined(ExpressionInfixOpcode::Mod, &konst(7), &konst(0)));
    assert!(binop_is_defined(ExpressionInfixOpcode::Div, &konst(7), &konst(0)));
}

#[test]
fn shifts_and_subtraction() {
    let prime = num(17);
    assert_eq!(evaluate_binary_op(&konst(3), &konst(4), &prime, &op(ExpressionInfixOpcode::ShiftL)), konst(48));
    assert_eq!(evaluate_binary_op(&konst(48), &konst(3), &prime, &op(ExpressionInfixOpcode::ShiftR)), konst(6));
    assert!(!binop_is_defined(ExpressionInfixOpcode::ShiftL, &konst(3), &konst(-1)));
    assert_eq!(evaluate_binary_op(&konst(3), &konst(10), &prime, &op(ExpressionInfixOpcode::Sub)), konst(-7));
    assert_eq!(evaluate_binary_op(&konst(20), &konst(1), &prime, &op(ExpressionInfixOpcode::Add)), konst(4));
}

#[test]
fn comparisons_reduce_modulo_prime() {
    let prime = num(17);
    assert_eq!(evaluate_binary_op(&konst(18), &konst(2), &prime, &op(ExpressionInfixOpcode::Lesser)), SymbolicValue::ConstantBool(true));
    assert_eq!(evaluate_binary_op(&konst(18), &konst(1), &prime, &op(ExpressionInfixOpcode::Eq)), SymbolicValue::ConstantBool(true));
    assert_eq!(evaluate_binary_op(&konst(3), &konst(3), &prime, &op(ExpressionInfixOpcode::NotEq)), SymbolicValue::ConstantBool(false));
    assert_eq!(evaluate_binary_op(&konst(3), &konst(4), &prime, &op(ExpressionInfixOpcode::Greater)), SymbolicValue::ConstantBool(false));
    assert_eq!(evaluate_binary_op(&konst(3), &konst(3), &prime, &op(ExpressionInfixOpcode::LesserEq)), SymbolicValue::ConstantBool(true));
}

#[test]
fn symbolic_operands_stay_unevaluated() {
    let prime = num(17);
    let x = SymbolicValue::Variable(SymbolicName { name: 1, owner: Rc::new(vec![]), access: vec![] });
    let r = evaluate_binary_op(&x, &konst(2), &prime, &op(ExpressionInfixOpcode::Add));
    let expected = SymbolicValue::BinaryOp(Rc::new(x.copy()), op(ExpressionInfixOpcode::Add), Rc::new(konst(2)));
    assert_eq!(r, expected);
}

#[test]
fn decimal_numerals_are_read_as_num_bigint_reads_them() {
    let read = |s: &str| BigNum::from_decimal(s).map(|x| bignum_text(&x));
    assert_eq!(read("12"), Some("12".to_string()));
    assert_eq!(read("-1_2"), Some("-12".to_string()));
    assert_eq!(read("+5"), Some("5".to_string()));
    assert_eq!(read("-0"), Some("0".to_string()));
    assert_eq!(read("21888242871839275222246405745257275088548364400416034343698204186575808495617"),
        Some("21888242871839275222246405745257275088548364400416034343698204186575808495617".to_string()));
    assert_eq!(read(""), None);
    assert_eq!(read("-"), None);
    assert_eq!(read("_1"), None);
    assert_eq!(read("-+1"), None);
    assert_eq!(read("++1"), None);
    assert_eq!(read("1a"), None);
    for s in ["0", "7_000", "-45", "+_3", "3 ", "-_1"] {
        assert_eq!(BigNum::from_decimal(s).is_some(), s.parse::<BigInt>().is_ok());
    }
}
