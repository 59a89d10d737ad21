//! Arithmetic of constants: the extended Euclidean algorithm and the folding of a binary
//! operator applied to two constants, modulo the prime of the field.
use crate::ast::{DebugExpressionInfixOpcode, ExpressionInfixOpcode};
use crate::bignum::{
    abs, big_add, big_bitand, big_bitor, big_bitxor, big_div, big_eq, big_is_negative, big_is_zero,
    big_lt, big_mul, big_rem, big_shl, big_shr, big_sub, big_to_usize, bitwise, trunc_div, trunc_rem,
    BigNum, BitOp,
};
use crate::symbolic_value::{SpecValue, SymbolicValue};
use std::rc::Rc;
use vstd::arithmetic::div_mod::{lemma_fundamental_div_mod, lemma_mod_bound, lemma_mod_multiples_basic};
use vstd::arithmetic::power2::pow2;
use vstd::prelude::*;

verus! {

/// The quotient and remainder of `BigInt` division recompose the dividend, and the
/// remainder is smaller than the divisor in absolute value.
pub proof fn lemma_trunc_div_rem(a: int, b: int)
    requires
        b != 0,
    ensures
        a == b * trunc_div(a, b) + trunc_rem(a, b),
        abs(trunc_rem(a, b)) < abs(b),
        trunc_rem(a, b) == 0 || (trunc_rem(a, b) < 0) == (a < 0),
{
    let x = abs(a);
    let y = abs(b);
    lemma_fundamental_div_mod(x, y);
    lemma_mod_bound(x, y);
    let q = x / y;
    let m = x % y;
    assert(x == y * q + m);
    if a >= 0 && b >= 0 {
    } else if a >= 0 && b < 0 {
        assert(b * (-q) == y * q) by (nonlinear_arith)
            requires
                y == -b,
        ;
    } else if a < 0 && b >= 0 {
        assert(b * (-q) == -(y * q)) by (nonlinear_arith)
            requires
                y == b,
        ;
    } else {
        assert(b * q == -(y * q)) by (nonlinear_arith)
            requires
                y == -b,
        ;
    }
}

/// One run of the extended Euclidean loop from the given remainders and coefficients.
pub open spec fn ext_euclid_loop(old_r: int, r: int, old_s: int, s: int, old_t: int, t: int) -> (
    int,
    int,
    int,
)
    decreases abs(r),
{
    if r == 0 {
        (old_r, old_s, old_t)
    } else {
        let q = trunc_div(old_r, r);
        proof {
            lemma_trunc_div_rem(old_r, r);
        }
        ext_euclid_loop(r, old_r - q * r, s, old_s - q * s, t, old_t - q * t)
    }
}

/// The extended Euclidean algorithm on `a` and `b`: a common divisor `g` and coefficients
/// `x`, `y`.
pub open spec fn ext_euclid(a: int, b: int) -> (int, int, int) {
    ext_euclid_loop(a, b, 1, 0, 0, 1)
}

proof fn lemma_ext_euclid_loop_bezout(
    a: int,
    b: int,
    old_r: int,
    r: int,
    old_s: int,
    s: int,
    old_t: int,
    t: int,
)
    requires
        old_r == a * old_s + b * old_t,
        r == a * s + b * t,
    ensures
        ({
            let (g, x, y) = ext_euclid_loop(old_r, r, old_s, s, old_t, t);
            g == a * x + b * y
        }),
    decreases abs(r),
{
    if r != 0 {
        let q = trunc_div(old_r, r);
        lemma_trunc_div_rem(old_r, r);
        assert(old_r - q * r == a * (old_s - q * s) + b * (old_t - q * t)) by (nonlinear_arith)
            requires
                old_r == a * old_s + b * old_t,
                r == a * s + b * t,
        ;
        lemma_ext_euclid_loop_bezout(a, b, r, old_r - q * r, s, old_s - q * s, t, old_t - q * t);
    }
}

/// Bezout's identity: the extended Euclidean algorithm returns `(g, x, y)` with
/// `a * x + b * y == g`.
pub proof fn lemma_bezout(a: int, b: int)
    ensures
        ({
            let (g, x, y) = ext_euclid(a, b);
            g == a * x + b * y
        }),
{
    lemma_ext_euclid_loop_bezout(a, b, a, b, 1, 0, 0, 1);
}

/// The extended Euclidean algorithm: returns `(g, x, y)` with `a * x + b * y == g`, where `g`
/// is the last nonzero remainder.
pub fn extended_euclidean(a: BigNum, b: BigNum) -> (res: (BigNum, BigNum, BigNum))
    ensures
        (res.0@, res.1@, res.2@) == ext_euclid(a@, b@),
{
    let mut old_r = a;
    let mut r = b;
    let mut old_s = BigNum::from_i64(1);
    let mut s = BigNum::from_i64(0);
    let mut old_t = BigNum::from_i64(0);
    let mut t = BigNum::from_i64(1);
    while !big_is_zero(&r)
        invariant
            ext_euclid_loop(old_r@, r@, old_s@, s@, old_t@, t@) == ext_euclid(a@, b@),
        decreases abs(r@),
    {
        proof {
            lemma_trunc_div_rem(old_r@, r@);
        }
        let q = big_div(&old_r, &r);
        let next_r = big_sub(&old_r, &big_mul(&q, &r));
        let next_s = big_sub(&old_s, &big_mul(&q, &s));
        let next_t = big_sub(&old_t, &big_mul(&q, &t));
        proof {
            assert(q@ * r@ == r@ * q@) by (nonlinear_arith);
            assert(next_r@ == trunc_rem(old_r@, r@));
        }
        old_r = r;
        r = next_r;
        old_s = s;
        s = next_s;
        old_t = t;
        t = next_t;
    }
    (old_r, old_s, old_t)
}

/// The multiplier that field division uses for the divisor `b`: the Euclidean coefficient of
/// `b` against the prime, brought into `0..p`.
pub open spec fn spec_field_inverse(p: int, b: int) -> int {
    let r0 = if p < 0 {
        p + p
    } else {
        p
    };
    let b0 = if b < 0 {
        b + p
    } else {
        b
    };
    let t = trunc_rem(ext_euclid(r0, b0).2, p);
    if t < 0 {
        t + p
    } else {
        t
    }
}

/// The constant that a binary operator gives on two integer constants, or `None` where the
/// operator is left unevaluated.
pub open spec fn fold_int_binop(op: ExpressionInfixOpcode, a: int, b: int, p: int) -> Option<SpecValue> {
    match op {
        ExpressionInfixOpcode::Add => Some(SpecValue::Int(trunc_rem(a + b, p))),
        ExpressionInfixOpcode::Sub => Some(SpecValue::Int(trunc_rem(a - b, p))),
        ExpressionInfixOpcode::Mul => Some(SpecValue::Int(trunc_rem(a * b, p))),
        ExpressionInfixOpcode::Div => Some(
            SpecValue::Int(
                if b == 0 {
                    0
                } else {
                    trunc_rem(a * spec_field_inverse(p, b), p)
                },
            ),
        ),
        ExpressionInfixOpcode::IntDiv => Some(SpecValue::Int(trunc_div(a, b))),
        ExpressionInfixOpcode::Mod => Some(SpecValue::Int(trunc_rem(a, b))),
        ExpressionInfixOpcode::BitOr => Some(SpecValue::Int(bitwise(BitOp::Or, a, b))),
        ExpressionInfixOpcode::BitAnd => Some(SpecValue::Int(bitwise(BitOp::And, a, b))),
        ExpressionInfixOpcode::BitXor => Some(SpecValue::Int(bitwise(BitOp::Xor, a, b))),
        ExpressionInfixOpcode::ShiftL => Some(SpecValue::Int(a * pow2(b as nat))),
        ExpressionInfixOpcode::ShiftR => Some(SpecValue::Int(a / (pow2(b as nat) as int))),
        ExpressionInfixOpcode::Lesser => Some(SpecValue::Bool(trunc_rem(a, p) < trunc_rem(b, p))),
        ExpressionInfixOpcode::Greater => Some(SpecValue::Bool(trunc_rem(a, p) > trunc_rem(b, p))),
        ExpressionInfixOpcode::LesserEq => Some(SpecValue::Bool(trunc_rem(a, p) <= trunc_rem(b, p))),
        ExpressionInfixOpcode::GreaterEq => Some(SpecValue::Bool(trunc_rem(a, p) >= trunc_rem(b, p))),
        ExpressionInfixOpcode::Eq => Some(SpecValue::Bool(trunc_rem(a, p) == trunc_rem(b, p))),
        ExpressionInfixOpcode::NotEq => Some(SpecValue::Bool(trunc_rem(a, p) != trunc_rem(b, p))),
        _ => None,
    }
}

/// The constant that a binary operator gives on two boolean constants, or `None`.
pub open spec fn fold_bool_binop(op: ExpressionInfixOpcode, a: bool, b: bool) -> Option<SpecValue> {
    match op {
        ExpressionInfixOpcode::BoolAnd => Some(SpecValue::Bool(a && b)),
        ExpressionInfixOpcode::BoolOr => Some(SpecValue::Bool(a || b)),
        _ => None,
    }
}

/// Constant folding of a binary operator modulo `p`: the constant it gives on two constants,
/// and the operation itself, unevaluated, otherwise.
pub open spec fn fold_binop(op: ExpressionInfixOpcode, l: SpecValue, r: SpecValue, p: int) -> SpecValue {
    let folded = match (l, r) {
        (SpecValue::Int(a), SpecValue::Int(b)) => fold_int_binop(op, a, b, p),
        (SpecValue::Bool(a), SpecValue::Bool(b)) => fold_bool_binop(op, a, b),
        _ => None,
    };
    match folded {
        Some(v) => v,
        None => SpecValue::BinaryOp(Box::new(l), op, Box::new(r)),
    }
}

/// The operand values on which folding a binary operator is defined: integer division and
/// remainder need a nonzero divisor, shifts need an amount in `0..=usize::MAX`.
pub open spec fn binop_defined(op: ExpressionInfixOpcode, l: SpecValue, r: SpecValue) -> bool {
    match (l, r) {
        (SpecValue::Int(_), SpecValue::Int(b)) => match op {
            ExpressionInfixOpcode::IntDiv | ExpressionInfixOpcode::Mod => b != 0,
            ExpressionInfixOpcode::ShiftL | ExpressionInfixOpcode::ShiftR => 0 <= b <= usize::MAX,
            _ => true,
        },
        _ => true,
    }
}

/// The multiplier that field division uses for the divisor `rv`.
fn field_inverse(prime: &BigNum, rv: &BigNum) -> (r: BigNum)
    requires
        prime@ != 0,
    ensures
        r@ == spec_field_inverse(prime@, rv@),
{
    let mut r = prime.copy();
    let mut new_r = rv.copy();
    if big_is_negative(&r) {
        r = big_add(&r, prime);
    }
    if big_is_negative(&new_r) {
        new_r = big_add(&new_r, prime);
    }
    let (_, _, t) = extended_euclidean(r, new_r);
    let mut rv_inv = big_rem(&t, prime);
    if big_is_negative(&rv_inv) {
        rv_inv = big_add(&rv_inv, prime);
    }
    rv_inv
}

/// Folds an operator applied to two integer constants, modulo `prime`.
pub(crate) fn fold_int_constants(lv: &BigNum, rv: &BigNum, prime: &BigNum, op: ExpressionInfixOpcode) -> (r: Option<SymbolicValue>)
    requires
        prime@ != 0,
        binop_defined(op, SpecValue::Int(lv@), SpecValue::Int(rv@)),
    ensures
        match r {
            Some(v) => fold_int_binop(op, lv@, rv@, prime@) == Some(v@),
            None => fold_int_binop(op, lv@, rv@, prime@) is None,
        },
{
    match op {
        ExpressionInfixOpcode::Add => Some(SymbolicValue::ConstantInt(big_rem(&big_add(lv, rv), prime))),
        ExpressionInfixOpcode::Sub => Some(SymbolicValue::ConstantInt(big_rem(&big_sub(lv, rv), prime))),
        ExpressionInfixOpcode::Mul => Some(SymbolicValue::ConstantInt(big_rem(&big_mul(lv, rv), prime))),
        ExpressionInfixOpcode::Div => {
            if big_is_zero(rv) {
                Some(SymbolicValue::ConstantInt(BigNum::from_i64(0)))
            } else {
                let inv = field_inverse(prime, rv);
                Some(SymbolicValue::ConstantInt(big_rem(&big_mul(lv, &inv), prime)))
            }
        },
        ExpressionInfixOpcode::IntDiv => Some(SymbolicValue::ConstantInt(big_div(lv, rv))),
        ExpressionInfixOpcode::Mod => Some(SymbolicValue::ConstantInt(big_rem(lv, rv))),
        ExpressionInfixOpcode::BitOr => Some(SymbolicValue::ConstantInt(big_bitor(lv, rv))),
        ExpressionInfixOpcode::BitAnd => Some(SymbolicValue::ConstantInt(big_bitand(lv, rv))),
        ExpressionInfixOpcode::BitXor => Some(SymbolicValue::ConstantInt(big_bitxor(lv, rv))),
        ExpressionInfixOpcode::ShiftL => {
            let n = big_to_usize(rv);
            match n {
                Some(k) => Some(SymbolicValue::ConstantInt(big_shl(lv, k))),
                None => None,
            }
        },
        ExpressionInfixOpcode::ShiftR => {
            let n = big_to_usize(rv);
            match n {
                Some(k) => Some(SymbolicValue::ConstantInt(big_shr(lv, k))),
                None => None,
            }
        },
        ExpressionInfixOpcode::Lesser => {
            Some(SymbolicValue::ConstantBool(big_lt(&big_rem(lv, prime), &big_rem(rv, prime))))
        },
        ExpressionInfixOpcode::Greater => {
            Some(SymbolicValue::ConstantBool(big_lt(&big_rem(rv, prime), &big_rem(lv, prime))))
        },
        ExpressionInfixOpcode::LesserEq => {
            Some(SymbolicValue::ConstantBool(!big_lt(&big_rem(rv, prime), &big_rem(lv, prime))))
        },
        ExpressionInfixOpcode::GreaterEq => {
            Some(SymbolicValue::ConstantBool(!big_lt(&big_rem(lv, prime), &big_rem(rv, prime))))
        },
        ExpressionInfixOpcode::Eq => {
            Some(SymbolicValue::ConstantBool(big_eq(&big_rem(lv, prime), &big_rem(rv, prime))))
        },
        ExpressionInfixOpcode::NotEq => {
            Some(SymbolicValue::ConstantBool(!big_eq(&big_rem(lv, prime), &big_rem(rv, prime))))
        },
        _ => None,
    }
}

/// Evaluates a binary operator on two symbolic values modulo `prime`: on two constants it
/// gives the constant result, otherwise the operation itself, unevaluated.
pub fn evaluate_binary_op(
    lhs: &SymbolicValue,
    rhs: &SymbolicValue,
    prime: &BigNum,
    op: &DebugExpressionInfixOpcode,
) -> (r: SymbolicValue)
    requires
        prime@ != 0,
        binop_defined(op.0, lhs@, rhs@),
    ensures
        r@ == fold_binop(op.0, lhs@, rhs@, prime@),
{
    let folded = match (lhs, rhs) {
        (SymbolicValue::ConstantInt(lv), SymbolicValue::ConstantInt(rv)) => fold_int_constants(
            lv,
            rv,
            prime,
            op.0,
        ),
        (SymbolicValue::ConstantBool(lv), SymbolicValue::ConstantBool(rv)) => match op.0 {
            ExpressionInfixOpcode::BoolAnd => Some(SymbolicValue::ConstantBool(*lv && *rv)),
            ExpressionInfixOpcode::BoolOr => Some(SymbolicValue::ConstantBool(*lv || *rv)),
            _ => None,
        },
        _ => None,
    };
    match folded {
        Some(v) => v,
        None => SymbolicValue::BinaryOp(Rc::new(lhs.copy()), *op, Rc::new(rhs.copy())),
    }
}

/// Whether folding a binary operator is defined on the two values.
pub fn binop_is_defined(op: ExpressionInfixOpcode, lhs: &SymbolicValue, rhs: &SymbolicValue) -> (r: bool)
    ensures
        r == binop_defined(op, lhs@, rhs@),
{
    match (lhs, rhs) {
        (SymbolicValue::ConstantInt(_), SymbolicValue::ConstantInt(rv)) => match op {
            ExpressionInfixOpcode::IntDiv | ExpressionInfixOpcode::Mod => !big_is_zero(rv),
            ExpressionInfixOpcode::ShiftL | ExpressionInfixOpcode::ShiftR => big_to_usize(rv).is_some(),
            _ => true,
        },
        _ => true,
    }
}

/// Field division undoes multiplication: where the divisor is invertible modulo a positive
/// modulus (the Euclidean algorithm on the modulus and the divisor, brought into range, ends in
/// `1`), the quotient times the divisor is congruent to the dividend.
pub proof fn law_division_inverts_multiplication(a: int, b: int, p: int)
    requires
        p > 0,
        b != 0,
        ext_euclid(p, if b < 0 { b + p } else { b }).0 == 1,
    ensures
        fold_int_binop(ExpressionInfixOpcode::Div, a, b, p) matches Some(SpecValue::Int(q)) && (q * b - a) % p == 0,
{
    let b0 = if b < 0 { b + p } else { b };
    let (g, s, t) = ext_euclid(p, b0);
    lemma_bezout(p, b0);
    assert(1 == p * s + b0 * t);
    lemma_trunc_div_rem(t, p);
    let t1 = trunc_rem(t, p);
    let inv = spec_field_inverse(p, b);
    assert(inv == if t1 < 0 { t1 + p } else { t1 });
    let m1 = if t1 < 0 { 1 - trunc_div(t, p) } else { -trunc_div(t, p) };
    assert(inv == t + p * m1) by (nonlinear_arith)
        requires
            t == p * trunc_div(t, p) + t1,
            inv == if t1 < 0 { t1 + p } else { t1 },
            m1 == if t1 < 0 { 1 - trunc_div(t, p) } else { -trunc_div(t, p) },
    ;
    lemma_trunc_div_rem(a * inv, p);
    let q = trunc_rem(a * inv, p);
    let d2 = trunc_div(a * inv, p);
    let m2 = -d2;
    assert(q == a * inv + p * m2) by (nonlinear_arith)
        requires
            a * inv == p * d2 + q,
            m2 == -d2,
    ;
    let m3: int = if b < 0 { 1 } else { 0 };
    assert(b0 == b + p * m3);
    let y = t * b;
    assert(y == 1 - p * (s + m3 * t)) by (nonlinear_arith)
        requires
            1 == p * s + b0 * t,
            b0 == b + p * m3,
            y == t * b,
    ;
    let x = inv * b;
    assert(x == y + p * (m1 * b)) by (nonlinear_arith)
        requires
            inv == t + p * m1,
            x == inv * b,
            y == t * b,
    ;
    let k = a * (m1 * b - s - m3 * t) + m2 * b;
    assert(q * b == a * x + p * (m2 * b)) by (nonlinear_arith)
        requires
            q == a * inv + p * m2,
            x == inv * b,
    ;
    assert(a * x == a + p * (a * (m1 * b - s - m3 * t))) by (nonlinear_arith)
        requires
            x == y + p * (m1 * b),
            y == 1 - p * (s + m3 * t),
    ;
    assert(q * b - a == k * p) by (nonlinear_arith)
        requires
            q * b == a * x + p * (m2 * b),
            a * x == a + p * (a * (m1 * b - s - m3 * t)),
            k == a * (m1 * b - s - m3 * t) + m2 * b,
    ;
    lemma_mod_multiples_basic(k, p);
}

/// Folding a comparison of two integer constants compares their remainders modulo `p`:
/// `a < b`, `a > b`, `a <= b`, `a >= b`, `a == b` and `a != b` each hold exactly when the
/// same relation holds between `a % p` and `b % p`. So `>=` is the negation of `<` and `<=`
/// that of `>`, `!=` that of `==`; `>` and `>=` are `<` and `<=` with the operands swapped;
/// and a constant is `<=`, `>=` and `==` to itself, but not `<`, `>` or `!=` to it.
pub proof fn law_fold_comparisons(a: int, b: int, p: int)
    requires
        p != 0,
    ensures
        fold_binop(ExpressionInfixOpcode::Lesser, SpecValue::Int(a), SpecValue::Int(b), p)
            == SpecValue::Bool(trunc_rem(a, p) < trunc_rem(b, p)),
        fold_binop(ExpressionInfixOpcode::Greater, SpecValue::Int(a), SpecValue::Int(b), p)
            == SpecValue::Bool(trunc_rem(a, p) > trunc_rem(b, p)),
        fold_binop(ExpressionInfixOpcode::LesserEq, SpecValue::Int(a), SpecValue::Int(b), p)
            == SpecValue::Bool(trunc_rem(a, p) <= trunc_rem(b, p)),
        fold_binop(ExpressionInfixOpcode::GreaterEq, SpecValue::Int(a), SpecValue::Int(b), p)
            == SpecValue::Bool(trunc_rem(a, p) >= trunc_rem(b, p)),
        fold_binop(ExpressionInfixOpcode::Eq, SpecValue::Int(a), SpecValue::Int(b), p)
            == SpecValue::Bool(trunc_rem(a, p) == trunc_rem(b, p)),
        fold_binop(ExpressionInfixOpcode::NotEq, SpecValue::Int(a), SpecValue::Int(b), p)
            == SpecValue::Bool(trunc_rem(a, p) != trunc_rem(b, p)),
        fold_binop(ExpressionInfixOpcode::GreaterEq, SpecValue::Int(a), SpecValue::Int(b), p)
            == SpecValue::Bool(!(fold_binop(ExpressionInfixOpcode::Lesser, SpecValue::Int(a), SpecValue::Int(b), p) == SpecValue::Bool(true))),
        fold_binop(ExpressionInfixOpcode::LesserEq, SpecValue::Int(a), SpecValue::Int(b), p)
            == SpecValue::Bool(!(fold_binop(ExpressionInfixOpcode::Greater, SpecValue::Int(a), SpecValue::Int(b), p) == SpecValue::Bool(true))),
        fold_binop(ExpressionInfixOpcode::NotEq, SpecValue::Int(a), SpecValue::Int(b), p)
            == SpecValue::Bool(!(fold_binop(ExpressionInfixOpcode::Eq, SpecValue::Int(a), SpecValue::Int(b), p) == SpecValue::Bool(true))),
        fold_binop(ExpressionInfixOpcode::Greater, SpecValue::Int(a), SpecValue::Int(b), p)
            == fold_binop(ExpressionInfixOpcode::Lesser, SpecValue::Int(b), SpecValue::Int(a), p),
        fold_binop(ExpressionInfixOpcode::GreaterEq, SpecValue::Int(a), SpecValue::Int(b), p)
            == fold_binop(ExpressionInfixOpcode::LesserEq, SpecValue::Int(b), SpecValue::Int(a), p),
        fold_binop(ExpressionInfixOpcode::Eq, SpecValue::Int(a), SpecValue::Int(b), p)
            == fold_binop(ExpressionInfixOpcode::Eq, SpecValue::Int(b), SpecValue::Int(a), p),
        fold_binop(ExpressionInfixOpcode::LesserEq, SpecValue::Int(a), SpecValue::Int(a), p) == SpecValue::Bool(true),
        fold_binop(ExpressionInfixOpcode::GreaterEq, SpecValue::Int(a), SpecValue::Int(a), p) == SpecValue::Bool(true),
        fold_binop(ExpressionInfixOpcode::Eq, SpecValue::Int(a), SpecValue::Int(a), p) == SpecValue::Bool(true),
        fold_binop(ExpressionInfixOpcode::Lesser, SpecValue::Int(a), SpecValue::Int(a), p) == SpecValue::Bool(false),
        fold_binop(ExpressionInfixOpcode::Greater, SpecValue::Int(a), SpecValue::Int(a), p) == SpecValue::Bool(false),
        fold_binop(ExpressionInfixOpcode::NotEq, SpecValue::Int(a), SpecValue::Int(a), p) == SpecValue::Bool(false),
{
}

/// Folding addition, subtraction and multiplication of two integer constants gives the
/// remainder modulo `p` of their sum, difference and product; addition and multiplication
/// do not depend on the order of the operands, and subtracting a constant from itself gives
/// zero.
pub proof fn law_fold_arithmetic(a: int, b: int, p: int)
    requires
        p != 0,
    ensures
        fold_binop(ExpressionInfixOpcode::Add, SpecValue::Int(a), SpecValue::Int(b), p) == SpecValue::Int(trunc_rem(a + b, p)),
        fold_binop(ExpressionInfixOpcode::Sub, SpecValue::Int(a), SpecValue::Int(b), p) == SpecValue::Int(trunc_rem(a - b, p)),
        fold_binop(ExpressionInfixOpcode::Mul, SpecValue::Int(a), SpecValue::Int(b), p) == SpecValue::Int(trunc_rem(a * b, p)),
        fold_binop(ExpressionInfixOpcode::Add, SpecValue::Int(a), SpecValue::Int(b), p)
            == fold_binop(ExpressionInfixOpcode::Add, SpecValue::Int(b), SpecValue::Int(a), p),
        fold_binop(ExpressionInfixOpcode::Mul, SpecValue::Int(a), SpecValue::Int(b), p)
            == fold_binop(ExpressionInfixOpcode::Mul, SpecValue::Int(b), SpecValue::Int(a), p),
        fold_binop(ExpressionInfixOpcode::Sub, SpecValue::Int(a), SpecValue::Int(a), p) == SpecValue::Int(0),
{
    assert(a * b == b * a) by (nonlinear_arith);
    lemma_mod_multiples_basic(0, abs(p));
    assert(0 * abs(p) == 0);
}

/// Folding `&&` and `||` of two boolean constants gives their conjunction and disjunction.
pub proof fn law_fold_connectives(a: bool, b: bool, p: int)
    ensures
        fold_binop(ExpressionInfixOpcode::BoolAnd, SpecValue::Bool(a), SpecValue::Bool(b), p) == SpecValue::Bool(a && b),
        fold_binop(ExpressionInfixOpcode::BoolOr, SpecValue::Bool(a), SpecValue::Bool(b), p) == SpecValue::Bool(a || b),
{
}

/// Folding integer division and remainder of two integer constants, the divisor nonzero,
/// gives a quotient and a remainder that recompose the dividend, the remainder smaller than
/// the divisor in absolute value and, unless zero, of the dividend's sign.
pub proof fn law_fold_integer_division(a: int, b: int, p: int)
    requires
        b != 0,
    ensures
        fold_binop(ExpressionInfixOpcode::IntDiv, SpecValue::Int(a), SpecValue::Int(b), p) matches SpecValue::Int(q)
            && fold_binop(ExpressionInfixOpcode::Mod, SpecValue::Int(a), SpecValue::Int(b), p) matches SpecValue::Int(r)
            && a == b * q + r && abs(r) < abs(b) && (r == 0 || (r < 0) == (a < 0)),
{
    lemma_trunc_div_rem(a, b);
}

} // verus!
