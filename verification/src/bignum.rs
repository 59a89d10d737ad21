//! Arbitrary-precision signed integers.
//!
//! `BigNum` keeps the two's complement little-endian bytes of a number; every
//! arithmetic operation is carried out by `num_bigint_dig::BigInt`, and the
//! contract of each operation states its result over the mathematical value.
use num_bigint_dig::BigInt;
use num_bigint_dig::RandBigInt;
use rand::rngs::StdRng;
use num_traits::cast::ToPrimitive;
use num_traits::Signed;
use num_traits::Zero;
use vstd::arithmetic::power2::pow2;
use crate::pretty::int_text;
use vstd::prelude::*;
use vstd::std_specs::cmp::PartialEqSpecImpl;

verus! {

/// Value of a little-endian byte string read as an unsigned number.
pub open spec fn unsigned_le(bytes: Seq<u8>) -> nat
    decreases bytes.len(),
{
    if bytes.len() == 0 {
        0
    } else {
        bytes[0] as nat + 256 * unsigned_le(bytes.drop_first())
    }
}

/// 256 raised to the `n`-th power.
pub open spec fn pow256(n: nat) -> nat
    decreases n,
{
    if n == 0 {
        1
    } else {
        256 * pow256((n - 1) as nat)
    }
}

/// Value of a little-endian two's complement byte string; the empty string is zero.
pub open spec fn signed_le(bytes: Seq<u8>) -> int {
    if bytes.len() == 0 {
        0
    } else if bytes.last() >= 128 {
        unsigned_le(bytes) - pow256(bytes.len())
    } else {
        unsigned_le(bytes) as int
    }
}

/// Absolute value.
pub open spec fn abs(a: int) -> int {
    if a < 0 {
        -a
    } else {
        a
    }
}

/// Quotient rounded toward zero (the quotient of `BigInt` division).
pub open spec fn trunc_div(a: int, b: int) -> int {
    let q = abs(a) / abs(b);
    if (a >= 0) == (b >= 0) {
        q
    } else {
        -q
    }
}

/// Remainder whose sign follows the dividend (the remainder of `BigInt` division).
pub open spec fn trunc_rem(a: int, b: int) -> int {
    if a >= 0 {
        abs(a) % abs(b)
    } else {
        -(abs(a) % abs(b))
    }
}

/// The three bitwise connectives.
pub enum BitOp {
    And,
    Or,
    Xor,
}

/// A bitwise connective applied to two bits.
pub open spec fn bit_op(op: BitOp, x: bool, y: bool) -> bool {
    match op {
        BitOp::And => x && y,
        BitOp::Or => x || y,
        BitOp::Xor => x != y,
    }
}

/// Measure used to show that halving a two's complement number ends at 0 or -1.
pub open spec fn bit_measure(a: int) -> nat {
    if a >= 0 {
        a as nat
    } else {
        (-a - 1) as nat
    }
}

/// A bitwise connective applied to two integers read as infinite two's complement bit strings.
pub open spec fn bitwise(op: BitOp, a: int, b: int) -> int
    decreases bit_measure(a) + bit_measure(b),
{
    if (a == 0 || a == -1) && (b == 0 || b == -1) {
        if bit_op(op, a == -1, b == -1) {
            -1
        } else {
            0
        }
    } else {
        2 * bitwise(op, a / 2, b / 2) + if bit_op(op, a % 2 == 1, b % 2 == 1) {
            1int
        } else {
            0int
        }
    }
}

/// An arbitrary-precision signed integer, held as its two's complement bytes.
#[derive(Clone, Debug)]
pub struct BigNum {
    bytes: Vec<u8>,
}

impl View for BigNum {
    type V = int;

    closed spec fn view(&self) -> int {
        signed_le(self.bytes@)
    }
}

/// `BigInt::from(i64)`: the number `v`.
#[verifier::external_body]
fn big_from_i64(v: i64) -> (r: BigNum)
    ensures
        r@ == v,
{
    BigNum { bytes: BigInt::from(v).to_signed_bytes_le() }
}

/// `BigInt::from_signed_bytes_le` followed by `to_signed_bytes_le`: the number that the
/// bytes denote in two's complement, little endian.
#[verifier::external_body]
fn big_from_signed_bytes(bytes: &[u8]) -> (r: BigNum)
    ensures
        r@ == signed_le(bytes@),
{
    BigNum { bytes: BigInt::from_signed_bytes_le(bytes).to_signed_bytes_le() }
}

/// `BigInt::to_signed_bytes_le`: the two's complement little-endian bytes of the number.
#[verifier::external_body]
fn big_to_signed_bytes(a: &BigNum) -> (r: Vec<u8>)
    ensures
        signed_le(r@) == a@,
{
    BigInt::from_signed_bytes_le(&a.bytes).to_signed_bytes_le()
}

/// The value of a run of decimal digits in which underscores are skipped; `None` where any
/// other character occurs.
pub open spec fn digits_value(s: Seq<char>) -> Option<int>
    decreases s.len(),
{
    if s.len() == 0 {
        Some(0)
    } else {
        match digits_value(s.drop_last()) {
            Some(v) => {
                if s.last() == '_' {
                    Some(v)
                } else if '0' <= s.last() <= '9' {
                    Some(v * 10 + (s.last() as int - '0' as int))
                } else {
                    None
                }
            },
            None => None,
        }
    }
}

/// The value of an unsigned decimal numeral: one optional `+` (not followed by another),
/// then at least one character, the first not an underscore, digits and underscores.
pub open spec fn unsigned_decimal(s: Seq<char>) -> Option<int> {
    let body = if s.len() > 0 && s[0] == '+' && !(s.len() > 1 && s[1] == '+') {
        s.drop_first()
    } else {
        s
    };
    if body.len() == 0 || body[0] == '_' {
        None
    } else {
        digits_value(body)
    }
}

/// The value of a signed decimal numeral: an optional `-` before an unsigned numeral (a `-`
/// followed by `+` is no numeral).
pub open spec fn signed_decimal(s: Seq<char>) -> Option<int> {
    if s.len() > 0 && s[0] == '-' {
        let tail = s.drop_first();
        let rest = if tail.len() > 0 && tail[0] == '+' {
            s
        } else {
            tail
        };
        match unsigned_decimal(rest) {
            Some(v) => Some(-v),
            None => None,
        }
    } else {
        unsigned_decimal(s)
    }
}

/// `BigInt::from_str`: the value of a decimal numeral (an optional sign, then digits with
/// underscores between them, as `num-bigint-dig`'s parser reads it), or an error.
#[verifier::external_body]
fn big_from_decimal(text: &str) -> (r: Option<BigNum>)
    ensures
        match r {
            Some(x) => signed_decimal(text@) == Some(x@),
            None => signed_decimal(text@) is None,
        },
{
    match <BigInt as std::str::FromStr>::from_str(text) {
        Ok(v) => Some(BigNum { bytes: v.to_signed_bytes_le() }),
        Err(_) => None,
    }
}

/// `&BigInt + &BigInt`: the sum.
#[verifier::external_body]
pub(crate) fn big_add(a: &BigNum, b: &BigNum) -> (r: BigNum)
    ensures
        r@ == a@ + b@,
{
    let s = BigInt::from_signed_bytes_le(&a.bytes) + BigInt::from_signed_bytes_le(&b.bytes);
    BigNum { bytes: s.to_signed_bytes_le() }
}

/// `&BigInt - &BigInt`: the difference.
#[verifier::external_body]
pub(crate) fn big_sub(a: &BigNum, b: &BigNum) -> (r: BigNum)
    ensures
        r@ == a@ - b@,
{
    let s = BigInt::from_signed_bytes_le(&a.bytes) - BigInt::from_signed_bytes_le(&b.bytes);
    BigNum { bytes: s.to_signed_bytes_le() }
}

/// `&BigInt * &BigInt`: the product.
#[verifier::external_body]
pub(crate) fn big_mul(a: &BigNum, b: &BigNum) -> (r: BigNum)
    ensures
        r@ == a@ * b@,
{
    let s = BigInt::from_signed_bytes_le(&a.bytes) * BigInt::from_signed_bytes_le(&b.bytes);
    BigNum { bytes: s.to_signed_bytes_le() }
}

/// `-BigInt`: the negation.
#[verifier::external_body]
pub(crate) fn big_neg(a: &BigNum) -> (r: BigNum)
    ensures
        r@ == -a@,
{
    let s = -BigInt::from_signed_bytes_le(&a.bytes);
    BigNum { bytes: s.to_signed_bytes_le() }
}

/// `&BigInt / &BigInt`: the quotient rounded toward zero. The divisor is not zero:
/// `BigInt` division panics on zero.
#[verifier::external_body]
pub(crate) fn big_div(a: &BigNum, b: &BigNum) -> (r: BigNum)
    requires
        b@ != 0,
    ensures
        r@ == trunc_div(a@, b@),
{
    let s = &BigInt::from_signed_bytes_le(&a.bytes) / &BigInt::from_signed_bytes_le(&b.bytes);
    BigNum { bytes: s.to_signed_bytes_le() }
}

/// `&BigInt % &BigInt`: the remainder with the sign of the dividend. The divisor is not
/// zero: `BigInt` division panics on zero.
#[verifier::external_body]
pub(crate) fn big_rem(a: &BigNum, b: &BigNum) -> (r: BigNum)
    requires
        b@ != 0,
    ensures
        r@ == trunc_rem(a@, b@),
{
    let s = &BigInt::from_signed_bytes_le(&a.bytes) % &BigInt::from_signed_bytes_le(&b.bytes);
    BigNum { bytes: s.to_signed_bytes_le() }
}

/// `&BigInt & &BigInt`: bitwise and on two's complement.
#[verifier::external_body]
pub(crate) fn big_bitand(a: &BigNum, b: &BigNum) -> (r: BigNum)
    ensures
        r@ == bitwise(BitOp::And, a@, b@),
{
    let s = &BigInt::from_signed_bytes_le(&a.bytes) & &BigInt::from_signed_bytes_le(&b.bytes);
    BigNum { bytes: s.to_signed_bytes_le() }
}

/// `&BigInt | &BigInt`: bitwise or on two's complement.
#[verifier::external_body]
pub(crate) fn big_bitor(a: &BigNum, b: &BigNum) -> (r: BigNum)
    ensures
        r@ == bitwise(BitOp::Or, a@, b@),
{
    let s = &BigInt::from_signed_bytes_le(&a.bytes) | &BigInt::from_signed_bytes_le(&b.bytes);
    BigNum { bytes: s.to_signed_bytes_le() }
}

/// `&BigInt ^ &BigInt`: bitwise exclusive or on two's complement.
#[verifier::external_body]
pub(crate) fn big_bitxor(a: &BigNum, b: &BigNum) -> (r: BigNum)
    ensures
        r@ == bitwise(BitOp::Xor, a@, b@),
{
    let s = &BigInt::from_signed_bytes_le(&a.bytes) ^ &BigInt::from_signed_bytes_le(&b.bytes);
    BigNum { bytes: s.to_signed_bytes_le() }
}

/// `&BigInt << usize`: multiplication by `2^n`.
#[verifier::external_body]
pub(crate) fn big_shl(a: &BigNum, n: usize) -> (r: BigNum)
    ensures
        r@ == a@ * pow2(n as nat),
{
    let s = &BigInt::from_signed_bytes_le(&a.bytes) << n;
    BigNum { bytes: s.to_signed_bytes_le() }
}

/// `&BigInt >> usize`: division by `2^n` rounded toward negative infinity.
#[verifier::external_body]
pub(crate) fn big_shr(a: &BigNum, n: usize) -> (r: BigNum)
    ensures
        r@ == a@ / (pow2(n as nat) as int),
{
    let s = &BigInt::from_signed_bytes_le(&a.bytes) >> n;
    BigNum { bytes: s.to_signed_bytes_le() }
}

/// `ToPrimitive::to_usize`: the number as a `usize` when it lies in `0..=usize::MAX`.
#[verifier::external_body]
pub(crate) fn big_to_usize(a: &BigNum) -> (r: Option<usize>)
    ensures
        match r {
            Some(u) => a@ == u as int,
            None => a@ < 0 || a@ > usize::MAX,
        },
{
    BigInt::from_signed_bytes_le(&a.bytes).to_usize()
}

/// `BigInt < BigInt`.
#[verifier::external_body]
pub(crate) fn big_lt(a: &BigNum, b: &BigNum) -> (r: bool)
    ensures
        r == (a@ < b@),
{
    BigInt::from_signed_bytes_le(&a.bytes) < BigInt::from_signed_bytes_le(&b.bytes)
}

/// `BigInt == BigInt`.
#[verifier::external_body]
pub(crate) fn big_eq(a: &BigNum, b: &BigNum) -> (r: bool)
    ensures
        r == (a@ == b@),
{
    BigInt::from_signed_bytes_le(&a.bytes) == BigInt::from_signed_bytes_le(&b.bytes)
}

/// `Zero::is_zero`.
#[verifier::external_body]
pub(crate) fn big_is_zero(a: &BigNum) -> (r: bool)
    ensures
        r == (a@ == 0),
{
    BigInt::from_signed_bytes_le(&a.bytes).is_zero()
}

/// `Signed::is_negative`.
#[verifier::external_body]
pub(crate) fn big_is_negative(a: &BigNum) -> (r: bool)
    ensures
        r == (a@ < 0),
{
    BigInt::from_signed_bytes_le(&a.bytes).is_negative()
}

/// `RandBigInt::gen_bigint_range`: a number drawn from `lo..hi`, the lower bound included
/// and the upper one excluded; the call panics unless `lo < hi`.
#[verifier::external_body]
pub(crate) fn big_random_range(rng: &mut StdRng, lo: &BigNum, hi: &BigNum) -> (r: BigNum)
    requires
        lo@ < hi@,
    ensures
        lo@ <= r@ < hi@,
{
    let l = BigInt::from_signed_bytes_le(&lo.bytes);
    let h = BigInt::from_signed_bytes_le(&hi.bytes);
    BigNum { bytes: rng.gen_bigint_range(&l, &h).to_signed_bytes_le() }
}

/// `BigInt`'s `Display` (through `to_string`): the decimal digits of the number, after a
/// `-` where it is negative.
#[verifier::external_body]
pub(crate) fn big_to_decimal(a: &BigNum) -> (r: String)
    ensures
        r@ == int_text(a@),
{
    BigInt::from_signed_bytes_le(&a.bytes).to_string()
}

impl BigNum {
    /// The number `v`.
    pub fn from_i64(v: i64) -> (r: BigNum)
        ensures
            r@ == v,
    {
        big_from_i64(v)
    }

    /// The number that a decimal numeral denotes (see `signed_decimal`); `None` where the
    /// text is no numeral.
    pub fn from_decimal(text: &str) -> (r: Option<BigNum>)
        ensures
            match r {
                Some(x) => signed_decimal(text@) == Some(x@),
                None => signed_decimal(text@) is None,
            },
    {
        big_from_decimal(text)
    }

    /// The number that `bytes` denote in two's complement, little endian.
    pub fn from_signed_bytes_le(bytes: &[u8]) -> (r: BigNum)
        ensures
            r@ == signed_le(bytes@),
    {
        big_from_signed_bytes(bytes)
    }

    /// Two's complement little-endian bytes of the number.
    pub fn to_signed_bytes_le(&self) -> (r: Vec<u8>)
        ensures
            signed_le(r@) == self@,
    {
        big_to_signed_bytes(self)
    }

    /// A copy of the number.
    pub fn copy(&self) -> (r: BigNum)
        ensures
            r@ == self@,
    {
        BigNum { bytes: self.bytes.clone() }
    }
}

impl PartialEq for BigNum {
    fn eq(&self, other: &Self) -> (r: bool) {
        big_eq(self, other)
    }
}

impl PartialEqSpecImpl for BigNum {
    open spec fn obeys_eq_spec() -> bool {
        true
    }

    open spec fn eq_spec(&self, other: &BigNum) -> bool {
        self@ == other@
    }
}

} // verus!
