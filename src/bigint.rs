//! Arbitrary-precision integers, provided by `num_bigint`, seen through their value.

use vstd::prelude::*;
use num_bigint::BigInt;

verus! {

#[verifier::external_type_specification]
#[verifier::external_body]
pub struct ExBigInt(num_bigint::BigInt);

/// The mathematical integer that a `BigInt` holds.
pub uninterp spec fn big_value(b: BigInt) -> int;

/// Absolute value.
pub open spec fn abs(a: int) -> int {
    if a < 0 { -a } else { a }
}

/// Division rounding toward zero, as Rust's integer `/` does.
pub open spec fn tdiv(a: int, b: int) -> int {
    if (a < 0) == (b < 0) { abs(a) / abs(b) } else { -(abs(a) / abs(b)) }
}

/// Remainder of `tdiv`: it takes the sign of the dividend, as Rust's `%` does.
pub open spec fn trem(a: int, b: int) -> int {
    a - b * tdiv(a, b)
}

/// The values of a sequence of big integers.
pub open spec fn values(s: Seq<BigInt>) -> Seq<int> {
    Seq::new(s.len(), |i: int| big_value(s[i]))
}

pub proof fn lemma_values_push(s: Seq<BigInt>, x: BigInt)
    ensures
        values(s.push(x)) == values(s).push(big_value(x)),
        values(s).len() == s.len(),
{
    assert(values(s.push(x)) =~= values(s).push(big_value(x)));
}

pub proof fn lemma_values_update(s: Seq<BigInt>, i: int, x: BigInt)
    requires
        0 <= i < s.len(),
    ensures
        values(s.update(i, x)) == values(s).update(i, big_value(x)),
{
    assert(values(s.update(i, x)) =~= values(s).update(i, big_value(x)));
}

pub proof fn lemma_values_drop_last(s: Seq<BigInt>)
    requires
        s.len() > 0,
    ensures
        values(s.drop_last()) == values(s).drop_last(),
{
    assert(values(s.drop_last()) =~= values(s).drop_last());
}

/// Relies on `From<i64> for BigInt`: the same value.
#[verifier::external_body]
pub fn big_from_i64(v: i64) -> (r: BigInt)
    ensures
        big_value(r) == v as int,
{
    BigInt::from(v)
}

/// Relies on `From<u64> for BigInt`: the same value.
#[verifier::external_body]
pub fn big_from_u64(v: u64) -> (r: BigInt)
    ensures
        big_value(r) == v as int,
{
    BigInt::from(v)
}

/// Relies on `Clone for BigInt`: the same value.
#[verifier::external_body]
pub fn big_clone(a: &BigInt) -> (r: BigInt)
    ensures
        big_value(r) == big_value(*a),
{
    a.clone()
}

/// Relies on `Add<&BigInt> for &BigInt`: the exact sum.
#[verifier::external_body]
pub fn big_add(a: &BigInt, b: &BigInt) -> (r: BigInt)
    ensures
        big_value(r) == big_value(*a) + big_value(*b),
{
    a + b
}

/// Relies on `Sub<&BigInt> for &BigInt`: the exact difference.
#[verifier::external_body]
pub fn big_sub(a: &BigInt, b: &BigInt) -> (r: BigInt)
    ensures
        big_value(r) == big_value(*a) - big_value(*b),
{
    a - b
}

/// Relies on `Mul<&BigInt> for &BigInt`: the exact product.
#[verifier::external_body]
pub fn big_mul(a: &BigInt, b: &BigInt) -> (r: BigInt)
    ensures
        big_value(r) == big_value(*a) * big_value(*b),
{
    a * b
}

/// Relies on `Neg for &BigInt`: the negated value.
#[verifier::external_body]
pub fn big_neg(a: &BigInt) -> (r: BigInt)
    ensures
        big_value(r) == -big_value(*a),
{
    -a
}

/// Relies on `Div<&BigInt> for &BigInt`, which rounds toward zero and panics on a zero divisor.
#[verifier::external_body]
pub fn big_div(a: &BigInt, b: &BigInt) -> (r: BigInt)
    requires
        big_value(*b) != 0,
    ensures
        big_value(r) == tdiv(big_value(*a), big_value(*b)),
{
    a / b
}

/// Relies on `Rem<&BigInt> for &BigInt`: the remainder of the division that rounds toward
/// zero; it panics on a zero divisor.
#[verifier::external_body]
pub fn big_rem(a: &BigInt, b: &BigInt) -> (r: BigInt)
    requires
        big_value(*b) != 0,
    ensures
        big_value(r) == trem(big_value(*a), big_value(*b)),
{
    a % b
}

/// Relies on `PartialOrd for BigInt`: comparison of the values.
#[verifier::external_body]
pub fn big_lt(a: &BigInt, b: &BigInt) -> (r: bool)
    ensures
        r == (big_value(*a) < big_value(*b)),
{
    a < b
}

/// Relies on `PartialEq for BigInt`: equality of the values.
#[verifier::external_body]
pub fn big_eq(a: &BigInt, b: &BigInt) -> (r: bool)
    ensures
        r == (big_value(*a) == big_value(*b)),
{
    a == b
}

/// Relies on `ToPrimitive::to_u64 for BigInt`: `Some` exactly when the value fits in a `u64`.
#[verifier::external_body]
pub fn big_to_u64(a: &BigInt) -> (r: Option<u64>)
    ensures
        r.is_some() <==> 0 <= big_value(*a) <= u64::MAX,
        r.is_some() ==> r.unwrap() as int == big_value(*a),
{
    num_traits::ToPrimitive::to_u64(a)
}

/// Euclidean remainder of a big integer by a positive modulus: the value in `[0, m)`.
pub fn big_mod(a: &BigInt, m: &BigInt) -> (r: BigInt)
    requires
        big_value(*m) > 0,
    ensures
        big_value(r) == big_value(*a) % big_value(*m),
{
    let t = big_rem(a, m);
    let zero = big_from_u64(0);
    proof { lemma_trem_euclid(big_value(*a), big_value(*m)); }
    if big_lt(&t, &zero) { big_add(&t, m) } else { t }
}

/// Euclidean remainder of a big integer by a positive modulus, as a value below it.
pub fn big_mod_u64(a: &BigInt, m: u64) -> (r: u64)
    requires
        m > 0,
    ensures
        r as int == big_value(*a) % (m as int),
{
    let mb = big_from_u64(m);
    let pos = big_mod(a, &mb);
    proof { vstd::arithmetic::div_mod::lemma_mod_bound(big_value(*a), m as int); }
    match big_to_u64(&pos) {
        Some(v) => v,
        None => 0,
    }
}

/// For a positive divisor, the truncated remainder is the Euclidean one, shifted by the
/// divisor when it is negative.
pub proof fn lemma_trem_euclid(a: int, m: int)
    requires
        m > 0,
    ensures
        -m < trem(a, m) < m,
        a >= 0 ==> trem(a, m) == a % m,
        trem(a, m) >= 0 ==> trem(a, m) == a % m,
        trem(a, m) < 0 ==> trem(a, m) + m == a % m,
{
    if a >= 0 {
        assert(tdiv(a, m) == a / m);
        vstd::arithmetic::div_mod::lemma_fundamental_div_mod(a, m);
    } else {
        assert(tdiv(a, m) == -((-a) / m));
        vstd::arithmetic::div_mod::lemma_fundamental_div_mod(-a, m);
        let qq = (-a) / m;
        let rr = (-a) % m;
        assert(-a == m * qq + rr);
        assert(trem(a, m) == -rr) by (nonlinear_arith)
            requires a == -(m * qq + rr), trem(a, m) == a - m * (-qq);
        if rr == 0 {
            assert(a == (-qq) * m + 0) by (nonlinear_arith)
                requires a == -(m * qq + rr), rr == 0;
            vstd::arithmetic::div_mod::lemma_fundamental_div_mod_converse(a, m, -qq, 0);
        } else {
            assert(a == (-qq - 1) * m + (m - rr)) by (nonlinear_arith)
                requires a == -(m * qq + rr);
            vstd::arithmetic::div_mod::lemma_fundamental_div_mod_converse(a, m, -qq - 1, m - rr);
        }
    }
}

} // verus!
