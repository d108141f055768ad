//! Polynomials with big-integer coefficients in Z[X]/(X^N+1).

use vstd::prelude::*;
use num_bigint::BigInt;
use crate::bigint::{
    big_add, big_clone, big_div, big_mod, big_eq, big_from_i64, big_from_u64, big_lt, big_mul, big_neg,
    big_rem, big_sub, big_value, tdiv, lemma_trem_euclid, lemma_values_drop_last, lemma_values_push, lemma_values_update, trem,
    values,
};
use crate::crt::Crt;
use crate::ring::{
    centered, coef_at, conv, lemma_cyc_len, max_abs, pdiv, pmod_euclid, pscale, conv_len, conv_upto, cyc, fold_last, max_len, padd, pmod, pmul, pneg,
    psub,
    zip_add, zip_sub,
};

verus! {

/// Maps `num` to its representative modulo `q` in the centered interval (-q/2, q/2].
pub fn mod_ring(num: &BigInt, q: &BigInt) -> (r: BigInt)
    requires
        big_value(*q) > 0,
    ensures
        big_value(r) == centered(big_value(*num), big_value(*q)),
{
    let qv = Ghost(big_value(*q));
    let t = big_rem(num, q);
    let t = big_add(&t, q);
    let t = big_rem(&t, q);
    proof {
        let x = big_value(*num);
        let qq = qv@;
        lemma_trem_euclid(x, qq);
        let r1 = trem(x, qq);
        lemma_trem_euclid(r1 + qq, qq);
        vstd::arithmetic::div_mod::lemma_mod_bound(x, qq);
        if r1 < 0 {
            assert(r1 + qq == x % qq);
            vstd::arithmetic::div_mod::lemma_mod_twice(x, qq);
            assert((r1 + qq) % qq == x % qq);
        } else {
            assert(r1 == x % qq);
            vstd::arithmetic::div_mod::lemma_mod_add_multiples_vanish(r1, qq);
            vstd::arithmetic::div_mod::lemma_small_mod(r1 as nat, qq as nat);
            assert((r1 + qq) % qq == x % qq);
        }
        assert(big_value(t) == x % qq);
    }
    let two = big_from_u64(2);
    let half = big_div(q, &two);
    assert(big_value(half) == big_value(*q) / 2);
    if big_lt(&half, &t) {
        big_sub(&t, q)
    } else {
        t
    }
}

/// Reduction to the centered representative, as a method of the integer type.
pub trait Modulo: Sized {
    /// The integer that the value stands for.
    spec fn int_value(&self) -> int;

    fn mod_ring(&self, q: &Self) -> (r: Self)
        requires
            q.int_value() > 0,
        ensures
            r.int_value() == centered(self.int_value(), q.int_value()),
    ;
}

impl Modulo for BigInt {
    open spec fn int_value(&self) -> int {
        big_value(*self)
    }

    fn mod_ring(&self, q: &BigInt) -> (r: BigInt) {
        mod_ring(self, q)
    }
}

/// A polynomial of Z[X]/(X^N+1), N being `poly_degree`, with big-integer coefficients, and
/// optionally a residue-number-system context that multiplication uses.
#[derive(Debug)]
pub struct PolynomialRing<'a> {
    pub coef: Vec<BigInt>,
    pub poly_degree: usize,
    pub crt: Option<&'a Crt>,
}

impl<'a> View for PolynomialRing<'a> {
    type V = Seq<int>;

    open spec fn view(&self) -> Seq<int> {
        values(self.coef@)
    }
}

/// The product of `a` and `b` in Z[X]/(X^n+1) as `mul` computes it with the context `ctx`:
/// by the schoolbook method without one, through the residue channels with one.
pub open spec fn mul_seq(ctx: Option<&Crt>, a: Seq<int>, b: Seq<int>, n: nat) -> Seq<int> {
    match ctx {
        Some(c) => if crt_fits(c, a, b) {
            c.crt_product(a, b)
        } else {
            pmul(a, b, n)
        },
        None => pmul(a, b, n),
    }
}

/// The coefficients of the product are bounded so that the residue channels do not wrap:
/// `2 N max|a| max|b| < Q`.
pub open spec fn crt_fits(c: &Crt, a: Seq<int>, b: Seq<int>) -> bool {
    2 * (c.degree_spec() as int) * max_abs(a) * max_abs(b) < c.modulus_spec()
}

/// The largest absolute value of a coefficient.
fn max_abs_big(v: &Vec<BigInt>) -> (r: BigInt)
    ensures
        big_value(r) == max_abs(values(v@)),
{
    let mut m = big_from_i64(0);
    let zero = big_from_i64(0);
    let mut i: usize = 0;
    while i < v.len()
        invariant
            i <= v@.len(),
            big_value(zero) == 0,
            big_value(m) == max_abs(values(v@).subrange(0, i as int)),
        decreases v@.len() - i,
    {
        let x = if big_lt(&v[i], &zero) { big_neg(&v[i]) } else { big_clone(&v[i]) };
        proof {
            let s = values(v@).subrange(0, i + 1);
            assert(s.drop_last() =~= values(v@).subrange(0, i as int));
            assert(s.last() == big_value(v@[i as int]));
        }
        if big_lt(&m, &x) {
            m = x;
        }
        i = i + 1;
    }
    assert(values(v@).subrange(0, i as int) =~= values(v@));
    m
}

/// Relies on `rand::distributions::Uniform` over `low..high` with the thread-local
/// generator: a value in `[low, high)`; `Uniform::from` panics unless `low < high`.
#[verifier::external_body]
fn sample_i64(low: i64, high: i64) -> (r: i64)
    requires
        low < high,
    ensures
        low <= r < high,
{
    let mut rng = rand::thread_rng();
    rand::distributions::Distribution::sample(&rand::distributions::Uniform::from(low..high), &mut rng)
}

/// Relies on `num_bigint::RandBigInt::gen_bigint_range` with the thread-local generator: a
/// value in `[low, high)`; it panics unless `low < high`.
#[verifier::external_body]
fn sample_range(low: &BigInt, high: &BigInt) -> (r: BigInt)
    requires
        big_value(*low) < big_value(*high),
    ensures
        big_value(*low) <= big_value(r) < big_value(*high),
{
    let mut rng = rand::thread_rng();
    num_bigint::RandBigInt::gen_bigint_range(&mut rng, low, high)
}

impl<'a> PartialEq for PolynomialRing<'a> {
    /// Equal coefficient sequences and degree bounds; the context is not compared.
    fn eq(&self, other: &Self) -> (r: bool) {
        if self.poly_degree != other.poly_degree || self.coef.len() != other.coef.len() {
            assert(self@.len() == self.coef@.len() && other@.len() == other.coef@.len());
            return false;
        }
        let mut i: usize = 0;
        while i < self.coef.len()
            invariant
                self.coef@.len() == other.coef@.len(),
                i <= self.coef@.len(),
                forall|j: int| 0 <= j < i ==> #[trigger] self@[j] == other@[j],
            decreases self.coef@.len() - i,
        {
            if !big_eq(&self.coef[i], &other.coef[i]) {
                assert(self@[i as int] != other@[i as int]);
                return false;
            }
            i = i + 1;
        }
        assert(self@ =~= other@);
        true
    }
}

impl<'a> vstd::std_specs::cmp::PartialEqSpecImpl for PolynomialRing<'a> {
    open spec fn obeys_eq_spec() -> bool {
        true
    }

    open spec fn eq_spec(&self, other: &Self) -> bool {
        self@ == other@ && self.poly_degree == other.poly_degree
    }
}

/// A vector of `len` zeros.
fn zeros(len: usize) -> (r: Vec<BigInt>)
    ensures
        values(r@) == Seq::new(len as nat, |i: int| 0int),
        r@.len() == len,
{
    let mut r: Vec<BigInt> = Vec::new();
    let mut i: usize = 0;
    while i < len
        invariant
            i <= len,
            values(r@) == Seq::new(i as nat, |j: int| 0int),
            r@.len() == i,
        decreases len - i,
    {
        let z = big_from_i64(0);
        proof { lemma_values_push(r@, z); }
        r.push(z);
        i = i + 1;
        assert(values(r@) =~= Seq::new(i as nat, |j: int| 0int));
    }
    r
}

impl<'a> PolynomialRing<'a> {
    /// A polynomial of `N = poly_degree` with the given coefficients, lowest degree first.
    pub fn new(poly_degree: usize, coef: Vec<BigInt>) -> (r: Self)
        ensures
            r@ == values(coef@),
            r.poly_degree == poly_degree,
            r.context().is_none(),
    {
        PolynomialRing { coef, poly_degree, crt: None }
    }

    /// The residue-number-system context, if any.
    pub closed spec fn context(&self) -> Option<&'a Crt> {
        self.crt
    }

    /// A polynomial that multiplies through the given context.
    pub fn new_with_crt(poly_degree: usize, coef: Vec<BigInt>, crt: &'a Crt) -> (r: Self)
        ensures
            r@ == values(coef@),
            r.poly_degree == poly_degree,
            r.context() == Some(crt),
    {
        PolynomialRing { coef, poly_degree, crt: Some(crt) }
    }

    /// The same polynomial with the given context attached.
    pub fn add_crt(self, crt: &'a Crt) -> (r: Self)
        ensures
            r@ == self@,
            r.poly_degree == self.poly_degree,
            r.context() == Some(crt),
    {
        PolynomialRing { coef: self.coef, poly_degree: self.poly_degree, crt: Some(crt) }
    }

    /// The same polynomial with the given context, or none.
    pub fn add_option_crt(self, crt: Option<&'a Crt>) -> (r: Self)
        ensures
            r@ == self@,
            r.poly_degree == self.poly_degree,
            r.context() == crt,
    {
        PolynomialRing { coef: self.coef, poly_degree: self.poly_degree, crt }
    }

    /// The context, if any.
    pub fn crt(&self) -> (r: Option<&'a Crt>)
        ensures
            r == self.context(),
    {
        self.crt
    }

    pub fn len(&self) -> (r: usize)
        ensures
            r == self@.len(),
    {
        self.coef.len()
    }

    pub fn is_empty(&self) -> (r: bool)
        ensures
            r == (self@.len() == 0),
    {
        self.coef.len() == 0
    }

    /// A copy with the same coefficients and degree.
    pub fn copy(&self) -> (r: Self)
        ensures
            r@ == self@,
            r.poly_degree == self.poly_degree,
            r.context() == self.context(),
    {
        let mut coef: Vec<BigInt> = Vec::new();
        let mut i: usize = 0;
        while i < self.coef.len()
            invariant
                i <= self.coef.len(),
                values(coef@) == values(self.coef@).subrange(0, i as int),
            decreases self.coef.len() - i,
        {
            let c = big_clone(&self.coef[i]);
            proof { lemma_values_push(coef@, c); }
            coef.push(c);
            i = i + 1;
            assert(values(coef@) =~= values(self.coef@).subrange(0, i as int));
        }
        assert(values(self.coef@).subrange(0, i as int) =~= values(self.coef@));
        PolynomialRing { coef, poly_degree: self.poly_degree, crt: self.crt }
    }

    /// A random polynomial of `size` coefficients, each 0 or 1.
    pub fn rand_binary(poly_degree: usize, size: usize) -> (r: Self)
        ensures
            r@.len() == size,
            forall|i: int| 0 <= i < size ==> #[trigger] r@[i] == 0 || r@[i] == 1,
            r.poly_degree == poly_degree,
            r.context().is_none(),
    {
        let mut coef: Vec<BigInt> = Vec::new();
        let mut i: usize = 0;
        while i < size
            invariant
                i <= size,
                coef@.len() == i,
                forall|j: int| 0 <= j < i ==> #[trigger] big_value(coef@[j]) == 0 || big_value(coef@[j]) == 1,
            decreases size - i,
        {
            let b = sample_i64(0, 2);
            coef.push(big_from_i64(b));
            i = i + 1;
        }
        PolynomialRing { coef, poly_degree, crt: None }
    }

    /// A random polynomial of `size` coefficients, each in `[0, ring)`.
    pub fn rand_uniform(ring: &BigInt, poly_degree: usize, size: usize) -> (r: Self)
        requires
            big_value(*ring) > 0,
        ensures
            r@.len() == size,
            forall|i: int| 0 <= i < size ==> 0 <= #[trigger] r@[i] < big_value(*ring),
            r.poly_degree == poly_degree,
            r.context().is_none(),
    {
        let zero = big_from_i64(0);
        let mut coef: Vec<BigInt> = Vec::new();
        let mut i: usize = 0;
        while i < size
            invariant
                big_value(zero) == 0,
                big_value(*ring) > 0,
                i <= size,
                coef@.len() == i,
                forall|j: int| 0 <= j < i ==> 0 <= #[trigger] big_value(coef@[j]) < big_value(*ring),
            decreases size - i,
        {
            coef.push(sample_range(&zero, ring));
            i = i + 1;
        }
        PolynomialRing { coef, poly_degree, crt: None }
    }

    /// Removes the trailing zero coefficients.
    pub fn clean(self) -> (r: Self)
        ensures
            r.poly_degree == self.poly_degree,
            r.context() == self.context(),
            r@.len() <= self@.len(),
            r@ == self@.subrange(0, r@.len() as int),
            forall|i: int| r@.len() <= i < self@.len() ==> self@[i] == 0,
            r@.len() > 0 ==> r@.last() != 0,
    {
        let ghost orig = self@;
        let mut coef = self.coef;
        let zero = big_from_i64(0);
        while coef.len() > 0 && big_eq(&coef[coef.len() - 1], &zero)
            invariant
                values(coef@) == orig.subrange(0, coef@.len() as int),
                coef@.len() <= orig.len(),
                big_value(zero) == 0,
                forall|i: int| coef@.len() <= i < orig.len() ==> orig[i] == 0,
            decreases coef.len(),
        {
            proof {
                lemma_values_drop_last(coef@);
                assert(orig[coef@.len() - 1] == values(coef@)[coef@.len() - 1]);
            }
            coef.pop();
            assert(values(coef@) =~= orig.subrange(0, coef@.len() as int));
        }
        PolynomialRing { coef, poly_degree: self.poly_degree, crt: self.crt }
    }

    /// Reduces modulo X^N + 1, so that at most N coefficients remain.
    pub fn mod_cyc(self) -> (r: Self)
        requires
            self.poly_degree > 0,
        ensures
            r@ == cyc(self@, self.poly_degree as nat),
            r.poly_degree == self.poly_degree,
            r.context() == self.context(),
    {
        let n = self.poly_degree;
        let ghost target = cyc(self@, n as nat);
        let mut coef = self.coef;
        while coef.len() > n
            invariant
                n > 0,
                cyc(values(coef@), n as nat) == target,
            decreases coef.len(),
        {
            let ghost before = values(coef@);
            let k = coef.len() - 1 - n;
            proof { lemma_values_drop_last(coef@); }
            let last = coef.pop().unwrap();
            let d = big_sub(&coef[k], &last);
            proof { lemma_values_update(coef@, k as int, d); }
            coef.set(k, d);
            assert(values(coef@) =~= fold_last(before, n as nat));
        }
        PolynomialRing { coef, poly_degree: n, crt: self.crt }
    }

    /// Every coefficient reduced to its centered representative modulo `q`.
    pub fn rem(&self, q: &BigInt) -> (r: Self)
        requires
            big_value(*q) > 0,
        ensures
            r@ == pmod(self@, big_value(*q)),
            r.poly_degree == self.poly_degree,
            r.context() == self.context(),
    {
        let mut coef: Vec<BigInt> = Vec::new();
        let mut i: usize = 0;
        while i < self.coef.len()
            invariant
                i <= self.coef.len(),
                big_value(*q) > 0,
                values(coef@) == pmod(self@, big_value(*q)).subrange(0, i as int),
            decreases self.coef.len() - i,
        {
            let c = mod_ring(&self.coef[i], q);
            proof { lemma_values_push(coef@, c); }
            coef.push(c);
            i = i + 1;
            assert(values(coef@) =~= pmod(self@, big_value(*q)).subrange(0, i as int));
        }
        assert(pmod(self@, big_value(*q)).subrange(0, i as int) =~= pmod(self@, big_value(*q)));
        PolynomialRing { coef, poly_degree: self.poly_degree, crt: self.crt }
    }

    /// Every coefficient reduced to its representative in `[0, q)`.
    pub fn rem_euclid(&self, q: &BigInt) -> (r: Self)
        requires
            big_value(*q) > 0,
        ensures
            r@ == pmod_euclid(self@, big_value(*q)),
            r.poly_degree == self.poly_degree,
            r.context() == self.context(),
    {
        let mut coef: Vec<BigInt> = Vec::new();
        let mut i: usize = 0;
        while i < self.coef.len()
            invariant
                i <= self.coef.len(),
                big_value(*q) > 0,
                values(coef@) == pmod_euclid(self@, big_value(*q)).subrange(0, i as int),
            decreases self.coef.len() - i,
        {
            let c = big_mod(&self.coef[i], q);
            proof { lemma_values_push(coef@, c); }
            coef.push(c);
            i = i + 1;
            assert(values(coef@) =~= pmod_euclid(self@, big_value(*q)).subrange(0, i as int));
        }
        assert(pmod_euclid(self@, big_value(*q)).subrange(0, i as int) =~= pmod_euclid(self@, big_value(*q)));
        PolynomialRing { coef, poly_degree: self.poly_degree, crt: self.crt }
    }

    /// Sum in Z[X]/(X^N+1), with this polynomial's N.
    pub fn add(&self, other: &Self) -> (r: Self)
        requires
            self.poly_degree > 0,
        ensures
            r@ == padd(self@, other@, self.poly_degree as nat),
            r@.len() <= self.poly_degree,
            r.poly_degree == self.poly_degree,
            r.context() == self.context(),
    {
        let la = self.coef.len();
        let lb = other.coef.len();
        let len = if la >= lb { la } else { lb };
        let ghost target = zip_add(self@, other@);
        assert(target.len() == len);
        let mut coef: Vec<BigInt> = Vec::new();
        let mut i: usize = 0;
        while i < len
            invariant
                la == self@.len(),
                lb == other@.len(),
                len == max_len(self@, other@),
                target.len() == len,
                target == zip_add(self@, other@),
                i <= len,
                values(coef@) == target.subrange(0, i as int),
            decreases len - i,
        {
            let v = if i < la && i < lb {
                big_add(&self.coef[i], &other.coef[i])
            } else if i < la {
                big_clone(&self.coef[i])
            } else {
                big_clone(&other.coef[i])
            };
            proof {
                lemma_values_push(coef@, v);
                assert(i < la ==> self@[i as int] == big_value(self.coef@[i as int]));
                assert(i < lb ==> other@[i as int] == big_value(other.coef@[i as int]));
                assert(target[i as int] == coef_at(self@, i as int) + coef_at(other@, i as int));
                assert(big_value(v) == target[i as int]);
            }
            coef.push(v);
            i = i + 1;
            assert(values(coef@) =~= target.subrange(0, i as int));
        }
        assert(target.subrange(0, i as int) =~= target);
        proof { lemma_cyc_len(values(coef@), self.poly_degree as nat); }
        PolynomialRing::new(self.poly_degree, coef).mod_cyc().add_option_crt(self.crt)
    }

    /// Difference in Z[X]/(X^N+1), with this polynomial's N.
    pub fn sub(&self, other: &Self) -> (r: Self)
        requires
            self.poly_degree > 0,
        ensures
            r@ == psub(self@, other@, self.poly_degree as nat),
            r@.len() <= self.poly_degree,
            r.poly_degree == self.poly_degree,
            r.context() == self.context(),
    {
        let la = self.coef.len();
        let lb = other.coef.len();
        let len = if la >= lb { la } else { lb };
        let ghost target = zip_sub(self@, other@);
        assert(target.len() == len);
        let mut coef: Vec<BigInt> = Vec::new();
        let mut i: usize = 0;
        while i < len
            invariant
                la == self@.len(),
                lb == other@.len(),
                len == max_len(self@, other@),
                target.len() == len,
                target == zip_sub(self@, other@),
                i <= len,
                values(coef@) == target.subrange(0, i as int),
            decreases len - i,
        {
            let v = if i < la && i < lb {
                big_sub(&self.coef[i], &other.coef[i])
            } else if i < la {
                big_clone(&self.coef[i])
            } else {
                big_neg(&other.coef[i])
            };
            proof {
                lemma_values_push(coef@, v);
                assert(i < la ==> self@[i as int] == big_value(self.coef@[i as int]));
                assert(i < lb ==> other@[i as int] == big_value(other.coef@[i as int]));
                assert(target[i as int] == coef_at(self@, i as int) - coef_at(other@, i as int));
                assert(big_value(v) == target[i as int]);
            }
            coef.push(v);
            i = i + 1;
            assert(values(coef@) =~= target.subrange(0, i as int));
        }
        assert(target.subrange(0, i as int) =~= target);
        proof { lemma_cyc_len(values(coef@), self.poly_degree as nat); }
        PolynomialRing::new(self.poly_degree, coef).mod_cyc().add_option_crt(self.crt)
    }

    /// Every coefficient negated.
    pub fn neg(&self) -> (r: Self)
        ensures
            r@ == pneg(self@),
            r.poly_degree == self.poly_degree,
            r.context() == self.context(),
    {
        let mut coef: Vec<BigInt> = Vec::new();
        let mut i: usize = 0;
        while i < self.coef.len()
            invariant
                i <= self.coef.len(),
                values(coef@) == pneg(self@).subrange(0, i as int),
            decreases self.coef.len() - i,
        {
            let c = big_neg(&self.coef[i]);
            proof { lemma_values_push(coef@, c); }
            coef.push(c);
            i = i + 1;
            assert(values(coef@) =~= pneg(self@).subrange(0, i as int));
        }
        assert(pneg(self@).subrange(0, i as int) =~= pneg(self@));
        PolynomialRing { coef, poly_degree: self.poly_degree, crt: self.crt }
    }

    /// The product in Z[X], by the schoolbook method, before any reduction.
    fn convolve(&self, other: &Self) -> (r: Vec<BigInt>)
        requires
            self@.len() + other@.len() <= usize::MAX,
        ensures
            values(r@) == conv(self@, other@),
    {
        let la = self.coef.len();
        let lb = other.coef.len();
        let len = if la + lb == 0 { 0 } else { la + lb - 1 };
        let mut res = zeros(len);
        let ghost a = self@;
        let ghost b = other@;
        let mut i: usize = 0;
        while i < la
            invariant
                la == a.len(),
                lb == b.len(),
                a == self@,
                b == other@,
                len == conv_len(a.len(), b.len()),
                i <= la,
                res@.len() == len,
                forall|k: int| 0 <= k < len ==> #[trigger] values(res@)[k] == conv_upto(a, b, i as nat, k),
            decreases la - i,
        {
            let mut j: usize = 0;
            while j < lb
                invariant
                    la == a.len(),
                    lb == b.len(),
                    a == self@,
                    b == other@,
                    len == conv_len(a.len(), b.len()),
                    i < la,
                    j <= lb,
                    res@.len() == len,
                    forall|k: int| 0 <= k < len ==> #[trigger] values(res@)[k] == if i <= k < i + j {
                        conv_upto(a, b, (i + 1) as nat, k)
                    } else {
                        conv_upto(a, b, i as nat, k)
                    },
                decreases lb - j,
            {
                let k = i + j;
                let t = big_mul(&self.coef[i], &other.coef[j]);
                let s = big_add(&res[k], &t);
                let ghost old_res = values(res@);
                proof {
                    lemma_values_update(res@, k as int, s);
                    assert(a[i as int] == big_value(self.coef@[i as int]));
                    assert(b[j as int] == big_value(other.coef@[j as int]));
                    assert(old_res[k as int] == big_value(res@[k as int]));
                    assert(old_res[k as int] == conv_upto(a, b, i as nat, k as int));
                    assert(conv_upto(a, b, (i + 1) as nat, k as int) == conv_upto(a, b, i as nat, k as int) + a[i as int] * b[j as int]);
                }
                res.set(k, s);
                j = j + 1;
                assert forall|m: int| 0 <= m < len implies #[trigger] values(res@)[m] == if i <= m < i + j {
                    conv_upto(a, b, (i + 1) as nat, m)
                } else {
                    conv_upto(a, b, i as nat, m)
                } by {
                    if m != k {
                        assert(values(res@)[m] == old_res[m]);
                    }
                }
            }
            assert forall|k: int| 0 <= k < len implies #[trigger] values(res@)[k] == conv_upto(a, b, (i + 1) as nat, k) by {
                if !(i <= k < i + lb) {
                    assert(conv_upto(a, b, (i + 1) as nat, k) == conv_upto(a, b, i as nat, k));
                }
            }
            i = i + 1;
        }
        assert(values(res@) =~= conv(a, b));
        res
    }

    /// What `mul` requires: operands with the same context (or both without one); without a
    /// context, lengths whose sum fits in `usize`; with one, a context of length N and operands
    /// of at most N coefficients.
    pub open spec fn mul_ok(&self, other: &Self) -> bool {
        &&& self.poly_degree > 0
        &&& other.context() == self.context()
        &&& self@.len() + other@.len() <= usize::MAX
        &&& match self.context() {
            Some(c) => c.wf() && c.degree_spec() == self.poly_degree && self@.len()
                <= self.poly_degree && other@.len() <= self.poly_degree,
            None => true,
        }
    }

    /// What `mul` returns: the product in Z[X]/(X^N+1) without a context, or when the
    /// coefficients are too large for the context; otherwise the product through the
    /// context's residue channels.
    pub open spec fn mul_spec(&self, other: &Self) -> Seq<int> {
        mul_seq(self.context(), self@, other@, self.poly_degree as nat)
    }

    /// A polynomial of degree bound `n` with at most `n` coefficients, whose context, if
    /// any, is well formed for length `n`: what the ring operations of a scheme require.
    pub open spec fn fits(&self, n: nat) -> bool {
        &&& self.poly_degree == n
        &&& n > 0
        &&& 2 * n <= usize::MAX
        &&& self@.len() <= n
        &&& match self.context() {
            Some(c) => c.wf() && c.degree_spec() == n,
            None => true,
        }
    }

    /// Every coefficient multiplied by `k`.
    pub fn scale(&self, k: &BigInt) -> (r: Self)
        ensures
            r@ == pscale(self@, big_value(*k)),
            r.poly_degree == self.poly_degree,
            r.context() == self.context(),
    {
        let mut coef: Vec<BigInt> = Vec::new();
        let mut i: usize = 0;
        while i < self.coef.len()
            invariant
                i <= self.coef.len(),
                values(coef@) == pscale(self@, big_value(*k)).subrange(0, i as int),
            decreases self.coef.len() - i,
        {
            let c = big_mul(&self.coef[i], k);
            proof { lemma_values_push(coef@, c); }
            coef.push(c);
            i = i + 1;
            assert(values(coef@) =~= pscale(self@, big_value(*k)).subrange(0, i as int));
        }
        assert(pscale(self@, big_value(*k)).subrange(0, i as int) =~= pscale(self@, big_value(*k)));
        PolynomialRing { coef, poly_degree: self.poly_degree, crt: self.crt }
    }

    /// Every coefficient divided by `d`, rounding toward zero.
    pub fn div_each(&self, d: &BigInt) -> (r: Self)
        requires
            big_value(*d) != 0,
        ensures
            r@ == pdiv(self@, big_value(*d)),
            r.poly_degree == self.poly_degree,
            r.context() == self.context(),
    {
        let mut coef: Vec<BigInt> = Vec::new();
        let mut i: usize = 0;
        while i < self.coef.len()
            invariant
                big_value(*d) != 0,
                i <= self.coef.len(),
                values(coef@) == pdiv(self@, big_value(*d)).subrange(0, i as int),
            decreases self.coef.len() - i,
        {
            let c = big_div(&self.coef[i], d);
            proof { lemma_values_push(coef@, c); }
            coef.push(c);
            i = i + 1;
            assert(values(coef@) =~= pdiv(self@, big_value(*d)).subrange(0, i as int));
        }
        assert(pdiv(self@, big_value(*d)).subrange(0, i as int) =~= pdiv(self@, big_value(*d)));
        PolynomialRing { coef, poly_degree: self.poly_degree, crt: self.crt }
    }

    /// Product in Z[X]/(X^N+1), with this polynomial's N: through the residue number system
    /// when a context is attached and `2 N max|a| max|b| < Q`, so that no channel wraps;
    /// by the schoolbook method otherwise.
    pub fn mul(&self, other: &Self) -> (r: Self)
        requires
            self.mul_ok(other),
        ensures
            r@ == self.mul_spec(other),
            r@.len() <= self.poly_degree,
            r.poly_degree == self.poly_degree,
            r.context() == self.context(),
    {
        if let Some(crt) = self.crt {
            let ma = max_abs_big(&self.coef);
            let mb = max_abs_big(&other.coef);
            let two_n = big_mul(&big_from_u64(2), &big_from_u64(crt.degree()));
            let bound = big_mul(&big_mul(&two_n, &ma), &mb);
            if big_lt(&bound, crt.modulus_value()) {
                let res = crt.negacyclic_mul(&self.coef, &other.coef);
                return PolynomialRing { coef: res, poly_degree: self.poly_degree, crt: self.crt };
            }
        }
        let res = self.convolve(other);
        proof { lemma_cyc_len(values(res@), self.poly_degree as nat); }
        PolynomialRing::new(self.poly_degree, res).mod_cyc().add_option_crt(self.crt)
    }
}

} // verus!
