//! The mathematical model of the polynomial ring Z[X]/(X^N+1): coefficient sequences over
//! `int`, with the operations that the executable types are specified against.

use vstd::prelude::*;
use vstd::arithmetic::div_mod::*;

verus! {

/// Coefficient `i` of `a`, zero outside its length.
pub open spec fn coef_at(a: Seq<int>, i: int) -> int {
    if 0 <= i < a.len() { a[i] } else { 0 }
}

/// The longer of two lengths.
pub open spec fn max_len(a: Seq<int>, b: Seq<int>) -> nat {
    if a.len() >= b.len() { a.len() } else { b.len() }
}

/// Coefficient-wise sum, the shorter operand padded with zeros.
pub open spec fn zip_add(a: Seq<int>, b: Seq<int>) -> Seq<int> {
    Seq::new(max_len(a, b), |i: int| coef_at(a, i) + coef_at(b, i))
}

/// Coefficient-wise difference, the shorter operand padded with zeros.
pub open spec fn zip_sub(a: Seq<int>, b: Seq<int>) -> Seq<int> {
    Seq::new(max_len(a, b), |i: int| coef_at(a, i) - coef_at(b, i))
}

/// The part of coefficient `k` of `a * b` that comes from the first `i` coefficients of `a`.
pub open spec fn conv_upto(a: Seq<int>, b: Seq<int>, i: nat, k: int) -> int
    decreases i,
{
    if i == 0 {
        0
    } else {
        let j = (i - 1) as int;
        conv_upto(a, b, (i - 1) as nat, k) + (if 0 <= k - j < b.len() && j < a.len() {
            a[j] * b[k - j]
        } else {
            0
        })
    }
}

/// Length of the product of polynomials with `la` and `lb` coefficients.
pub open spec fn conv_len(la: nat, lb: nat) -> nat {
    if la + lb == 0 { 0 } else { (la + lb - 1) as nat }
}

/// The product of two polynomials in Z[X], without any reduction.
pub open spec fn conv(a: Seq<int>, b: Seq<int>) -> Seq<int> {
    Seq::new(conv_len(a.len(), b.len()), |k: int| conv_upto(a, b, a.len(), k))
}

/// One step of the reduction by X^n + 1: the leading term c X^k becomes -c X^(k-n).
pub open spec fn fold_last(c: Seq<int>, n: nat) -> Seq<int>
    recommends
        c.len() > n,
{
    let k = c.len() - 1 - n;
    c.drop_last().update(k, c[k] - c.last())
}

/// The reduction of `c` modulo X^n + 1: the representative of length at most `n`.
pub open spec fn cyc(c: Seq<int>, n: nat) -> Seq<int>
    decreases c.len(),
{
    if n == 0 || c.len() <= n {
        c
    } else {
        cyc(fold_last(c, n), n)
    }
}

/// Sum in Z[X]/(X^n + 1).
pub open spec fn padd(a: Seq<int>, b: Seq<int>, n: nat) -> Seq<int> {
    cyc(zip_add(a, b), n)
}

/// Difference in Z[X]/(X^n + 1).
pub open spec fn psub(a: Seq<int>, b: Seq<int>, n: nat) -> Seq<int> {
    cyc(zip_sub(a, b), n)
}

/// Product in Z[X]/(X^n + 1).
pub open spec fn pmul(a: Seq<int>, b: Seq<int>, n: nat) -> Seq<int> {
    cyc(conv(a, b), n)
}

/// Negation of every coefficient.
pub open spec fn pneg(a: Seq<int>) -> Seq<int> {
    Seq::new(a.len(), |i: int| -a[i])
}

/// The largest absolute value of a coefficient, 0 for the empty sequence.
pub open spec fn max_abs(a: Seq<int>) -> int
    decreases a.len(),
{
    if a.len() == 0 {
        0
    } else {
        let m = max_abs(a.drop_last());
        let x = crate::bigint::abs(a.last());
        if x > m { x } else { m }
    }
}

/// Every coefficient multiplied by `k`.
pub open spec fn pscale(a: Seq<int>, k: int) -> Seq<int> {
    Seq::new(a.len(), |i: int| a[i] * k)
}

/// Every coefficient divided by `d`, rounding toward zero.
pub open spec fn pdiv(a: Seq<int>, d: int) -> Seq<int> {
    Seq::new(a.len(), |i: int| crate::bigint::tdiv(a[i], d))
}

/// The representative of `x` modulo `q` in the centered interval (-q/2, q/2].
pub open spec fn centered(x: int, q: int) -> int {
    if x % q > q / 2 { x % q - q } else { x % q }
}

/// Every coefficient reduced to its centered representative modulo `q`.
pub open spec fn pmod(a: Seq<int>, q: int) -> Seq<int> {
    Seq::new(a.len(), |i: int| centered(a[i], q))
}

/// Every coefficient reduced to its representative in [0, q).
pub open spec fn pmod_euclid(a: Seq<int>, q: int) -> Seq<int> {
    Seq::new(a.len(), |i: int| a[i] % q)
}

/// Two sequences of one length whose coefficients agree modulo `q`.
pub open spec fn congruent(s: Seq<int>, t: Seq<int>, q: int) -> bool {
    s.len() == t.len() && forall|i: int| 0 <= i < s.len() ==> #[trigger] (s[i] % q) == t[i] % q
}

pub proof fn lemma_cyc_len(c: Seq<int>, n: nat)
    requires
        n > 0,
    ensures
        cyc(c, n).len() == if c.len() <= n { c.len() } else { n },
    decreases c.len(),
{
    if c.len() > n {
        lemma_cyc_len(fold_last(c, n), n);
    }
}

/// Reduction modulo X^n + 1 leaves a polynomial of length at most n unchanged, so it is
/// idempotent.
pub proof fn lemma_cyc_idempotent(c: Seq<int>, n: nat)
    requires
        n > 0,
    ensures
        cyc(cyc(c, n), n) == cyc(c, n),
{
    lemma_cyc_len(c, n);
}

pub proof fn lemma_centered_congruent(x: int, q: int)
    requires
        q > 0,
    ensures
        centered(x, q) % q == x % q,
        -q < 2 * centered(x, q) <= q,
{
    lemma_mod_bound(x, q);
    lemma_mod_twice(x, q);
    if x % q > q / 2 {
        lemma_mod_sub_multiples_vanish(x % q, q);
    }
}

pub proof fn lemma_pmod_congruent(a: Seq<int>, q: int)
    requires
        q > 0,
    ensures
        congruent(pmod(a, q), a, q),
{
    assert forall|i: int| 0 <= i < a.len() implies #[trigger] (pmod(a, q)[i] % q) == a[i] % q by {
        lemma_centered_congruent(a[i], q);
    }
}

pub proof fn lemma_congruent_pmod_eq(s: Seq<int>, t: Seq<int>, q: int)
    requires
        q > 0,
        congruent(s, t, q),
    ensures
        pmod(s, q) == pmod(t, q),
{
    assert(pmod(s, q) =~= pmod(t, q));
}

pub proof fn lemma_congruent_coef(s: Seq<int>, t: Seq<int>, q: int, i: int)
    requires
        q > 0,
        congruent(s, t, q),
    ensures
        coef_at(s, i) % q == coef_at(t, i) % q,
{
    if !(0 <= i < s.len()) {
    } else {
        assert(s[i] % q == t[i] % q);
    }
}

pub proof fn lemma_zip_add_congruent(a: Seq<int>, b: Seq<int>, c: Seq<int>, d: Seq<int>, q: int)
    requires
        q > 0,
        congruent(a, c, q),
        congruent(b, d, q),
    ensures
        congruent(zip_add(a, b), zip_add(c, d), q),
{
    assert forall|i: int| 0 <= i < zip_add(a, b).len() implies #[trigger] (zip_add(a, b)[i] % q)
        == zip_add(c, d)[i] % q by {
        lemma_congruent_coef(a, c, q, i);
        lemma_congruent_coef(b, d, q, i);
        lemma_add_mod_noop(coef_at(a, i), coef_at(b, i), q);
        lemma_add_mod_noop(coef_at(c, i), coef_at(d, i), q);
    }
}

pub proof fn lemma_zip_sub_congruent(a: Seq<int>, b: Seq<int>, c: Seq<int>, d: Seq<int>, q: int)
    requires
        q > 0,
        congruent(a, c, q),
        congruent(b, d, q),
    ensures
        congruent(zip_sub(a, b), zip_sub(c, d), q),
{
    assert forall|i: int| 0 <= i < zip_sub(a, b).len() implies #[trigger] (zip_sub(a, b)[i] % q)
        == zip_sub(c, d)[i] % q by {
        lemma_congruent_coef(a, c, q, i);
        lemma_congruent_coef(b, d, q, i);
        lemma_sub_mod_noop(coef_at(a, i), coef_at(b, i), q);
        lemma_sub_mod_noop(coef_at(c, i), coef_at(d, i), q);
    }
}

pub proof fn lemma_cyc_congruent(s: Seq<int>, t: Seq<int>, n: nat, q: int)
    requires
        q > 0,
        congruent(s, t, q),
    ensures
        congruent(cyc(s, n), cyc(t, n), q),
    decreases s.len(),
{
    if n == 0 || s.len() <= n {
    } else {
        let fs = fold_last(s, n);
        let ft = fold_last(t, n);
        let k = s.len() - 1 - n;
        assert(s[k] % q == t[k] % q);
        assert(s[s.len() - 1] % q == t[t.len() - 1] % q);
        lemma_sub_mod_noop(s[k], s.last(), q);
        lemma_sub_mod_noop(t[k], t.last(), q);
        assert forall|i: int| 0 <= i < fs.len() implies #[trigger] (fs[i] % q) == ft[i] % q by {
            if i != k {
                assert(s[i] % q == t[i] % q);
            }
        }
        lemma_cyc_congruent(fs, ft, n, q);
    }
}

pub proof fn lemma_conv_upto_congruent(
    a: Seq<int>,
    b: Seq<int>,
    c: Seq<int>,
    d: Seq<int>,
    q: int,
    i: nat,
    k: int,
)
    requires
        q > 0,
        congruent(a, c, q),
        congruent(b, d, q),
    ensures
        conv_upto(a, b, i, k) % q == conv_upto(c, d, i, k) % q,
    decreases i,
{
    if i > 0 {
        let j = (i - 1) as int;
        lemma_conv_upto_congruent(a, b, c, d, q, (i - 1) as nat, k);
        if 0 <= k - j < b.len() && j < a.len() {
            assert(a[j] % q == c[j] % q);
            assert(b[k - j] % q == d[k - j] % q);
            lemma_mul_mod_noop(a[j], b[k - j], q);
            lemma_mul_mod_noop(c[j], d[k - j], q);
            lemma_add_mod_noop(conv_upto(a, b, (i - 1) as nat, k), a[j] * b[k - j], q);
            lemma_add_mod_noop(conv_upto(c, d, (i - 1) as nat, k), c[j] * d[k - j], q);
        }
    }
}

pub proof fn lemma_conv_congruent(a: Seq<int>, b: Seq<int>, c: Seq<int>, d: Seq<int>, q: int)
    requires
        q > 0,
        congruent(a, c, q),
        congruent(b, d, q),
    ensures
        congruent(conv(a, b), conv(c, d), q),
{
    assert forall|k: int| 0 <= k < conv(a, b).len() implies #[trigger] (conv(a, b)[k] % q)
        == conv(c, d)[k] % q by {
        lemma_conv_upto_congruent(a, b, c, d, q, a.len(), k);
    }
}

/// Reducing the coefficients modulo q before or after a ring sum gives the same result:
/// `(a + b) mod q == ((a mod q) + (b mod q)) mod q`.
pub proof fn lemma_add_mod(a: Seq<int>, b: Seq<int>, n: nat, q: int)
    requires
        q > 0,
    ensures
        pmod(padd(a, b, n), q) == pmod(padd(pmod(a, q), pmod(b, q), n), q),
{
    lemma_pmod_congruent(a, q);
    lemma_pmod_congruent(b, q);
    lemma_zip_add_congruent(pmod(a, q), pmod(b, q), a, b, q);
    lemma_cyc_congruent(zip_add(pmod(a, q), pmod(b, q)), zip_add(a, b), n, q);
    lemma_congruent_pmod_eq(padd(pmod(a, q), pmod(b, q), n), padd(a, b, n), q);
}

/// Reducing the coefficients modulo q before or after a ring difference gives the same
/// result: `(a - b) mod q == ((a mod q) - (b mod q)) mod q`.
pub proof fn lemma_sub_mod(a: Seq<int>, b: Seq<int>, n: nat, q: int)
    requires
        q > 0,
    ensures
        pmod(psub(a, b, n), q) == pmod(psub(pmod(a, q), pmod(b, q), n), q),
{
    lemma_pmod_congruent(a, q);
    lemma_pmod_congruent(b, q);
    lemma_zip_sub_congruent(pmod(a, q), pmod(b, q), a, b, q);
    lemma_cyc_congruent(zip_sub(pmod(a, q), pmod(b, q)), zip_sub(a, b), n, q);
    lemma_congruent_pmod_eq(psub(pmod(a, q), pmod(b, q), n), psub(a, b, n), q);
}

/// Reducing the coefficients modulo q before or after a ring product gives the same result:
/// `(a * b) mod q == ((a mod q) * (b mod q)) mod q`.
pub proof fn lemma_mul_mod(a: Seq<int>, b: Seq<int>, n: nat, q: int)
    requires
        q > 0,
    ensures
        pmod(pmul(a, b, n), q) == pmod(pmul(pmod(a, q), pmod(b, q), n), q),
{
    lemma_pmod_congruent(a, q);
    lemma_pmod_congruent(b, q);
    lemma_conv_congruent(pmod(a, q), pmod(b, q), a, b, q);
    lemma_cyc_congruent(conv(pmod(a, q), pmod(b, q)), conv(a, b), n, q);
    lemma_congruent_pmod_eq(pmul(pmod(a, q), pmod(b, q), n), pmul(a, b, n), q);
}

} // verus!

verus! {

pub proof fn lemma_congruent_refl(a: Seq<int>, q: int)
    ensures
        congruent(a, a, q),
{
}

pub proof fn lemma_congruent_trans(a: Seq<int>, b: Seq<int>, c: Seq<int>, q: int)
    requires
        congruent(a, b, q),
        congruent(b, c, q),
    ensures
        congruent(a, c, q),
{
    assert forall|i: int| 0 <= i < a.len() implies #[trigger] (a[i] % q) == c[i] % q by {
        assert(a[i] % q == b[i] % q);
    }
}

pub proof fn lemma_padd_congruent(a: Seq<int>, b: Seq<int>, c: Seq<int>, d: Seq<int>, n: nat, q: int)
    requires
        q > 0,
        congruent(a, c, q),
        congruent(b, d, q),
    ensures
        congruent(padd(a, b, n), padd(c, d, n), q),
{
    lemma_zip_add_congruent(a, b, c, d, q);
    lemma_cyc_congruent(zip_add(a, b), zip_add(c, d), n, q);
}

pub proof fn lemma_pneg_congruent(a: Seq<int>, c: Seq<int>, q: int)
    requires
        q > 0,
        congruent(a, c, q),
    ensures
        congruent(pneg(a), pneg(c), q),
{
    assert forall|i: int| 0 <= i < a.len() implies #[trigger] (pneg(a)[i] % q) == pneg(c)[i] % q by {
        assert(a[i] % q == c[i] % q);
        lemma_sub_mod_noop(0, a[i], q);
        lemma_sub_mod_noop(0, c[i], q);
    }
}

/// Reducing an operand of a ring sum first changes nothing once the sum is reduced.
pub proof fn lemma_padd_pmod_left(a: Seq<int>, b: Seq<int>, n: nat, q: int)
    requires
        q > 0,
    ensures
        congruent(padd(pmod(a, q), b, n), padd(a, b, n), q),
{
    lemma_pmod_congruent(a, q);
    lemma_congruent_refl(b, q);
    lemma_padd_congruent(pmod(a, q), b, a, b, n, q);
}

} // verus!
