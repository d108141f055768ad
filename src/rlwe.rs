//! The CKKS scheme over Z_q[X]/(X^N+1): keys, encryption, homomorphic addition and
//! multiplication, relinearization and decryption.

use vstd::prelude::*;
use num_bigint::BigInt;
use crate::bigint::{big_clone, big_eq, big_mul, big_value};
use crate::crt::Crt;
use crate::poly_ring::{mul_seq, PolynomialRing};
use crate::ring::{
    lemma_congruent_pmod_eq, lemma_congruent_refl, lemma_congruent_trans,
    lemma_padd_congruent, lemma_padd_pmod_left, lemma_pmod_congruent, lemma_pneg_congruent, padd,
    pdiv, pmod, pmul, pneg, pscale, psub,
};

verus! {

/// A public key `(b, a)` with `b = -a * s + e (mod q)`; also the shape of a switching key.
pub struct PublicKey<'a>(pub PolynomialRing<'a>, pub PolynomialRing<'a>);

impl<'a> PublicKey<'a> {
    /// Both polynomials fit degree bound `n` and share one context.
    pub open spec fn fits(&self, n: nat) -> bool {
        self.0.fits(n) && self.1.fits(n) && self.0.context() == self.1.context()
    }
}

/// An encoded message: a polynomial and the scaling factor Δ it was encoded with.
pub struct PlainText<'a> {
    pub poly: PolynomialRing<'a>,
    pub scaling_factor: BigInt,
}

impl<'a> PlainText<'a> {
    pub fn new(poly: PolynomialRing<'a>, scaling_factor: BigInt) -> (r: Self)
        ensures
            r.poly@ == poly@,
            r.poly.poly_degree == poly.poly_degree,
            r.poly.context() == poly.context(),
            big_value(r.scaling_factor) == big_value(scaling_factor),
    {
        PlainText { poly, scaling_factor }
    }
}

/// A ciphertext of `N` polynomials over one modulus q, with the scaling factor of what it
/// encrypts.
pub struct CipherText<'a, const N: usize> {
    pub c: Vec<PolynomialRing<'a>>,
    pub scaling_factor: BigInt,
    pub modulus: BigInt,
}

impl<'a, const N: usize> CipherText<'a, N> {
    /// The ring degree N of the parts (not the number of parts).
    pub open spec fn degree_spec(&self) -> nat {
        self.c@[0].poly_degree as nat
    }

    /// The context that every part carries.
    pub open spec fn context(&self) -> Option<&'a Crt> {
        self.c@[0].context()
    }

    /// `N` parts of one degree bound and one context, and a positive modulus.
    pub open spec fn wf(&self) -> bool {
        &&& N >= 1
        &&& self.c@.len() == N
        &&& big_value(self.modulus) > 0
        &&& forall|i: int| 0 <= i < N ==> (#[trigger] self.c@[i]).fits(self.degree_spec())
        &&& forall|i: int| 0 <= i < N ==> (#[trigger] self.c@[i]).context() == self.context()
    }

    /// The number of parts.
    pub fn dim(&self) -> (r: usize)
        requires
            self.wf(),
        ensures
            r == N,
    {
        self.c.len()
    }

    /// The component-wise sum of two ciphertexts over one modulus; `None` when the moduli
    /// differ. The scaling factor is kept.
    pub fn add(&self, other: &Self) -> (r: Option<Self>)
        requires
            self.wf(),
            other.wf(),
            other.degree_spec() == self.degree_spec(),
        ensures
            r.is_none() <==> big_value(self.modulus) != big_value(other.modulus),
            r matches Some(z) ==> {
                &&& z.wf()
                &&& z.degree_spec() == self.degree_spec()
                &&& z.context() == self.context()
                &&& big_value(z.modulus) == big_value(self.modulus)
                &&& big_value(z.scaling_factor) == big_value(self.scaling_factor)
                &&& forall|i: int| 0 <= i < N ==> (#[trigger] z.c@[i])@ == padd(self.c@[i]@, other.c@[i]@, self.degree_spec())
            },
    {
        if !big_eq(&self.modulus, &other.modulus) {
            return None;
        }
        let ghost n = self.degree_spec();
        let mut c: Vec<PolynomialRing<'a>> = Vec::new();
        let mut i: usize = 0;
        while i < self.c.len()
            invariant
                self.wf(),
                other.wf(),
                n == self.degree_spec(),
                other.degree_spec() == n,
                i <= N,
                c@.len() == i,
                forall|j: int| 0 <= j < i ==> (#[trigger] c@[j]).fits(n),
                forall|j: int| 0 <= j < i ==> (#[trigger] c@[j]).context() == self.context(),
                forall|j: int| 0 <= j < i ==> (#[trigger] c@[j])@ == padd(self.c@[j]@, other.c@[j]@, n),
            decreases N - i,
        {
            assert(self.c@[i as int].fits(n));
            c.push(self.c[i].add(&other.c[i]));
            i = i + 1;
        }
        Some(CipherText { c, scaling_factor: big_clone(&self.scaling_factor), modulus: big_clone(&self.modulus) })
    }

    /// The component-wise difference of two ciphertexts over one modulus; `None` when the
    /// moduli differ. The scaling factor is kept.
    pub fn sub(&self, other: &Self) -> (r: Option<Self>)
        requires
            self.wf(),
            other.wf(),
            other.degree_spec() == self.degree_spec(),
        ensures
            r.is_none() <==> big_value(self.modulus) != big_value(other.modulus),
            r matches Some(z) ==> {
                &&& z.wf()
                &&& z.degree_spec() == self.degree_spec()
                &&& z.context() == self.context()
                &&& big_value(z.modulus) == big_value(self.modulus)
                &&& big_value(z.scaling_factor) == big_value(self.scaling_factor)
                &&& forall|i: int| 0 <= i < N ==> (#[trigger] z.c@[i])@ == psub(self.c@[i]@, other.c@[i]@, self.degree_spec())
            },
    {
        if !big_eq(&self.modulus, &other.modulus) {
            return None;
        }
        let ghost n = self.degree_spec();
        let mut c: Vec<PolynomialRing<'a>> = Vec::new();
        let mut i: usize = 0;
        while i < self.c.len()
            invariant
                self.wf(),
                other.wf(),
                n == self.degree_spec(),
                other.degree_spec() == n,
                i <= N,
                c@.len() == i,
                forall|j: int| 0 <= j < i ==> (#[trigger] c@[j]).fits(n),
                forall|j: int| 0 <= j < i ==> (#[trigger] c@[j]).context() == self.context(),
                forall|j: int| 0 <= j < i ==> (#[trigger] c@[j])@ == psub(self.c@[j]@, other.c@[j]@, n),
            decreases N - i,
        {
            assert(self.c@[i as int].fits(n));
            c.push(self.c[i].sub(&other.c[i]));
            i = i + 1;
        }
        Some(CipherText { c, scaling_factor: big_clone(&self.scaling_factor), modulus: big_clone(&self.modulus) })
    }
}

impl<'a> CipherText<'a, 2> {
    /// The product of two ciphertexts of two parts, a ciphertext of three parts:
    /// `(a0 b0, a0 b1 + a1 b0, a1 b1)`, each reduced modulo q; the scaling factors multiply.
    /// `None` when the moduli differ.
    pub fn mul(&self, other: &CipherText<'a, 2>) -> (r: Option<CipherText<'a, 3>>)
        requires
            self.wf(),
            other.wf(),
            other.degree_spec() == self.degree_spec(),
            other.context() == self.context(),
        ensures
            r.is_none() <==> big_value(self.modulus) != big_value(other.modulus),
            r matches Some(z) ==> {
                let n = self.degree_spec();
                let q = big_value(self.modulus);
                let ctx = self.context();
                let (a0, a1, b0, b1) = (self.c@[0]@, self.c@[1]@, other.c@[0]@, other.c@[1]@);
                &&& z.wf()
                &&& z.degree_spec() == n
                &&& z.context() == ctx
                &&& big_value(z.modulus) == q
                &&& big_value(z.scaling_factor) == big_value(self.scaling_factor) * big_value(other.scaling_factor)
                &&& z.c@[0]@ == pmod(mul_seq(ctx, a0, b0, n), q)
                &&& z.c@[1]@ == pmod(padd(mul_seq(ctx, a0, b1, n), mul_seq(ctx, a1, b0, n), n), q)
                &&& z.c@[2]@ == pmod(mul_seq(ctx, a1, b1, n), q)
            },
    {
        if !big_eq(&self.modulus, &other.modulus) {
            return None;
        }
        let q = &self.modulus;
        assert(self.c@[0].fits(self.degree_spec()));
        assert(self.c@[1].fits(self.degree_spec()));
        assert(other.c@[0].fits(self.degree_spec()));
        assert(other.c@[1].fits(self.degree_spec()));
        let c0 = self.c[0].mul(&other.c[0]).rem(q);
        let t0 = self.c[0].mul(&other.c[1]);
        let t1 = self.c[1].mul(&other.c[0]);
        let c1 = t0.add(&t1).rem(q);
        let c2 = self.c[1].mul(&other.c[1]).rem(q);
        let mut c: Vec<PolynomialRing<'a>> = Vec::new();
        c.push(c0);
        c.push(c1);
        c.push(c2);
        let z = CipherText {
            c,
            scaling_factor: big_mul(&self.scaling_factor, &other.scaling_factor),
            modulus: big_clone(q),
        };
        assert(z.c@[0].fits(self.degree_spec()));
        assert(z.c@[1].fits(self.degree_spec()));
        assert(z.c@[2].fits(self.degree_spec()));
        Some(z)
    }
}

impl<'a> CipherText<'a, 3> {
    /// Reduces a ciphertext of three parts to two with a relinearization key `(k0, k1)` of
    /// modulus q·P: part i becomes `((k_i * c2 mod qP) / P + c_i) mod q`, the division rounding
    /// toward zero.
    pub fn relin(&self, relin_key: &PublicKey<'a>, big_modulus: &BigInt) -> (r: CipherText<'a, 2>)
        requires
            self.wf(),
            relin_key.fits(self.degree_spec()),
            relin_key.0.context() == self.context(),
            big_value(*big_modulus) > 0,
        ensures
            ({
                let n = self.degree_spec();
                let q = big_value(self.modulus);
                let big_p = big_value(*big_modulus);
                let kctx = relin_key.0.context();
                let c2 = self.c@[2]@;
                &&& r.wf()
                &&& r.degree_spec() == n
                &&& r.context() == self.context()
                &&& big_value(r.modulus) == q
                &&& big_value(r.scaling_factor) == big_value(self.scaling_factor)
                &&& r.c@[0]@ == pmod(padd(pdiv(pmod(mul_seq(kctx, relin_key.0@, c2, n), q * big_p), big_p), self.c@[0]@, n), q)
                &&& r.c@[1]@ == pmod(padd(pdiv(pmod(mul_seq(kctx, relin_key.1@, c2, n), q * big_p), big_p), self.c@[1]@, n), q)
            }),
    {
        let q = &self.modulus;
        let qp = big_mul(q, big_modulus);
        proof {
            assert(big_value(qp) > 0) by (nonlinear_arith)
                requires big_value(qp) == big_value(self.modulus) * big_value(*big_modulus), big_value(self.modulus) > 0, big_value(*big_modulus) > 0;
        }
        assert(self.c@[0].fits(self.degree_spec()));
        assert(self.c@[1].fits(self.degree_spec()));
        assert(self.c@[2].fits(self.degree_spec()));
        let ctx = self.c[0].crt();
        let k0 = relin_key.0.mul(&self.c[2]).rem(&qp).div_each(big_modulus);
        let new_c0 = k0.add(&self.c[0]).rem(q).add_option_crt(ctx);
        let k1 = relin_key.1.mul(&self.c[2]).rem(&qp).div_each(big_modulus);
        let new_c1 = k1.add(&self.c[1]).rem(q).add_option_crt(ctx);
        let mut c: Vec<PolynomialRing<'a>> = Vec::new();
        c.push(new_c0);
        c.push(new_c1);
        let z = CipherText { c, scaling_factor: big_clone(&self.scaling_factor), modulus: big_clone(q) };
        assert(z.c@[0].fits(self.degree_spec()));
        assert(z.c@[1].fits(self.degree_spec()));
        z
    }
}

} // verus!

verus! {

/// A key pair: the secret `s` with coefficients in {0, 1}, the public key `(b, a)`, and the
/// ciphertext modulus q they were made for.
pub struct Rwle<'a> {
    sk: PolynomialRing<'a>,
    pk: PublicKey<'a>,
    modulus: BigInt,
}

/// Every coefficient is 0 or 1.
pub open spec fn is_binary(s: Seq<int>) -> bool {
    forall|i: int| 0 <= i < s.len() ==> #[trigger] s[i] == 0 || s[i] == 1
}

/// Every coefficient is in `[0, q)`.
pub open spec fn is_uniform_range(s: Seq<int>, q: int) -> bool {
    forall|i: int| 0 <= i < s.len() ==> 0 <= #[trigger] s[i] < q
}

/// The first part of a public key: `b = (-a * s + e) mod q`, centered.
pub open spec fn public_b(a: Seq<int>, s: Seq<int>, e: Seq<int>, n: nat, q: int) -> Seq<int> {
    pmod(padd(pmul(pneg(a), s, n), e, n), q)
}

/// The step-by-step reductions of `switch_b` amount to one reduction of
/// `-sw1 * s + e + p * s2` modulo `qp`.
pub proof fn lemma_switch_b_single(
    sw1: Seq<int>,
    s: Seq<int>,
    e: Seq<int>,
    s2: Seq<int>,
    n: nat,
    qp: int,
    p: int,
)
    requires
        qp > 0,
    ensures
        switch_b(sw1, s, e, s2, n, qp, p) == pmod(padd(padd(pneg(pmul(sw1, s, n)), e, n), pscale(s2, p), n), qp),
{
    let m = pmul(sw1, s, n);
    lemma_pmod_congruent(m, qp);
    lemma_pneg_congruent(pmod(m, qp), m, qp);
    lemma_congruent_refl(e, qp);
    lemma_padd_congruent(pneg(pmod(m, qp)), e, pneg(m), e, n, qp);
    let inner = padd(pneg(pmod(m, qp)), e, n);
    lemma_pmod_congruent(inner, qp);
    lemma_congruent_trans(pmod(inner, qp), inner, padd(pneg(m), e, n), qp);
    lemma_pmod_congruent(pscale(s2, p), qp);
    lemma_padd_congruent(pmod(inner, qp), pmod(pscale(s2, p), qp), padd(pneg(m), e, n), pscale(s2, p), n, qp);
    lemma_congruent_pmod_eq(
        padd(pmod(inner, qp), pmod(pscale(s2, p), qp), n),
        padd(padd(pneg(m), e, n), pscale(s2, p), n),
        qp,
    );
}

/// The step-by-step reductions of the first part of an encryption amount to one reduction
/// of `b u + e1 + m` modulo `q`.
pub proof fn lemma_encrypt_single(x: Seq<int>, e1: Seq<int>, m: Seq<int>, n: nat, q: int)
    requires
        q > 0,
    ensures
        pmod(padd(pmod(padd(pmod(x, q), e1, n), q), m, n), q) == pmod(padd(padd(x, e1, n), m, n), q),
{
    lemma_padd_pmod_left(x, e1, n, q);
    let inner = padd(pmod(x, q), e1, n);
    lemma_pmod_congruent(inner, q);
    lemma_congruent_trans(pmod(inner, q), inner, padd(x, e1, n), q);
    lemma_congruent_refl(m, q);
    lemma_padd_congruent(pmod(inner, q), m, padd(x, e1, n), m, n, q);
    lemma_congruent_pmod_eq(padd(pmod(inner, q), m, n), padd(padd(x, e1, n), m, n), q);
}

/// The first part of a switching key to `s2` with random part `sw1`, noise `e` and
/// auxiliary modulus `p`: `((-(sw1 * s mod qp) + e) mod qp + (p * s2 mod qp)) mod qp`.
pub open spec fn switch_b(
    sw1: Seq<int>,
    s: Seq<int>,
    e: Seq<int>,
    s2: Seq<int>,
    n: nat,
    qp: int,
    p: int,
) -> Seq<int> {
    pmod(padd(pmod(padd(pneg(pmod(pmul(sw1, s, n), qp)), e, n), qp), pmod(pscale(s2, p), qp), n), qp)
}

impl<'a> Rwle<'a> {
    /// The secret key.
    pub closed spec fn secret(&self) -> PolynomialRing<'a> {
        self.sk
    }

    /// The public key.
    pub closed spec fn public_key(&self) -> PublicKey<'a> {
        self.pk
    }

    /// The ciphertext modulus q.
    pub closed spec fn modulus_spec(&self) -> int {
        big_value(self.modulus)
    }

    /// The secret and the public key fit degree bound `n`, and the modulus is positive.
    pub open spec fn wf(&self, n: nat) -> bool {
        &&& self.secret().fits(n)
        &&& self.public_key().fits(n)
        &&& self.modulus_spec() > 0
    }

    /// A key pair for modulus q and ring degree N: a binary secret `s` and a uniform `a` in
    /// `[0, q)`, both of `size` coefficients, and `b = -a * s + e (mod q)` for the given noise
    /// `e` (a discrete Gaussian sample, drawn by the caller).
    pub fn keygen(modulus: &BigInt, poly_degree: usize, size: usize, noise: &PolynomialRing<'a>) -> (r: Self)
        requires
            big_value(*modulus) > 0,
            0 < poly_degree,
            2 * size <= usize::MAX,
        ensures
            size <= poly_degree && 2 * poly_degree <= usize::MAX ==> r.wf(poly_degree as nat),
            r.modulus_spec() > 0,
            r.secret().poly_degree == poly_degree,
            r.modulus_spec() == big_value(*modulus),
            r.secret()@.len() == size,
            is_binary(r.secret()@),
            r.public_key().1@.len() == size,
            is_uniform_range(r.public_key().1@, big_value(*modulus)),
            r.public_key().0@ == public_b(r.public_key().1@, r.secret()@, noise@, poly_degree as nat, big_value(*modulus)),
            r.secret().context().is_none(),
            r.public_key().0.context().is_none(),
    {
        let sk = PolynomialRing::rand_binary(poly_degree, size);
        let a = PolynomialRing::rand_uniform(modulus, poly_degree, size);
        let b = a.neg().mul(&sk).add(noise).rem(modulus);
        Rwle { sk, pk: PublicKey(b, a), modulus: big_clone(modulus) }
    }

    /// The same keys, multiplying through the given context.
    pub fn add_crt(self, crt: &'a Crt) -> (r: Self)
        requires
            crt.wf(),
            crt.degree_spec() == self.secret().poly_degree,
        ensures
            r.secret()@ == self.secret()@,
            r.public_key().0@ == self.public_key().0@,
            r.public_key().1@ == self.public_key().1@,
            r.secret().poly_degree == self.secret().poly_degree,
            r.public_key().0.poly_degree == self.public_key().0.poly_degree,
            r.public_key().1.poly_degree == self.public_key().1.poly_degree,
            r.modulus_spec() == self.modulus_spec(),
            r.secret().context() == Some(crt),
            r.public_key().0.context() == Some(crt),
            r.public_key().1.context() == Some(crt),
            forall|n: nat| self.wf(n) ==> r.wf(n),
    {
        let Rwle { sk, pk, modulus } = self;
        let PublicKey(b, a) = pk;
        Rwle { sk: sk.add_crt(crt), pk: PublicKey(b.add_crt(crt), a.add_crt(crt)), modulus }
    }

    /// A key that switches from `s` to `new_key`, over the modulus q·P: a uniform `sw1` in
    /// `[0, qP)` and `sw0 = -sw1 * s + e + P * new_key (mod qP)`.
    pub fn switch_key(&self, big_modulo: &BigInt, new_key: &PolynomialRing<'a>, noise: &PolynomialRing<'a>) -> (r: PublicKey<'a>)
        requires
            self.wf(self.secret().poly_degree as nat),
            big_value(*big_modulo) > 0,
        ensures
            ({
                let n = self.secret().poly_degree as nat;
                let qp = self.modulus_spec() * big_value(*big_modulo);
                &&& r.fits(n)
                &&& r.0.context().is_none()
                &&& r.1@.len() == self.secret()@.len()
                &&& is_uniform_range(r.1@, qp)
                &&& r.0@ == switch_b(r.1@, self.secret()@, noise@, new_key@, n, qp, big_value(*big_modulo))
                &&& r.0@ == pmod(padd(padd(pneg(pmul(r.1@, self.secret()@, n)), noise@, n), pscale(new_key@, big_value(*big_modulo)), n), qp)
            }),
    {
        let n = self.sk.poly_degree;
        let qp = big_mul(&self.modulus, big_modulo);
        proof {
            assert(big_value(qp) > 0) by (nonlinear_arith)
                requires big_value(qp) == self.modulus_spec() * big_value(*big_modulo), self.modulus_spec() > 0, big_value(*big_modulo) > 0;
        }
        let sw1 = PolynomialRing::rand_uniform(&qp, n, self.sk.len());
        let s = self.sk.copy().add_option_crt(None);
        let t = sw1.mul(&s).rem(&qp).neg().add(noise).rem(&qp);
        let ps = new_key.scale(big_modulo).rem(&qp);
        let sw0 = t.add(&ps).rem(&qp);
        proof {
            lemma_switch_b_single(sw1@, self.sk@, noise@, new_key@, n as nat, big_value(qp), big_value(*big_modulo));
        }
        PublicKey(sw0, sw1)
    }

    /// The relinearization key: a switching key from `s` to `s² mod qP`.
    pub fn relin_key(&self, big_modulo: &BigInt, noise: &PolynomialRing<'a>) -> (r: PublicKey<'a>)
        requires
            self.wf(self.secret().poly_degree as nat),
            big_value(*big_modulo) > 0,
        ensures
            ({
                let n = self.secret().poly_degree as nat;
                let qp = self.modulus_spec() * big_value(*big_modulo);
                let s = self.secret();
                let s2 = pmod(mul_seq(s.context(), s@, s@, n), qp);
                &&& r.fits(n)
                &&& r.0.context().is_none()
                &&& r.1@.len() == s@.len()
                &&& is_uniform_range(r.1@, qp)
                &&& r.0@ == switch_b(r.1@, s@, noise@, s2, n, qp, big_value(*big_modulo))
                &&& r.0@ == pmod(padd(padd(pneg(pmul(r.1@, s@, n)), noise@, n), pscale(s2, big_value(*big_modulo)), n), qp)
            }),
    {
        let qp = big_mul(&self.modulus, big_modulo);
        proof {
            assert(big_value(qp) > 0) by (nonlinear_arith)
                requires big_value(qp) == self.modulus_spec() * big_value(*big_modulo), self.modulus_spec() > 0, big_value(*big_modulo) > 0;
        }
        let s2 = self.sk.mul(&self.sk).rem(&qp);
        self.switch_key(big_modulo, &s2, noise)
    }

    /// The public key.
    pub fn public(&self) -> (r: &PublicKey<'a>)
        ensures
            *r == self.public_key(),
    {
        &self.pk
    }

    /// The secret key.
    pub fn private(&self) -> (r: &PolynomialRing<'a>)
        ensures
            *r == self.secret(),
    {
        &self.sk
    }
}

/// The encryption of `plain` with the binary polynomial `u` and the noise `e1`, `e2`:
/// `c0 = ((b u mod q + e1) mod q + m) mod q`, `c1 = (a u + e2) mod q`.
pub fn encrypt_with<'a>(
    pk: &PublicKey<'a>,
    modulus: &BigInt,
    plain: &PlainText<'a>,
    u: &PolynomialRing<'a>,
    e1: &PolynomialRing<'a>,
    e2: &PolynomialRing<'a>,
) -> (r: CipherText<'a, 2>)
    requires
        big_value(*modulus) > 0,
        pk.fits(plain.poly.poly_degree as nat),
        u@.len() <= plain.poly.poly_degree,
    ensures
        ({
            let n = plain.poly.poly_degree as nat;
            let q = big_value(*modulus);
            let ctx = pk.0.context();
            &&& r.wf()
            &&& r.degree_spec() == n
            &&& r.context() == ctx
            &&& big_value(r.modulus) == q
            &&& big_value(r.scaling_factor) == big_value(plain.scaling_factor)
            &&& r.c@[0]@ == pmod(padd(pmod(padd(pmod(mul_seq(ctx, pk.0@, u@, n), q), e1@, n), q), plain.poly@, n), q)
            &&& r.c@[0]@ == pmod(padd(padd(mul_seq(ctx, pk.0@, u@, n), e1@, n), plain.poly@, n), q)
            &&& r.c@[1]@ == pmod(padd(mul_seq(ctx, pk.1@, u@, n), e2@, n), q)
        }),
{
    let u = u.copy().add_option_crt(pk.0.crt());
    let c0 = pk.0.mul(&u).rem(modulus).add(e1).rem(modulus).add(&plain.poly).rem(modulus);
    let c1 = pk.1.mul(&u).add(e2).rem(modulus);
    let mut c: Vec<PolynomialRing<'a>> = Vec::new();
    c.push(c0);
    c.push(c1);
    let z = CipherText { c, scaling_factor: big_clone(&plain.scaling_factor), modulus: big_clone(modulus) };
    proof {
        lemma_encrypt_single(mul_seq(pk.0.context(), pk.0@, u@, plain.poly.poly_degree as nat), e1@, plain.poly@, plain.poly.poly_degree as nat, big_value(*modulus));
    }
    assert(z.c@[0].fits(plain.poly.poly_degree as nat));
    assert(z.c@[1].fits(plain.poly.poly_degree as nat));
    z
}

/// Encrypts `plain` under `pk` with a fresh binary `u` of N coefficients and the given noise.
pub fn encrypt<'a>(
    pk: &PublicKey<'a>,
    modulus: &BigInt,
    plain: &PlainText<'a>,
    e1: &PolynomialRing<'a>,
    e2: &PolynomialRing<'a>,
) -> (r: CipherText<'a, 2>)
    requires
        big_value(*modulus) > 0,
        pk.fits(plain.poly.poly_degree as nat),
    ensures
        ({
            let n = plain.poly.poly_degree as nat;
            let q = big_value(*modulus);
            let ctx = pk.0.context();
            &&& r.wf()
            &&& r.degree_spec() == n
            &&& r.context() == ctx
            &&& big_value(r.modulus) == q
            &&& big_value(r.scaling_factor) == big_value(plain.scaling_factor)
            &&& exists|u: Seq<int>| #![trigger is_binary(u)] u.len() == n && is_binary(u)
                && r.c@[0]@ == pmod(padd(padd(mul_seq(ctx, pk.0@, u, n), e1@, n), plain.poly@, n), q)
                && r.c@[1]@ == pmod(padd(mul_seq(ctx, pk.1@, u, n), e2@, n), q)
        }),
{
    let n = plain.poly.poly_degree;
    let u = PolynomialRing::rand_binary(n, n);
    let r = encrypt_with(pk, modulus, plain, &u, e1, e2);
    assert(is_binary(u@));
    r
}

/// The state of decryption after `i` steps: the accumulated polynomial and the power of `s`.
pub open spec fn dec_state(
    cs: Seq<Seq<int>>,
    s: Seq<int>,
    ctx: Option<&Crt>,
    n: nat,
    q: int,
    i: nat,
) -> (Seq<int>, Seq<int>)
    decreases i,
{
    if i == 0 {
        (cs[0], s)
    } else {
        let (p, sp) = dec_state(cs, s, ctx, n, q, (i - 1) as nat);
        (pmod(padd(p, mul_seq(ctx, sp, cs[i as int], n), n), q), pmod(mul_seq(ctx, sp, s, n), q))
    }
}

/// `c0 + c1 s + c2 s^2 + ... (mod q)`, accumulated step by step as `dec_state` says.
pub open spec fn decryption<'a, const N: usize>(sk: PolynomialRing<'a>, ct: CipherText<'a, N>) -> Seq<int> {
    let cs = Seq::new(N as nat, |i: int| ct.c@[i]@);
    pmod(dec_state(cs, sk@, sk.context(), sk.poly_degree as nat, big_value(ct.modulus), (N - 1) as nat).0, big_value(ct.modulus))
}

/// Decrypts a ciphertext with the secret key `s`: `c0 + c1 s + ... (mod q)` with the
/// ciphertext's scaling factor.
pub fn decrypt<'a, const N: usize>(sk: &PolynomialRing<'a>, ct: CipherText<'a, N>) -> (r: PlainText<'a>)
    requires
        ct.wf(),
        sk.fits(ct.degree_spec()),
        sk.context() == ct.context(),
    ensures
        r.poly@ == decryption(*sk, ct),
        big_value(r.scaling_factor) == big_value(ct.scaling_factor),
{
    let q = &ct.modulus;
    let ghost n = ct.degree_spec();
    let ghost cs = Seq::new(N as nat, |i: int| ct.c@[i]@);
    assert(ct.c@[0].fits(n));
    let mut poly = ct.c[0].copy();
    let mut sk_pow = sk.copy();
    let mut i: usize = 1;
    while i < N
        invariant
            ct.wf(),
            sk.fits(n),
            n == ct.degree_spec(),
            cs == Seq::new(N as nat, |i: int| ct.c@[i]@),
            big_value(*q) == big_value(ct.modulus),
            1 <= i <= N,
            poly.poly_degree == n,
            poly@.len() <= n,
            sk_pow.fits(n),
            sk_pow.context() == sk.context(),
            sk.context() == ct.context(),
            (poly@, sk_pow@) == dec_state(cs, sk@, sk.context(), n, big_value(ct.modulus), (i - 1) as nat),
        decreases N - i,
    {
        assert(ct.c@[i as int].fits(n));
        assert(ct.c@[i as int].context() == ct.context());
        let t = sk_pow.mul(&ct.c[i]);
        poly = poly.add(&t).rem(q);
        sk_pow = sk_pow.mul(sk).rem(q);
        i = i + 1;
    }
    let poly = poly.rem(q);
    PlainText { poly, scaling_factor: ct.scaling_factor }
}

} // verus!
