//! The residue number system over a set of NTT-friendly primes (Chinese remainder theorem).

use vstd::prelude::*;
use vstd::arithmetic::power::pow;
use vstd::arithmetic::power2::pow2;
use num_bigint::BigInt;
use crate::bigint::{
    big_add, big_div, big_from_u64, big_mod, big_mod_u64, big_mul, big_value, values,
};
use crate::bits::{is_power_of_two, is_power_of_two_u64};
use crate::ntt::{all_below, ints, ntt_accepts, pointwise, Ntt};
use crate::poly_ring::mod_ring;
use crate::ring::{centered, coef_at};
use crate::utils::{generate_primes, holds, invmod, is_generator, is_prime, mulmod, qualifies};

verus! {

/// The product of the values.
pub open spec fn product(s: Seq<u64>) -> int
    decreases s.len(),
{
    if s.len() == 0 {
        1
    } else {
        product(s.drop_last()) * s.last() as int
    }
}

/// The first `k` terms of the CRT combination: `sum of ((v_i * inv_i) mod p_i) * M_i`.
pub open spec fn crt_sum(v: Seq<int>, primes: Seq<u64>, ms: Seq<int>, invs: Seq<u64>, k: nat) -> int
    decreases k,
{
    if k == 0 {
        0
    } else {
        let i = (k - 1) as int;
        crt_sum(v, primes, ms, invs, (k - 1) as nat) + ((v[i] * invs[i] as int) % (primes[i] as int)) * ms[i]
    }
}

/// The first `n` coefficients of `a`, padded with zeros, each reduced into `[0, p)`.
pub open spec fn residues(a: Seq<int>, p: int, n: nat) -> Seq<int> {
    Seq::new(n, |i: int| coef_at(a, i) % p)
}

/// The parameters that `Crt::new` accepts.
pub open spec fn crt_params_ok(num_primes: u64, prime_size: u64, poly_degree: u64) -> bool {
    &&& num_primes >= 1
    &&& 2 <= prime_size <= 62
    &&& is_power_of_two(poly_degree as nat)
    &&& 2 * poly_degree <= 0x4000_0000_0000_0000
    &&& poly_degree <= usize::MAX
}

/// Fewer than `count` primes qualify.
pub open spec fn too_few_primes(count: u64, bits: nat, step: int) -> bool {
    exists|s: Seq<u64>| s.len() < count && forall|x: int| #[trigger] qualifies(x, bits, step) ==> holds(s, x)
}

/// `s` holds the first `count` primes that `qualifies` admits, in increasing order.
pub open spec fn first_primes(s: Seq<u64>, count: u64, bits: nat, step: int) -> bool {
    &&& s.len() == count
    &&& forall|j: int| 0 <= j < s.len() ==> qualifies(#[trigger] s[j] as int, bits, step)
    &&& forall|j: int, k: int| 0 <= j < k < s.len() ==> #[trigger] s[j] < #[trigger] s[k]
    &&& forall|x: int| #[trigger] qualifies(x, bits, step) && x <= s.last() ==> holds(s, x)
}

/// For each prime p_i of `s`, `M_i^(p_i-2) mod p_i` is an inverse of `M_i = (product of s)/p_i`
/// modulo p_i (Fermat's little theorem says it always is for distinct primes).
pub open spec fn fermat_inverses(s: Seq<u64>) -> bool {
    forall|i: int|
        0 <= i < s.len() ==> {
            let p = #[trigger] s[i] as int;
            let m = (product(s) / p) % p;
            (m * (pow(m, (p - 2) as nat) % p)) % p == 1
        }
}

/// The first primes are refused: a cofactor fails the inverse check, or `Ntt::new` refuses
/// one of the primes.
pub open spec fn crt_refuses(s: Seq<u64>, poly_degree: u64) -> bool {
    !fermat_inverses(s) || exists|i: int| 0 <= i < s.len() && !#[trigger] ntt_accepts(poly_degree, s[i])
}

/// The residue number system of a set of primes, with one NTT per prime.
#[derive(Debug)]
pub struct Crt {
    pub primes: Vec<u64>,
    pub modulus: BigInt,
    pub ntts: Vec<Ntt>,
    pub crt_vals: Vec<BigInt>,
    pub crt_vals_inv: Vec<u64>,
    pub degree: u64,
}

impl Crt {
    /// The primes p_i, in increasing order.
    pub open spec fn primes_spec(&self) -> Seq<u64> {
        self.primes@
    }

    /// Q, the product of the primes.
    pub open spec fn modulus_spec(&self) -> int {
        big_value(self.modulus)
    }

    /// Q, the product of the primes.
    pub fn modulus_value(&self) -> (r: &BigInt)
        ensures
            big_value(*r) == self.modulus_spec(),
    {
        &self.modulus
    }

    /// The transform length N.
    pub fn degree(&self) -> (r: u64)
        ensures
            r as nat == self.degree_spec(),
    {
        self.degree
    }

    /// M_i = Q / p_i.
    pub open spec fn cofactors(&self) -> Seq<int> {
        Seq::new(self.crt_vals@.len(), |i: int| big_value(self.crt_vals@[i]))
    }

    /// M_i⁻¹ mod p_i, computed as M_i^(p_i - 2) mod p_i.
    pub open spec fn cofactor_invs(&self) -> Seq<u64> {
        self.crt_vals_inv@
    }

    /// The transform length N of every NTT.
    pub open spec fn degree_spec(&self) -> nat {
        self.degree as nat
    }

    /// The NTT of prime `i`.
    pub open spec fn ntt_spec(&self, i: int) -> Ntt {
        self.ntts@[i]
    }

    pub open spec fn wf(&self) -> bool {
        let k = self.primes@.len();
        &&& k >= 1
        &&& self.degree <= usize::MAX
        &&& self.ntts@.len() == k
        &&& self.crt_vals@.len() == k
        &&& self.crt_vals_inv@.len() == k
        &&& forall|i: int| 0 <= i < k ==> is_prime(#[trigger] self.primes@[i] as int)
        &&& forall|i: int| 0 <= i < k ==> 2 <= #[trigger] self.primes@[i] < 0x4000_0000_0000_0000
        &&& forall|i: int, j: int| 0 <= i < j < k ==> #[trigger] self.primes@[i] < #[trigger] self.primes@[j]
        &&& forall|i: int| 0 <= i < k ==> (#[trigger] self.ntts@[i]).wf()
        &&& forall|i: int| 0 <= i < k ==> (#[trigger] self.ntts@[i]).prime() == self.primes@[i]
        &&& forall|i: int| 0 <= i < k ==> (#[trigger] self.ntts@[i]).len_spec() == self.degree
        &&& big_value(self.modulus) == product(self.primes@)
        &&& forall|i: int| 0 <= i < k ==> big_value(#[trigger] self.crt_vals@[i]) == product(self.primes@) / (self.primes@[i] as int)
        &&& forall|i: int| 0 <= i < k ==> (#[trigger] self.crt_vals_inv@[i]) as int == pow(
            big_value(self.crt_vals@[i]) % (self.primes@[i] as int),
            (self.primes@[i] - 2) as nat,
        ) % (self.primes@[i] as int)
        &&& forall|i: int| 0 <= i < k ==> #[trigger] self.crt_vals_inv@[i] < self.primes@[i]
        &&& forall|i: int| 0 <= i < k ==> ((big_value(#[trigger] self.crt_vals@[i]) % (self.primes@[i] as int)) * (self.crt_vals_inv@[i] as int)) % (self.primes@[i] as int) == 1
    }

    /// The context of the first `num_primes` primes of `prime_size` bits that are 1 modulo
    /// `2 * poly_degree`, with their NTTs of length `poly_degree` and the CRT constants.
    /// `None` when the parameters are out of range, too few such primes exist, a prime is
    /// refused by `Ntt::new`, or a cofactor fails the inverse check.
    pub fn new(num_primes: u64, prime_size: u64, poly_degree: u64) -> (r: Option<Crt>)
        ensures
            r.is_none() ==> !crt_params_ok(num_primes, prime_size, poly_degree) || too_few_primes(
                num_primes,
                prime_size as nat,
                2 * poly_degree as int,
            ) || exists|s: Seq<u64>|
                first_primes(s, num_primes, prime_size as nat, 2 * poly_degree as int)
                    && #[trigger] crt_refuses(s, poly_degree),
            r matches Some(c) ==> {
                &&& crt_params_ok(num_primes, prime_size, poly_degree)
                &&& c.wf()
                &&& c.modulus_spec() == product(c.primes_spec())
                &&& c.ntts@.len() == num_primes
                &&& forall|j: int| 0 <= j < num_primes ==> #[trigger] c.cofactors()[j] == product(c.primes_spec()) / (c.primes_spec()[j] as int)
                &&& forall|j: int| 0 <= j < num_primes ==> ((#[trigger] c.cofactors()[j] % (c.primes_spec()[j] as int)) * (c.cofactor_invs()[j] as int)) % (c.primes_spec()[j] as int) == 1
                &&& forall|j: int| 0 <= j < num_primes ==> (#[trigger] c.ntts@[j]).prime() == c.primes_spec()[j] && c.ntts@[j].len_spec() == poly_degree
                &&& c.degree_spec() == poly_degree as nat
                &&& c.primes_spec().len() == num_primes
                &&& forall|j: int| 0 <= j < num_primes ==> qualifies(#[trigger] c.primes_spec()[j] as int, prime_size as nat, 2 * poly_degree as int)
                &&& forall|x: int| #[trigger] qualifies(x, prime_size as nat, 2 * poly_degree as int) && x <= c.primes_spec().last() ==> holds(c.primes_spec(), x)
            },
    {
        if num_primes < 1 || prime_size < 2 || prime_size > 62 || !is_power_of_two_u64(poly_degree)
            || poly_degree > 0x2000_0000_0000_0000 || poly_degree > usize::MAX as u64 {
            return None;
        }
        let step = 2 * poly_degree;
        proof {
            assert(poly_degree >= 1) by {
                assert(is_power_of_two(poly_degree as nat));
                if poly_degree == 0 {
                    assert(!is_power_of_two(0));
                }
            }
        }
        let primes = generate_primes(num_primes, prime_size, step);
        if (primes.len() as u64) < num_primes {
            proof {
                assert(forall|x: int| #[trigger] qualifies(x, prime_size as nat, step as int) ==> holds(primes@, x));
                assert(too_few_primes(num_primes, prime_size as nat, step as int));
            }
            return None;
        }
        let k = primes.len();
        let ghost bits = prime_size as nat;
        assert(first_primes(primes@, num_primes, prime_size as nat, step as int));
        proof {
            assert forall|i: int| 0 <= i < k implies 2 <= #[trigger] primes@[i] < 0x4000_0000_0000_0000 by {
                assert(qualifies(primes@[i] as int, bits, step as int));
                vstd::arithmetic::power2::lemma_pow2_strictly_increases((bits - 1) as nat, bits);
                if bits < 62 {
                    vstd::arithmetic::power2::lemma_pow2_strictly_increases(bits, 62);
                }
                vstd::arithmetic::power2::lemma2_to64_rest();
            }
        }
        let mut ntts: Vec<Ntt> = Vec::new();
        let mut i: usize = 0;
        while i < k
            invariant
                k == primes@.len(),
                1 <= poly_degree <= 0x2000_0000_0000_0000,
                poly_degree <= usize::MAX,
                step == 2 * poly_degree,
                is_power_of_two(poly_degree as nat),
                forall|j: int| 0 <= j < k ==> qualifies(#[trigger] primes@[j] as int, prime_size as nat, step as int),
                forall|j: int| 0 <= j < k ==> 2 <= #[trigger] primes@[j] < 0x4000_0000_0000_0000,
                i <= k,
                ntts@.len() == i,
                forall|j: int| 0 <= j < i ==> (#[trigger] ntts@[j]).wf(),
                forall|j: int| 0 <= j < i ==> (#[trigger] ntts@[j]).prime() == primes@[j],
                forall|j: int| 0 <= j < i ==> (#[trigger] ntts@[j]).len_spec() == poly_degree,
                first_primes(primes@, num_primes, prime_size as nat, step as int),
            decreases k - i,
        {
            let p = primes[i];
            match Ntt::new(poly_degree, p) {
                Some(t) => {
                    ntts.push(t);
                },
                None => {
                    proof {
                        assert(!ntt_accepts(poly_degree, primes@[i as int]));
                        assert(crt_refuses(primes@, poly_degree));
                    }
                    return None;
                },
            }
            i = i + 1;
        }
        let mut modulus = big_from_u64(1);
        let mut i: usize = 0;
        while i < k
            invariant
                k == primes@.len(),
                i <= k,
                big_value(modulus) == product(primes@.subrange(0, i as int)),
            decreases k - i,
        {
            let pb = big_from_u64(primes[i]);
            modulus = big_mul(&modulus, &pb);
            proof {
                assert(primes@.subrange(0, i + 1).drop_last() =~= primes@.subrange(0, i as int));
            }
            i = i + 1;
        }
        proof {
            assert(primes@.subrange(0, k as int) =~= primes@);
            lemma_product_positive(primes@);
        }
        let mut crt_vals: Vec<BigInt> = Vec::new();
        let mut crt_vals_inv: Vec<u64> = Vec::new();
        let mut i: usize = 0;
        while i < k
            invariant
                k == primes@.len(),
                forall|j: int| 0 <= j < k ==> 2 <= #[trigger] primes@[j] < 0x4000_0000_0000_0000,
                big_value(modulus) == product(primes@),
                product(primes@) >= 1,
                i <= k,
                crt_vals@.len() == i,
                crt_vals_inv@.len() == i,
                forall|j: int| 0 <= j < i ==> big_value(#[trigger] crt_vals@[j]) == product(primes@) / (primes@[j] as int),
                forall|j: int| 0 <= j < i ==> (#[trigger] crt_vals_inv@[j]) as int == pow(
                    big_value(crt_vals@[j]) % (primes@[j] as int),
                    (primes@[j] - 2) as nat,
                ) % (primes@[j] as int),
                forall|j: int| 0 <= j < i ==> #[trigger] crt_vals_inv@[j] < primes@[j],
                forall|j: int| 0 <= j < i ==> ((big_value(#[trigger] crt_vals@[j]) % (primes@[j] as int)) * (crt_vals_inv@[j] as int)) % (primes@[j] as int) == 1,
                num_primes == k,
                step == 2 * poly_degree,
                forall|j: int| 0 <= j < k ==> qualifies(#[trigger] primes@[j] as int, prime_size as nat, step as int),
                forall|j: int, l: int| 0 <= j < l < k ==> #[trigger] primes@[j] < #[trigger] primes@[l],
                forall|x: int| #[trigger] qualifies(x, prime_size as nat, step as int) && x <= primes@.last() ==> holds(primes@, x),
            decreases k - i,
        {
            let p = primes[i];
            let pb = big_from_u64(p);
            let m = big_div(&modulus, &pb);
            let mp = big_mod_u64(&m, p);
            let inv = match invmod(mp, p) {
                Some(v) => v,
                None => {
                    proof {
                        assert(first_primes(primes@, num_primes, prime_size as nat, step as int));
                        assert(!fermat_inverses(primes@)) by {
                            let pi = primes@[i as int] as int;
                            assert(big_value(m) == product(primes@) / pi);
                            vstd::arithmetic::div_mod::lemma_small_mod(mp as nat, p as nat);
                            assert(mp == 0);
                        }
                        assert(crt_refuses(primes@, poly_degree));
                    }
                    return None;
                },
            };
            proof {
                vstd::arithmetic::div_mod::lemma_mod_bound(pow(mp as int, (p - 2) as nat), p as int);
            }
            if mulmod(mp, inv, p) != 1 {
                proof {
                    assert(first_primes(primes@, num_primes, prime_size as nat, step as int));
                    assert(!fermat_inverses(primes@)) by {
                        let pi = primes@[i as int] as int;
                        assert(big_value(m) == product(primes@) / pi);
                    }
                    assert(crt_refuses(primes@, poly_degree));
                }
                return None;
            }
            crt_vals.push(m);
            crt_vals_inv.push(inv);
            i = i + 1;
        }
        Some(Crt { primes, modulus, ntts, crt_vals, crt_vals_inv, degree: poly_degree })
    }

    /// The product of `a` and `b` in the channel of prime `i`: their residues multiplied
    /// through that prime's NTT.
    pub open spec fn channel(&self, i: int, a: Seq<int>, b: Seq<int>) -> Seq<int> {
        let t = self.ntt_spec(i);
        t.negacyclic_product(
            residues(a, t.modulus(), self.degree_spec()),
            residues(b, t.modulus(), self.degree_spec()),
        )
    }

    /// Coefficient `j` of every channel, combined by `reconstruct` and then centered modulo Q.
    pub open spec fn crt_product(&self, a: Seq<int>, b: Seq<int>) -> Seq<int> {
        let k = self.primes_spec().len();
        Seq::new(
            self.degree_spec(),
            |j: int|
                centered(
                    crt_sum(
                        Seq::new(k, |i: int| self.channel(i, a, b)[j]),
                        self.primes_spec(),
                        self.cofactors(),
                        self.cofactor_invs(),
                        k,
                    ) % self.modulus_spec(),
                    self.modulus_spec(),
                ),
        )
    }

    /// Multiplies two polynomials of at most N coefficients in Z[X]/(X^N+1) through the
    /// residue channels: per prime, the residues are multiplied with that prime's NTT; each
    /// coefficient is then reconstructed and centered modulo Q.
    pub fn negacyclic_mul(&self, a: &Vec<BigInt>, b: &Vec<BigInt>) -> (r: Vec<BigInt>)
        requires
            self.wf(),
            a@.len() <= self.degree_spec(),
            b@.len() <= self.degree_spec(),
        ensures
            values(r@) == self.crt_product(values(a@), values(b@)),
    {
        let k = self.primes.len();
        let n = self.degree as usize;
        let ghost av = values(a@);
        let ghost bv = values(b@);
        let mut prods: Vec<Vec<u64>> = Vec::new();
        let mut i: usize = 0;
        while i < k
            invariant
                self.wf(),
                k == self.primes@.len(),
                n == self.degree,
                av == values(a@),
                bv == values(b@),
                i <= k,
                prods@.len() == i,
                forall|j: int| 0 <= j < i ==> (#[trigger] prods@[j])@.len() == n,
                forall|j: int| 0 <= j < i ==> all_below(#[trigger] prods@[j]@, self.primes@[j]),
                forall|j: int| 0 <= j < i ==> ints(#[trigger] prods@[j]@) == self.channel(j, av, bv),
            decreases k - i,
        {
            let t = &self.ntts[i];
            let p = t.coeff_modulus();
            let ra = residues_vec(a, p, n);
            let rb = residues_vec(b, p, n);
            let fa = t.fft_fwd(&ra);
            let fb = t.fft_fwd(&rb);
            let c = pointwise_vec(&fa, &fb, p);
            let r = t.fft_inv(&c);
            prods.push(r);
            i = i + 1;
        }
        let mut out: Vec<BigInt> = Vec::new();
        let ghost target = self.crt_product(av, bv);
        proof { lemma_product_positive(self.primes@); }
        let mut j: usize = 0;
        while j < n
            invariant
                self.wf(),
                k == self.primes@.len(),
                n == self.degree,
                prods@.len() == k,
                av == values(a@),
                bv == values(b@),
                target == self.crt_product(av, bv),
                big_value(self.modulus) >= 1,
                forall|m: int| 0 <= m < k ==> (#[trigger] prods@[m])@.len() == n,
                forall|m: int| 0 <= m < k ==> all_below(#[trigger] prods@[m]@, self.primes@[m]),
                forall|m: int| 0 <= m < k ==> ints(#[trigger] prods@[m]@) == self.channel(m, av, bv),
                j <= n,
                out@.len() == j,
                forall|m: int| 0 <= m < j ==> big_value(#[trigger] out@[m]) == target[m],
            decreases n - j,
        {
            let mut vals: Vec<i128> = Vec::new();
            let mut i: usize = 0;
            while i < k
                invariant
                    k == self.primes@.len(),
                    n == self.degree,
                    prods@.len() == k,
                    j < n,
                    forall|m: int| 0 <= m < k ==> (#[trigger] prods@[m])@.len() == n,
                    i <= k,
                    vals@.len() == i,
                    forall|m: int| 0 <= m < i ==> #[trigger] vals@[m] as int == prods@[m]@[j as int] as int,
                decreases k - i,
            {
                vals.push(prods[i][j] as i128);
                i = i + 1;
            }
            let ghost vs = Seq::new(vals@.len(), |m: int| vals@[m] as int);
            proof {
                assert(vs =~= Seq::new(k as nat, |m: int| self.channel(m, av, bv)[j as int]));
            }
            let x = self.reconstruct(vals);
            let c = mod_ring(&x, &self.modulus);
            out.push(c);
            j = j + 1;
        }
        proof {
            assert(values(out@) =~= target);
        }
        out
    }

    /// The residues of `value` modulo each prime, in `[0, p_i)`.
    pub fn crt(&self, value: i128) -> (r: Vec<i128>)
        requires
            self.wf(),
        ensures
            r@.len() == self.primes_spec().len(),
            forall|i: int| 0 <= i < r@.len() ==> #[trigger] r@[i] as int == (value as int) % (self.primes_spec()[i] as int),
    {
        let mut r: Vec<i128> = Vec::new();
        let mut i: usize = 0;
        while i < self.primes.len()
            invariant
                self.wf(),
                i <= self.primes@.len(),
                r@.len() == i,
                forall|j: int| 0 <= j < i ==> #[trigger] r@[j] as int == (value as int) % (self.primes@[j] as int),
            decreases self.primes@.len() - i,
        {
            let p = self.primes[i] as i128;
            let v = match value.checked_rem_euclid(p) {
                Some(v) => v,
                None => 0,
            };
            r.push(v);
            i = i + 1;
        }
        r
    }

    /// The residues of a big integer modulo each prime.
    pub fn split(&self, value: &BigInt) -> (r: Vec<u64>)
        requires
            self.wf(),
        ensures
            r@.len() == self.primes_spec().len(),
            forall|i: int| 0 <= i < r@.len() ==> #[trigger] r@[i] as int == big_value(*value) % (self.primes_spec()[i] as int),
    {
        let mut r: Vec<u64> = Vec::new();
        let mut i: usize = 0;
        while i < self.primes.len()
            invariant
                self.wf(),
                i <= self.primes@.len(),
                r@.len() == i,
                forall|j: int| 0 <= j < i ==> #[trigger] r@[j] as int == big_value(*value) % (self.primes@[j] as int),
            decreases self.primes@.len() - i,
        {
            r.push(big_mod_u64(value, self.primes[i]));
            i = i + 1;
        }
        r
    }

    /// The number in `[0, Q)` with the given residues:
    /// `(sum of ((a_i * M_i⁻¹) mod p_i) * M_i) mod Q`.
    pub fn reconstruct(&self, values: Vec<i128>) -> (r: BigInt)
        requires
            self.wf(),
            values@.len() == self.primes_spec().len(),
        ensures
            big_value(r) == crt_sum(
                Seq::new(values@.len(), |i: int| values@[i] as int),
                self.primes_spec(),
                self.cofactors(),
                self.cofactor_invs(),
                values@.len(),
            ) % self.modulus_spec(),
            0 <= big_value(r) < self.modulus_spec(),
            forall|i: int| 0 <= i < values@.len() ==> big_value(r) % (#[trigger] self.primes_spec()[i] as int)
                == (values@[i] as int) % (self.primes_spec()[i] as int),
    {
        let ghost v = Seq::new(values@.len(), |i: int| values@[i] as int);
        let ghost ms = self.cofactors();
        let k = values.len();
        proof { lemma_product_positive(self.primes@); }
        let mut reg = big_from_u64(0);
        let mut i: usize = 0;
        while i < k
            invariant
                self.wf(),
                k == values@.len(),
                k == self.primes@.len(),
                big_value(self.modulus) > 0,
                v == Seq::new(values@.len(), |i: int| values@[i] as int),
                ms == self.cofactors(),
                i <= k,
                big_value(reg) == crt_sum(v, self.primes@, ms, self.crt_vals_inv@, i as nat) % big_value(self.modulus),
            decreases k - i,
        {
            let p = self.primes[i];
            let a = match values[i].checked_rem_euclid(p as i128) {
                Some(a) => a as u64,
                None => 0,
            };
            let t = mulmod(a, self.crt_vals_inv[i], p);
            proof {
                vstd::arithmetic::div_mod::lemma_mul_mod_noop_left(values@[i as int] as int, self.crt_vals_inv@[i as int] as int, p as int);
            }
            let tb = big_from_u64(t);
            let term = big_mul(&tb, &self.crt_vals[i]);
            let sum = big_add(&reg, &term);
            proof {
                let s = crt_sum(v, self.primes@, ms, self.crt_vals_inv@, i as nat);
                vstd::arithmetic::div_mod::lemma_add_mod_noop(s, big_value(term), big_value(self.modulus));
                vstd::arithmetic::div_mod::lemma_mod_twice(s, big_value(self.modulus));
                vstd::arithmetic::div_mod::lemma_add_mod_noop(s % big_value(self.modulus), big_value(term), big_value(self.modulus));
            }
            reg = big_mod(&sum, &self.modulus);
            i = i + 1;
        }
        proof {
            let q = big_value(self.modulus);
            let total = crt_sum(v, self.primes@, ms, self.crt_vals_inv@, k as nat);
            vstd::arithmetic::div_mod::lemma_mod_bound(total, q);
            assert forall|j: int| 0 <= j < k implies big_value(reg) % (#[trigger] self.primes@[j] as int)
                == (values@[j] as int) % (self.primes@[j] as int) by {
                let pj = self.primes@[j] as int;
                self.lemma_crt_sum_mod(v, k as nat, j);
                lemma_product_remove(self.primes@, j);
                let r = product(self.primes@.remove(j));
                assert(q == pj * r);
                assert(r >= 1) by {
                    if r < 1 {
                        assert(pj * r <= 0) by (nonlinear_arith)
                            requires pj >= 2, r < 1;
                    }
                }
                vstd::arithmetic::div_mod::lemma_mod_mod(total, pj, r);
                assert(v[j] == values@[j] as int);
            }
        }
        reg
    }
}

/// The first `n` coefficients of `a`, padded with zeros, each reduced into `[0, p)`.
fn residues_vec(a: &Vec<BigInt>, p: u64, n: usize) -> (r: Vec<u64>)
    requires
        p > 0,
    ensures
        ints(r@) == residues(values(a@), p as int, n as nat),
        r@.len() == n,
{
    let mut r: Vec<u64> = Vec::new();
    let mut i: usize = 0;
    while i < n
        invariant
            p > 0,
            i <= n,
            r@.len() == i,
            forall|j: int| 0 <= j < i ==> #[trigger] r@[j] as int == residues(values(a@), p as int, n as nat)[j],
        decreases n - i,
    {
        let v = if i < a.len() {
            big_mod_u64(&a[i], p)
        } else {
            0
        };
        proof {
            if i < a@.len() {
                assert(values(a@)[i as int] == big_value(a@[i as int]));
                assert(coef_at(values(a@), i as int) == big_value(a@[i as int]));
            } else {
                assert(coef_at(values(a@), i as int) == 0);
                vstd::arithmetic::div_mod::lemma_small_mod(0, p as nat);
            }
            assert(v as int == residues(values(a@), p as int, n as nat)[i as int]);
        }
        r.push(v);
        i = i + 1;
    }
    proof {
        assert(ints(r@) =~= residues(values(a@), p as int, n as nat));
    }
    r
}

/// The coefficient-wise product modulo `p`.
fn pointwise_vec(a: &Vec<u64>, b: &Vec<u64>, p: u64) -> (r: Vec<u64>)
    requires
        p > 0,
        a@.len() == b@.len(),
    ensures
        ints(r@) == pointwise(ints(a@), ints(b@), p as int),
        r@.len() == a@.len(),
        all_below(r@, p),
{
    let mut r: Vec<u64> = Vec::new();
    let mut i: usize = 0;
    while i < a.len()
        invariant
            p > 0,
            a@.len() == b@.len(),
            i <= a@.len(),
            r@.len() == i,
            all_below(r@, p),
            forall|j: int| 0 <= j < i ==> #[trigger] r@[j] as int == (a@[j] as int * b@[j] as int) % (p as int),
        decreases a@.len() - i,
    {
        r.push(mulmod(a[i], b[i], p));
        i = i + 1;
    }
    proof {
        assert(ints(r@) =~= pointwise(ints(a@), ints(b@), p as int));
    }
    r
}

proof fn lemma_product_positive(s: Seq<u64>)
    requires
        forall|i: int| 0 <= i < s.len() ==> #[trigger] s[i] >= 1,
    ensures
        product(s) >= 1,
    decreases s.len(),
{
    if s.len() > 0 {
        lemma_product_positive(s.drop_last());
        assert(s[s.len() - 1] >= 1);
        assert(product(s.drop_last()) * s.last() as int >= 1) by (nonlinear_arith)
            requires product(s.drop_last()) >= 1, s.last() >= 1;
    }
}

} // verus!

verus! {

/// Euclid's lemma: a prime that divides a product and not its first factor divides the
/// second.
proof fn lemma_euclid(p: int, a: int, b: int)
    requires
        is_prime(p),
        a % p != 0,
        (a * b) % p == 0,
    ensures
        b % p == 0,
    decreases a % p,
{
    let r = a % p;
    vstd::arithmetic::div_mod::lemma_mod_bound(a, p);
    vstd::arithmetic::div_mod::lemma_mul_mod_noop_left(a, b, p);
    assert((r * b) % p == 0);
    if r == 1 {
        assert(r * b == b);
    } else {
        let q = p / r;
        let s = p % r;
        vstd::arithmetic::div_mod::lemma_fundamental_div_mod(p, r);
        vstd::arithmetic::div_mod::lemma_mod_bound(p, r);
        assert(p % r != 0);
        vstd::arithmetic::div_mod::lemma_fundamental_div_mod(r * b, p);
        let m = (r * b) / p;
        assert(r * b == p * m);
        assert(s * b == p * (b - q * m)) by (nonlinear_arith)
            requires p == r * q + s, r * b == p * m;
        vstd::arithmetic::div_mod::lemma_mod_multiples_basic(b - q * m, p);
        assert((s * b) % p == 0) by {
            assert(s * b == (b - q * m) * p) by (nonlinear_arith)
                requires s * b == p * (b - q * m);
        }
        vstd::arithmetic::div_mod::lemma_small_mod(s as nat, p as nat);
        lemma_euclid(p, s, b);
    }
}

proof fn lemma_product_remove(s: Seq<u64>, i: int)
    requires
        0 <= i < s.len(),
    ensures
        product(s) == (s[i] as int) * product(s.remove(i)),
    decreases s.len(),
{
    if i == s.len() - 1 {
        assert(s.remove(i) =~= s.drop_last());
        assert(product(s) == product(s.drop_last()) * (s.last() as int));
        assert(product(s.drop_last()) * (s.last() as int) == (s.last() as int) * product(s.drop_last())) by (nonlinear_arith);
    } else {
        lemma_product_remove(s.drop_last(), i);
        assert(s.remove(i).drop_last() =~= s.drop_last().remove(i));
        assert(s.remove(i).last() == s.last());
        let a = s[i] as int;
        let r = product(s.drop_last().remove(i));
        let l = s.last() as int;
        assert(product(s) == a * r * l) by (nonlinear_arith)
            requires product(s) == product(s.drop_last()) * l, product(s.drop_last()) == a * r;
        assert(a * r * l == a * (r * l)) by (nonlinear_arith);
        assert(product(s.remove(i)) == product(s.remove(i).drop_last()) * (s.remove(i).last() as int));
        assert(product(s.remove(i)) == r * l);
    }
}

/// Each p_j with j ≠ i divides M_i = Q / p_i.
proof fn lemma_cofactor_divisible(s: Seq<u64>, i: int, j: int)
    requires
        0 <= i < s.len(),
        0 <= j < s.len(),
        i != j,
        forall|l: int| 0 <= l < s.len() ==> #[trigger] s[l] >= 1,
    ensures
        product(s) / (s[i] as int) == product(s.remove(i)),
        (product(s) / (s[i] as int)) % (s[j] as int) == 0,
{
    lemma_product_remove(s, i);
    let r = product(s.remove(i));
    vstd::arithmetic::div_mod::lemma_div_multiples_vanish(r, s[i] as int);
    assert(product(s) == (s[i] as int) * r);
    let s2 = s.remove(i);
    let j2 = if j < i { j } else { j - 1 };
    assert(s2[j2] == s[j]);
    lemma_product_remove(s2, j2);
    vstd::arithmetic::div_mod::lemma_mod_multiples_basic(product(s2.remove(j2)), s[j] as int);
    assert(r == product(s2.remove(j2)) * (s[j] as int)) by (nonlinear_arith)
        requires r == (s2[j2] as int) * product(s2.remove(j2)), s2[j2] == s[j];
}

/// A prime does not divide a product of primes that are all different from it.
proof fn lemma_prime_not_dividing_product(p: int, s: Seq<u64>)
    requires
        is_prime(p),
        forall|l: int| 0 <= l < s.len() ==> is_prime(#[trigger] s[l] as int) && s[l] as int != p,
    ensures
        product(s) % p != 0,
    decreases s.len(),
{
    if s.len() == 0 {
        vstd::arithmetic::div_mod::lemma_small_mod(1, p as nat);
    } else {
        lemma_prime_not_dividing_product(p, s.drop_last());
        let x = s.last() as int;
        assert(is_prime(x) && x != p);
        if x % p == 0 {
            if p < x {
                assert(x % p != 0);
            } else {
                vstd::arithmetic::div_mod::lemma_small_mod(x as nat, p as nat);
            }
        }
        if product(s) % p == 0 {
            lemma_euclid(p, product(s.drop_last()), x);
        }
    }
}

/// A number that every prime of a list of distinct primes divides is a multiple of their
/// product.
proof fn lemma_divisible_by_product(s: Seq<u64>, d: int)
    requires
        forall|l: int| 0 <= l < s.len() ==> is_prime(#[trigger] s[l] as int),
        forall|j: int, k: int| 0 <= j < k < s.len() ==> #[trigger] s[j] < #[trigger] s[k],
        forall|l: int| 0 <= l < s.len() ==> d % (#[trigger] s[l] as int) == 0,
    ensures
        d % product(s) == 0,
    decreases s.len(),
{
    if s.len() == 0 {
        vstd::arithmetic::div_mod::lemma_mod_multiples_basic(d, 1);
        assert(d * 1 == d);
    } else {
        let s1 = s.drop_last();
        let p = s.last() as int;
        assert forall|l: int| 0 <= l < s1.len() implies d % (#[trigger] s1[l] as int) == 0 by {
            assert(s1[l] == s[l]);
        }
        lemma_divisible_by_product(s1, d);
        lemma_product_positive(s1);
        let pp = product(s1);
        vstd::arithmetic::div_mod::lemma_fundamental_div_mod(d, pp);
        let t = d / pp;
        assert(d == pp * t);
        assert forall|l: int| 0 <= l < s1.len() implies is_prime(#[trigger] s1[l] as int) && s1[l] as int != p by {
            assert(s[l] < s[s.len() - 1]);
        }
        lemma_prime_not_dividing_product(p, s1);
        assert(d % p == 0);
        lemma_euclid(p, pp, t);
        vstd::arithmetic::div_mod::lemma_fundamental_div_mod(t, p);
        let u = t / p;
        assert(d == (pp * p) * u) by (nonlinear_arith)
            requires d == pp * t, t == p * u + 0;
        assert(pp * p > 0) by (nonlinear_arith)
            requires pp >= 1, p >= 2;
        vstd::arithmetic::div_mod::lemma_mod_multiples_basic(u, pp * p);
        assert(u * (pp * p) == (pp * p) * u) by (nonlinear_arith);
    }
}

} // verus!

verus! {

/// The residues of `a` modulo each prime of `s`.
pub open spec fn residues_of(a: int, s: Seq<u64>) -> Seq<int> {
    Seq::new(s.len(), |i: int| a % (s[i] as int))
}

impl Crt {
    /// Modulo p_j, the first `k` terms of the combination give the residue `v_j` when
    /// j < k, and 0 otherwise.
    pub proof fn lemma_crt_sum_mod(&self, v: Seq<int>, k: nat, j: int)
        requires
            self.wf(),
            v.len() == self.primes@.len(),
            0 <= j < self.primes@.len(),
            k <= self.primes@.len(),
        ensures
            crt_sum(v, self.primes@, self.cofactors(), self.crt_vals_inv@, k)
                % (self.primes@[j] as int) == if j < k { v[j] % (self.primes@[j] as int) } else { 0 },
        decreases k,
    {
        let pj = self.primes@[j] as int;
        let ms = self.cofactors();
        if k == 0 {
            vstd::arithmetic::div_mod::lemma_small_mod(0, pj as nat);
        } else {
            let i = (k - 1) as int;
            self.lemma_crt_sum_mod(v, (k - 1) as nat, j);
            let pi = self.primes@[i] as int;
            let prev = crt_sum(v, self.primes@, ms, self.crt_vals_inv@, (k - 1) as nat);
            let t = (v[i] * self.crt_vals_inv@[i] as int) % pi;
            let m = ms[i];
            assert(m == big_value(self.crt_vals@[i]));
            vstd::arithmetic::div_mod::lemma_add_mod_noop(prev, t * m, pj);
            if i != j {
                assert forall|l: int| 0 <= l < self.primes@.len() implies #[trigger] self.primes@[l] >= 1 by {}
                lemma_cofactor_divisible(self.primes@, i, j);
                vstd::arithmetic::div_mod::lemma_mul_mod_noop_right(t, m, pj);
                assert(t * 0 == 0);
                vstd::arithmetic::div_mod::lemma_small_mod(0, pj as nat);
            } else {
                let inv = self.crt_vals_inv@[i] as int;
                let vv = v[i];
                vstd::arithmetic::div_mod::lemma_mul_mod_noop_right(t, m, pj);
                vstd::arithmetic::div_mod::lemma_mul_mod_noop_left(vv * inv, m % pj, pj);
                assert(vv * inv * (m % pj) == vv * ((m % pj) * inv)) by (nonlinear_arith);
                vstd::arithmetic::div_mod::lemma_mul_mod_noop_right(vv, (m % pj) * inv, pj);
                assert(((m % pj) * inv) % pj == 1);
                assert(vv * 1 == vv);
                assert((t * m) % pj == vv % pj);
                vstd::arithmetic::div_mod::lemma_small_mod(0, pj as nat);
            }
            vstd::arithmetic::div_mod::lemma_mod_twice(v[j], pj);
            vstd::arithmetic::div_mod::lemma_mod_bound(v[j], pj);
            vstd::arithmetic::div_mod::lemma_small_mod((v[j] % pj) as nat, pj as nat);
        }
    }

    /// Reconstruction inverts splitting: for every `a` in `[0, Q)`, the combination that
    /// `reconstruct` computes from the residues of `a` modulo the primes is `a` itself.
    pub proof fn lemma_reconstruct_split(&self, a: int)
        requires
            self.wf(),
            0 <= a < self.modulus_spec(),
        ensures
            crt_sum(
                residues_of(a, self.primes_spec()),
                self.primes_spec(),
                self.cofactors(),
                self.cofactor_invs(),
                self.primes_spec().len(),
            ) % self.modulus_spec() == a,
    {
        let s = self.primes@;
        let k = s.len();
        let q = product(s);
        let sum = crt_sum(residues_of(a, s), s, self.cofactors(), self.crt_vals_inv@, k);
        lemma_product_positive(s);
        let x = sum % q;
        vstd::arithmetic::div_mod::lemma_mod_bound(sum, q);
        assert forall|j: int| 0 <= j < k implies (x - a) % (#[trigger] s[j] as int) == 0 by {
            let pj = s[j] as int;
            self.lemma_crt_sum_mod(residues_of(a, s), k, j);
            vstd::arithmetic::div_mod::lemma_mod_twice(a, pj);
            lemma_product_remove(s, j);
            let r = product(s.remove(j));
            assert(r >= 1) by {
                assert(q == pj * r);
                if r < 1 {
                    assert(pj * r <= 0) by (nonlinear_arith)
                        requires pj >= 2, r < 1;
                }
            }
            vstd::arithmetic::div_mod::lemma_mod_mod(sum, pj, r);
            vstd::arithmetic::div_mod::lemma_sub_mod_noop(x, a, pj);
            vstd::arithmetic::div_mod::lemma_small_mod(0, pj as nat);
        }
        lemma_divisible_by_product(s, x - a);
        vstd::arithmetic::div_mod::lemma_fundamental_div_mod(x - a, q);
        let t = (x - a) / q;
        assert(x - a == q * t);
        if t > 0 {
            assert(q * t >= q) by (nonlinear_arith)
                requires t >= 1, q >= 1;
        } else if t < 0 {
            assert(q * t <= -q) by (nonlinear_arith)
                requires t <= -1, q >= 1;
        } else {
            assert(t == 0);
            vstd::arithmetic::mul::lemma_mul_basics(q);
        }
        assert(x == a);
        assert(self.modulus_spec() == q);
    }
}

} // verus!
