//! The negacyclic number-theoretic transform over a prime field F_p, for fast
//! multiplication in F_p[X]/(X^N+1).

use vstd::prelude::*;
use vstd::arithmetic::power::pow;
use vstd::arithmetic::power2::pow2;
use crate::bits::{
    is_power_of_two_u64,
    bit_reverse_seq, bit_reverse_vec, is_power_of_two, lemma_log2_pow2, lemma_rev_bits_bound, log2,
    log2_exact,
};
use crate::utils::{
    invmod, is_first_generator, is_generator, is_prime, is_prime_u64, mulmod, powmod, root_of_unity,
};

verus! {

/// The values of a vector of machine integers.
pub open spec fn ints(v: Seq<u64>) -> Seq<int> {
    Seq::new(v.len(), |i: int| v[i] as int)
}

/// One radix-2 layer of blocks of size `m`: in each block, positions `i` and `i + m/2` are
/// combined with the twiddle factor `rou[i * n/(m/2)]`.
pub open spec fn butterfly(v: Seq<int>, m: nat, rou: Seq<int>, p: int) -> Seq<int> {
    let half = (m / 2) as int;
    let stride = v.len() as int / half;
    Seq::new(
        v.len(),
        |x: int|
            {
                let i = x % (m as int);
                if i < half {
                    (v[x] + (rou[i * stride] * v[x + half]) % p) % p
                } else {
                    (v[x - half] - (rou[(i - half) * stride] * v[x]) % p) % p
                }
            },
    )
}

/// The first `s` layers, on blocks of size 2, 4, ..., 2^s.
pub open spec fn ntt_stages(v: Seq<int>, s: nat, rou: Seq<int>, p: int) -> Seq<int>
    decreases s,
{
    if s == 0 {
        v
    } else {
        butterfly(ntt_stages(v, (s - 1) as nat, rou, p), pow2(s), rou, p)
    }
}

/// The iterative Cooley-Tukey transform: bit-reversal permutation, then all layers.
pub open spec fn ntt_spec(a: Seq<int>, rou: Seq<int>, p: int) -> Seq<int> {
    ntt_stages(bit_reverse_seq(a), log2(a.len()), rou, p)
}

/// Coefficient-wise product modulo `p` of two sequences of one length.
pub open spec fn pointwise(a: Seq<int>, b: Seq<int>, p: int) -> Seq<int> {
    Seq::new(a.len(), |i: int| (a[i] * b[i]) % p)
}

/// Each `t[i] * rinv[i]` reduced modulo `p`, times `ninv`, reduced modulo `p`.
pub open spec fn inv_scale(t: Seq<int>, rinv: Seq<int>, ninv: int, p: int) -> Seq<int> {
    Seq::new(t.len(), |i: int| (((t[i] * rinv[i]) % p) * ninv) % p)
}

/// Every element below `p`.
pub open spec fn all_below(v: Seq<u64>, p: u64) -> bool {
    forall|i: int| 0 <= i < v.len() ==> #[trigger] v[i] < p
}

proof fn lemma_block_end(x: int, m: int, n: int)
    requires
        0 <= x < n,
        m > 0,
        n % m == 0,
    ensures
        x - x % m + m <= n,
{
    vstd::arithmetic::div_mod::lemma_fundamental_div_mod(x, m);
    vstd::arithmetic::div_mod::lemma_fundamental_div_mod(n, m);
    let qx = x / m;
    let qn = n / m;
    assert(qx < qn) by (nonlinear_arith)
        requires x == m * qx + x % m, n == m * qn, 0 <= x % m, x < n, m > 0;
    assert(m * qx + m <= m * qn) by (nonlinear_arith)
        requires qx < qn, m > 0;
}

proof fn lemma_pow2_divides(a: nat, b: nat)
    requires
        b <= a,
    ensures
        (pow2(a) as int) % (pow2(b) as int) == 0,
        pow2(b) <= pow2(a),
{
    vstd::arithmetic::power2::lemma_pow2_adds(b, (a - b) as nat);
    vstd::arithmetic::power2::lemma_pow2_pos(b);
    vstd::arithmetic::power2::lemma_pow2_pos((a - b) as nat);
    vstd::arithmetic::div_mod::lemma_mod_multiples_basic(pow2((a - b) as nat) as int, pow2(b) as int);
    assert(pow2(b) * pow2((a - b) as nat) >= pow2(b)) by (nonlinear_arith)
        requires pow2((a - b) as nat) >= 1;
}

proof fn lemma_twiddle_index(i: int, half: int, n: int)
    requires
        0 <= i < half,
        0 < half <= n,
    ensures
        0 <= i * (n / half) < n,
{
    vstd::arithmetic::div_mod::lemma_fundamental_div_mod(n, half);
    let s = n / half;
    assert(s >= 1) by (nonlinear_arith)
        requires n == half * s + n % half, 0 <= n % half < half, half <= n;
    assert(0 <= i * s < n) by (nonlinear_arith)
        requires 0 <= i < half, s >= 1, half * s <= n;
}

/// One butterfly layer on blocks of size `m = 2^logm`.
fn butterfly_layer(v: &Vec<u64>, logm: u32, rou: &Vec<u64>, p: u64) -> (r: Vec<u64>)
    requires
        1 <= logm <= log2(v@.len() as nat),
        is_power_of_two(v@.len() as nat),
        rou@.len() == v@.len(),
        0 < p < 0x4000_0000_0000_0000,
        all_below(v@, p),
        all_below(rou@, p),
    ensures
        ints(r@) == butterfly(ints(v@), pow2(logm as nat), ints(rou@), p as int),
        all_below(r@, p),
        r@.len() == v@.len(),
{
    let n = v.len();
    let ghost lg = log2(n as nat);
    proof {
        lemma_log2_pow2(n as nat);
        lemma_pow2_divides(lg, logm as nat);
        lemma_pow2_divides(logm as nat, (logm - 1) as nat);
        vstd::arithmetic::power2::lemma_pow2_unfold(logm as nat);
        vstd::arithmetic::power2::lemma_pow2_pos((logm - 1) as nat);
    }
    let mut m: usize = 1;
    let mut t: u32 = 0;
    proof { vstd::arithmetic::power2::lemma2_to64(); }
    while t < logm
        invariant
            t <= logm,
            m as nat == pow2(t as nat),
            pow2(logm as nat) <= n,
        decreases logm - t,
    {
        proof {
            vstd::arithmetic::power2::lemma_pow2_unfold((t + 1) as nat);
            if t + 1 < logm {
                vstd::arithmetic::power2::lemma_pow2_strictly_increases((t + 1) as nat, logm as nat);
            }
        }
        m = m * 2;
        t = t + 1;
    }
    let half = m / 2;
    let stride = n / half;
    let ghost target = butterfly(ints(v@), pow2(logm as nat), ints(rou@), p as int);
    let mut r: Vec<u64> = Vec::new();
    let mut x: usize = 0;
    while x < n
        invariant
            n == v@.len(),
            rou@.len() == n,
            m as nat == pow2(logm as nat),
            half == m / 2,
            m == 2 * half,
            half >= 1,
            stride == n / half,
            half <= n,
            (n as int) % (m as int) == 0,
            0 < p < 0x4000_0000_0000_0000,
            all_below(v@, p),
            all_below(rou@, p),
            target == butterfly(ints(v@), pow2(logm as nat), ints(rou@), p as int),
            x <= n,
            r@.len() == x,
            all_below(r@, p),
            forall|y: int| 0 <= y < x ==> #[trigger] r@[y] as int == target[y],
        decreases n - x,
    {
        let i = x % m;
        proof {
            lemma_block_end(x as int, m as int, n as int);
            vstd::arithmetic::div_mod::lemma_mod_bound(x as int, m as int);
            vstd::arithmetic::div_mod::lemma_fundamental_div_mod(x as int, m as int);
            assert(x as int - i as int >= 0) by (nonlinear_arith)
                requires x == m * (x / m) + i, x >= 0, m > 0, i < m;
        }
        let val: u64 = if i < half {
            proof { lemma_twiddle_index(i as int, half as int, n as int); }
            let w = mulmod(rou[i * stride], v[x + half], p);
            (v[x] + w) % p
        } else {
            proof { lemma_twiddle_index((i - half) as int, half as int, n as int); }
            let w = mulmod(rou[(i - half) * stride], v[x], p);
            proof {
                vstd::arithmetic::div_mod::lemma_mod_add_multiples_vanish(v@[x - half] as int - w as int, p as int);
            }
            (v[x - half] + p - w) % p
        };
        r.push(val);
        x = x + 1;
    }
    proof {
        assert(ints(r@) =~= target);
    }
    r
}

/// The negacyclic transform of one prime, with its tables of twiddle factors.
#[derive(Debug)]
pub struct Ntt {
    pub coeff_modulus: u64,
    pub degree: u64,
    pub root: u64,
    pub root_inv: u64,
    pub roots_of_unity: Vec<u64>,
    pub roots_of_unity_inv: Vec<u64>,
}

/// `w^n` is -1 modulo `p` (so `w` is a primitive 2n-th root of unity when n is a power of
/// two), and `w^(p-2) mod p` is an inverse of `w`.
pub open spec fn root_ok(w: int, n: nat, p: int) -> bool {
    &&& pow(w, n) % p == p - 1
    &&& (w * (pow(w, (p - 2) as nat) % p)) % p == 1
}

/// The root that `Ntt::new` takes: the first generator of F_p raised to `(p-1)/(2N)`.
pub open spec fn first_root(degree: u64, p: u64) -> int {
    let g = choose|g: int| is_first_generator(g, p as int);
    pow(g, (((p as int) - 1) / (2 * degree as int)) as nat) % (p as int)
}

/// The parameters that `Ntt::new` accepts.
pub open spec fn ntt_accepts(degree: u64, p: u64) -> bool {
    &&& is_power_of_two(degree as nat)
    &&& degree <= usize::MAX
    &&& 2 <= p < 0x4000_0000_0000_0000
    &&& degree < p
    &&& ((p - 1) as int) % (2 * degree as int) == 0
    &&& is_prime(p as int)
    &&& exists|g: int| #[trigger] is_first_generator(g, p as int)
    &&& root_ok(first_root(degree, p), degree as nat, p as int)
}

proof fn lemma_first_generator_unique(g: int, p: int)
    requires
        is_first_generator(g, p),
    ensures
        forall|h: int| #[trigger] is_first_generator(h, p) ==> h == g,
{
    assert forall|h: int| #[trigger] is_first_generator(h, p) implies h == g by {
        if h < g {
            assert(!is_generator(h, p));
        } else if g < h {
            assert(!is_generator(g, p));
        }
    }
}

/// `w^i mod p` for `i` in `[0, n)`.
pub open spec fn power_table(w: int, p: int, n: nat) -> Seq<int> {
    Seq::new(n, |i: int| pow(w, i as nat) % p)
}

impl Ntt {
    /// The prime modulus.
    pub open spec fn modulus(&self) -> int {
        self.coeff_modulus as int
    }

    /// The prime modulus, as a machine integer.
    pub open spec fn prime(&self) -> u64 {
        self.coeff_modulus
    }

    /// The forward twiddle table, ω^i mod p.
    pub open spec fn fwd_table(&self) -> Seq<int> {
        ints(self.roots_of_unity@)
    }

    /// The inverse twiddle table, ω^(-i) mod p.
    pub open spec fn inv_table(&self) -> Seq<int> {
        ints(self.roots_of_unity_inv@)
    }

    /// The transform length N.
    pub open spec fn len_spec(&self) -> nat {
        self.degree as nat
    }

    /// The 2N-th root of unity ω that the forward tables are built from.
    pub open spec fn omega(&self) -> int {
        self.root as int
    }

    /// ω^(p-2) mod p, the inverse of ω modulo the prime p.
    pub open spec fn omega_inv(&self) -> int {
        self.root_inv as int
    }

    /// The forward negacyclic transform of `a`: twist by the powers of ω, then transform.
    pub open spec fn fwd(&self, a: Seq<int>) -> Seq<int> {
        ntt_spec(pointwise(a, self.fwd_table(), self.modulus()), self.fwd_table(), self.modulus())
    }

    /// The inverse negacyclic transform of `c`: transform with ω⁻¹, untwist, scale by
    /// N^(p-2) mod p.
    pub open spec fn inv(&self, c: Seq<int>) -> Seq<int> {
        inv_scale(
            ntt_spec(c, self.inv_table(), self.modulus()),
            self.inv_table(),
            pow(self.len_spec() as int, (self.modulus() - 2) as nat) % self.modulus(),
            self.modulus(),
        )
    }

    /// The product of `a` and `b` through the transform: inverse of the pointwise product
    /// of the forward transforms.
    pub open spec fn negacyclic_product(&self, a: Seq<int>, b: Seq<int>) -> Seq<int> {
        self.inv(pointwise(self.fwd(a), self.fwd(b), self.modulus()))
    }

    pub open spec fn wf(&self) -> bool {
        &&& 2 <= self.coeff_modulus < 0x4000_0000_0000_0000
        &&& is_power_of_two(self.degree as nat)
        &&& self.degree <= usize::MAX
        &&& self.root < self.coeff_modulus
        &&& self.degree < self.coeff_modulus
        &&& self.roots_of_unity@.len() == self.degree
        &&& self.roots_of_unity_inv@.len() == self.degree
        &&& self.root_inv as int == pow(self.root as int, (self.coeff_modulus - 2) as nat) % (self.coeff_modulus as int)
        &&& ints(self.roots_of_unity@) == power_table(self.root as int, self.coeff_modulus as int, self.degree as nat)
        &&& ints(self.roots_of_unity_inv@) == power_table(self.root_inv as int, self.coeff_modulus as int, self.degree as nat)
        &&& all_below(self.roots_of_unity@, self.coeff_modulus)
        &&& all_below(self.roots_of_unity_inv@, self.coeff_modulus)
    }

    /// The tables for length `degree` and the prime `coeff_modulus`: ω is the first
    /// generator raised to `(p-1)/(2N)`, ω⁻¹ is `ω^(p-2) mod p`. `None` when the parameters are
    /// refused (see `ntt_accepts`): a length that is not a power of two, a modulus that is not
    /// a prime in `[2, 2^62)`, `2N` not dividing `p - 1`, or an ω that is not a primitive
    /// 2N-th root of unity with inverse ω⁻¹.
    pub fn new(degree: u64, coeff_modulus: u64) -> (r: Option<Ntt>)
        ensures
            r.is_some() <==> ntt_accepts(degree, coeff_modulus),
            r.is_some() ==> is_prime(coeff_modulus as int),
            r matches Some(t) ==> {
                &&& t.wf()
                &&& t.prime() == coeff_modulus
                &&& t.len_spec() == degree as nat
                &&& t.omega() == first_root(degree, coeff_modulus)
                &&& t.omega_inv() == pow(t.omega(), (coeff_modulus - 2) as nat) % (coeff_modulus as int)
                &&& root_ok(t.omega(), degree as nat, coeff_modulus as int)
                &&& (t.omega() * t.omega_inv()) % (coeff_modulus as int) == 1
                &&& t.fwd_table() == power_table(t.omega(), coeff_modulus as int, degree as nat)
                &&& t.inv_table() == power_table(t.omega_inv(), coeff_modulus as int, degree as nat)
            },
    {
        let p = coeff_modulus;
        if !is_power_of_two_u64(degree) || degree > usize::MAX as u64 || p < 2 || p
            >= 0x4000_0000_0000_0000 || degree >= p || (p - 1) % (2 * degree) != 0
            || !is_prime_u64(p) {
            proof {
                if is_power_of_two(degree as nat) && degree <= usize::MAX && 2 <= p < 0x4000_0000_0000_0000 && degree < p {
                    assert(((p - 1) as int) % (2 * degree as int) != 0 || !is_prime(p as int));
                }
            }
            return None;
        }
        let root = match root_of_unity(2 * degree, p) {
            Some(w) => w,
            None => {
                return None;
            },
        };
        let ghost g = choose|g: int| 2 <= g <= p && is_generator(g, p as int) && (forall|h: int|
            2 <= h < g ==> !#[trigger] is_generator(h, p as int)) && root as int == pow(g, (((p as int) - 1) / ((2 * degree) as int)) as nat) % (p as int);
        proof {
            assert(is_first_generator(g, p as int));
            lemma_first_generator_unique(g, p as int);
            assert(root as int == first_root(degree, p));
            vstd::arithmetic::div_mod::lemma_mod_bound(pow(g, (((p as int) - 1) / ((2 * degree) as int)) as nat), p as int);
        }
        let root_inv = match invmod(root, p) {
            Some(v) => v,
            None => {
                proof {
                    vstd::arithmetic::div_mod::lemma_small_mod(root as nat, p as nat);
                    assert(root == 0);
                    vstd::arithmetic::mul::lemma_mul_basics(pow(0, (p - 2) as nat) % (p as int));
                    vstd::arithmetic::div_mod::lemma_small_mod(0, p as nat);
                    assert((0 * (pow(0, (p - 2) as nat) % (p as int))) % (p as int) == 0);
                    assert(!root_ok(first_root(degree, p), degree as nat, p as int));
                }
                return None;
            },
        };
        if powmod(root, degree, p) != p - 1 || mulmod(root, root_inv, p) != 1 {
            return None;
        }
        proof {
            vstd::arithmetic::div_mod::lemma_mod_bound(pow(root as int, (p - 2) as nat), p as int);
        }
        let n = degree as usize;
        let roots_of_unity = build_power_table(root, p, n);
        let roots_of_unity_inv = build_power_table(root_inv, p, n);
        assert(roots_of_unity@.len() == ints(roots_of_unity@).len());
        assert(roots_of_unity_inv@.len() == ints(roots_of_unity_inv@).len());
        Some(Ntt { coeff_modulus: p, degree, root, root_inv, roots_of_unity, roots_of_unity_inv })
    }

    /// The transform of `coeffs` with the twiddle table `rou`: bit-reversal permutation,
    /// then the radix-2 butterfly layers.
    pub fn ntt(&self, coeffs: &Vec<u64>, rou: &Vec<u64>) -> (r: Vec<u64>)
        requires
            self.wf(),
            coeffs@.len() == self.len_spec(),
            rou@.len() == self.len_spec(),
            all_below(coeffs@, self.prime()),
            all_below(rou@, self.prime()),
        ensures
            ints(r@) == ntt_spec(ints(coeffs@), ints(rou@), self.modulus()),
            all_below(r@, self.prime()),
            r@.len() == self.len_spec(),
    {
        let p = self.coeff_modulus;
        let n = coeffs.len();
        let lg = log2_exact(n);
        let mut result = bit_reverse_vec(coeffs);
        proof {
            lemma_log2_pow2(n as nat);
            assert forall|i: int| 0 <= i < n implies #[trigger] result@[i] < p by {
                lemma_rev_bits_bound(i as nat, log2(n as nat));
            }
            assert(ints(result@) =~= bit_reverse_seq(ints(coeffs@))) by {
                assert forall|i: int| 0 <= i < n implies #[trigger] ints(result@)[i] == bit_reverse_seq(ints(coeffs@))[i] by {
                    lemma_rev_bits_bound(i as nat, log2(n as nat));
                }
            }
        }
        let mut logm: u32 = 1;
        while logm <= lg
            invariant
                1 <= logm <= lg + 1,
                lg as nat == log2(n as nat),
                lg <= 64,
                n == coeffs@.len(),
                is_power_of_two(n as nat),
                rou@.len() == n,
                0 < p < 0x4000_0000_0000_0000,
                all_below(rou@, p),
                result@.len() == n,
                all_below(result@, p),
                ints(result@) == ntt_stages(bit_reverse_seq(ints(coeffs@)), (logm - 1) as nat, ints(rou@), p as int),
            decreases lg + 1 - logm,
        {
            result = butterfly_layer(&result, logm, rou, p);
            logm = logm + 1;
        }
        result
    }

    /// The forward negacyclic transform: the coefficients twisted by the powers of ω, then
    /// transformed with the table of ω.
    pub fn fft_fwd(&self, coeffs: &Vec<u64>) -> (r: Vec<u64>)
        requires
            self.wf(),
            coeffs@.len() == self.len_spec(),
        ensures
            ints(r@) == self.fwd(ints(coeffs@)),
            all_below(r@, self.prime()),
            r@.len() == self.len_spec(),
    {
        let p = self.coeff_modulus;
        let n = coeffs.len();
        let ghost target = pointwise(ints(coeffs@), ints(self.roots_of_unity@), p as int);
        let mut input: Vec<u64> = Vec::new();
        let mut i: usize = 0;
        while i < n
            invariant
                self.wf(),
                n == coeffs@.len(),
                n == self.len_spec(),
                p == self.coeff_modulus,
                i <= n,
                input@.len() == i,
                all_below(input@, p),
                target == pointwise(ints(coeffs@), ints(self.roots_of_unity@), p as int),
                forall|j: int| 0 <= j < i ==> #[trigger] input@[j] as int == target[j],
            decreases n - i,
        {
            let v = mulmod(coeffs[i], self.roots_of_unity[i], p);
            assert(target[i as int] == (coeffs@[i as int] as int * self.roots_of_unity@[i as int] as int) % (p as int));
            input.push(v);
            i = i + 1;
        }
        assert(ints(input@) =~= target);
        self.ntt(&input, &self.roots_of_unity)
    }

    /// The inverse negacyclic transform: transformed with the table of ω⁻¹, then untwisted
    /// by the powers of ω⁻¹ and scaled by N⁻¹ = N^(p-2) mod p.
    pub fn fft_inv(&self, coeffs: &Vec<u64>) -> (r: Vec<u64>)
        requires
            self.wf(),
            coeffs@.len() == self.len_spec(),
            all_below(coeffs@, self.prime()),
        ensures
            ints(r@) == self.inv(ints(coeffs@)),
            all_below(r@, self.prime()),
            r@.len() == self.len_spec(),
    {
        let p = self.coeff_modulus;
        let n = coeffs.len();
        let t = self.ntt(coeffs, &self.roots_of_unity_inv);
        let ninv = powmod(self.degree, p - 2, p);
        let ghost target = inv_scale(ints(t@), ints(self.roots_of_unity_inv@), ninv as int, p as int);
        let mut out: Vec<u64> = Vec::new();
        let mut i: usize = 0;
        while i < n
            invariant
                self.wf(),
                n == coeffs@.len(),
                n == self.len_spec(),
                t@.len() == n,
                p == self.coeff_modulus,
                i <= n,
                out@.len() == i,
                all_below(out@, p),
                target == inv_scale(ints(t@), ints(self.roots_of_unity_inv@), ninv as int, p as int),
                forall|j: int| 0 <= j < i ==> #[trigger] out@[j] as int == target[j],
            decreases n - i,
        {
            let a = mulmod(t[i], self.roots_of_unity_inv[i], p);
            let v = mulmod(a, ninv, p);
            assert(target[i as int] == ((t@[i as int] as int * self.roots_of_unity_inv@[i as int] as int) % (p as int) * ninv as int) % (p as int));
            out.push(v);
            i = i + 1;
        }
        assert(ints(out@) =~= target);
        out
    }

    /// The prime modulus.
    pub fn coeff_modulus(&self) -> (r: u64)
        ensures
            r as int == self.modulus(),
            r == self.prime(),
    {
        self.coeff_modulus
    }

    /// The transform length N.
    pub fn degree(&self) -> (r: u64)
        ensures
            r as nat == self.len_spec(),
    {
        self.degree
    }
}

/// `w^i mod p` for `i` in `[0, n)`, by repeated multiplication.
fn build_power_table(w: u64, p: u64, n: usize) -> (r: Vec<u64>)
    requires
        2 <= p,
        w < p,
    ensures
        ints(r@) == power_table(w as int, p as int, n as nat),
        all_below(r@, p),
{
    let mut r: Vec<u64> = Vec::new();
    let mut cur: u64 = 1;
    let mut i: usize = 0;
    proof {
        vstd::arithmetic::power::lemma_pow0(w as int);
        vstd::arithmetic::div_mod::lemma_small_mod(1, p as nat);
    }
    while i < n
        invariant
            2 <= p,
            w < p,
            i <= n,
            cur < p,
            cur as int == pow(w as int, i as nat) % (p as int),
            r@.len() == i,
            all_below(r@, p),
            forall|j: int| 0 <= j < i ==> #[trigger] r@[j] as int == pow(w as int, j as nat) % (p as int),
        decreases n - i,
    {
        r.push(cur);
        proof {
            vstd::arithmetic::power::lemma_pow1(w as int);
            vstd::arithmetic::power::lemma_pow_adds(w as int, i as nat, 1);
            vstd::arithmetic::div_mod::lemma_mul_mod_noop_left(pow(w as int, i as nat), w as int, p as int);
        }
        cur = mulmod(cur, w, p);
        i = i + 1;
    }
    proof {
        assert(ints(r@) =~= power_table(w as int, p as int, n as nat));
    }
    r
}

} // verus!
