//! Number theory on machine integers: modular powers, generators and roots of unity,
//! primes, and the bit-reversal permutation.

use vstd::prelude::*;
use vstd::arithmetic::power::{pow, lemma_pow_mod_noop, lemma_pow_multiplies, lemma_square_is_pow2};
use vstd::arithmetic::div_mod::{
    lemma_mul_mod_noop_left, lemma_mul_mod_noop_right, lemma_small_mod, lemma_mod_bound,
};
use vstd::arithmetic::mul::lemma_mul_is_associative;
use vstd::arithmetic::power2::{
    lemma2_to64, lemma2_to64_rest, lemma_pow2_strictly_increases, lemma_pow2_unfold, pow2,
};
use vstd::arithmetic::div_mod::lemma_fundamental_div_mod;

verus! {

proof fn lemma_powmod_odd_step(res: int, a: int, b: nat, p: int)
    requires
        p > 0,
        b > 0,
    ensures
        ((res * a) % p) * pow(a, (b - 1) as nat) % p == res * pow(a, b) % p,
{
    reveal(pow);
    lemma_mul_mod_noop_left(res * a, pow(a, (b - 1) as nat), p);
    lemma_mul_is_associative(res, a, pow(a, (b - 1) as nat));
}

proof fn lemma_powmod_even_step(res: int, a: int, b: nat, p: int)
    requires
        p > 0,
        b % 2 == 0,
    ensures
        res * pow((a * a) % p, b / 2) % p == res * pow(a, b) % p,
{
    lemma_mul_mod_noop_right(res, pow((a * a) % p, b / 2), p);
    lemma_pow_mod_noop(a * a, b / 2, p);
    lemma_mul_mod_noop_right(res, pow(a * a, b / 2), p);
    lemma_square_is_pow2(a);
    lemma_pow_multiplies(a, 2, b / 2);
    assert(2 * (b / 2) == b);
}

/// `n` is a prime number.
pub open spec fn is_prime(n: int) -> bool {
    n >= 2 && forall|d: int| 2 <= d < n ==> #[trigger] (n % d) != 0
}

/// For every prime factor `f` of `p - 1`, `g^((p-1)/f) mod p` differs from 1: in a prime
/// field, the test that `g` has multiplicative order `p - 1`.
pub open spec fn is_generator(g: int, p: int) -> bool {
    forall|f: int|
        is_prime(f) && #[trigger] ((p - 1) % f) == 0 ==> pow(g, ((p - 1) / f) as nat) % p != 1
}

/// `g` is the smallest number in `[2, p]` that passes the generator test.
pub open spec fn is_first_generator(g: int, p: int) -> bool {
    2 <= g <= p && is_generator(g, p) && forall|h: int| 2 <= h < g ==> !#[trigger] is_generator(h, p)
}

proof fn lemma_cofactor_small(n: int, d: int, i: int)
    requires
        2 <= d < n,
        n % d == 0,
        i >= 0,
        i * i > n,
    ensures
        d < i || n / d < i,
        n / d >= 1,
        d * (n / d) == n,
{
    vstd::arithmetic::div_mod::lemma_fundamental_div_mod(n, d);
    assert(d * (n / d) == n);
    if d >= i && n / d >= i {
        assert(d * (n / d) >= i * i) by (nonlinear_arith)
            requires d >= i, n / d >= i, i >= 0;
    }
    assert(n / d >= 1) by (nonlinear_arith)
        requires d * (n / d) == n, n >= 2, d >= 2;
}

proof fn lemma_cofactor_divides(n: int, d: int)
    requires
        1 <= d,
        n >= 1,
        n % d == 0,
    ensures
        n / d >= 1,
        d <= n,
        n % (n / d) == 0,
        n / (n / d) == d,
{
    vstd::arithmetic::div_mod::lemma_fundamental_div_mod(n, d);
    let e = n / d;
    assert(d * e == n);
    assert(e >= 1) by (nonlinear_arith)
        requires d * e == n, n >= 1, d >= 1;
    assert(n == d * e);
    assert(d <= n) by (nonlinear_arith)
        requires d * e == n, e >= 1, d >= 1;
    vstd::arithmetic::div_mod::lemma_fundamental_div_mod_converse(n, e, d, 0);
}

proof fn lemma_square_bound(i: int, n: int)
    requires
        i >= 1,
        i * i <= n,
        n <= u64::MAX,
    ensures
        i <= n,
        i < 0x1_0000_0000,
        i >= 2 ==> i < n,
{
    assert(i <= n) by (nonlinear_arith)
        requires i >= 1, i * i <= n;
    if i >= 0x1_0000_0000 {
        assert(i * i >= 0x1_0000_0000 * 0x1_0000_0000) by (nonlinear_arith)
            requires i >= 0x1_0000_0000;
    }
    if i >= 2 {
        assert(i < n) by (nonlinear_arith)
            requires i >= 2, i * i <= n;
    }
}

/// Whether `d * d <= n`.
fn square_at_most(d: u64, n: u64) -> (r: bool)
    ensures
        r == ((d as int) * (d as int) <= n as int),
{
    if d >= 0x1_0000_0000 {
        assert((d as int) * (d as int) >= 0x1_0000_0000 * 0x1_0000_0000) by (nonlinear_arith)
            requires d >= 0x1_0000_0000;
        false
    } else {
        assert((d as int) * (d as int) < 0x1_0000_0000 * 0x1_0000_0000) by (nonlinear_arith)
            requires d < 0x1_0000_0000;
        d * d <= n
    }
}

/// Whether `n` is prime, by trial division.
pub fn is_prime_u64(n: u64) -> (r: bool)
    ensures
        r == is_prime(n as int),
{
    if n < 2 {
        return false;
    }
    let mut d: u64 = 2;
    while square_at_most(d, n)
        invariant
            2 <= d <= n,
            forall|k: int| 2 <= k < d ==> #[trigger] ((n as int) % k) != 0,
        decreases n - d,
    {
        proof { lemma_square_bound(d as int, n as int); }
        if n % d == 0 {
            assert((n as int) % (d as int) == 0);
            return false;
        }
        d = d + 1;
    }
    proof {
        assert forall|k: int| 2 <= k < n implies #[trigger] ((n as int) % k) != 0 by {
            if (n as int) % k == 0 {
                lemma_cofactor_small(n as int, k, d as int);
                if k >= d {
                    let e = (n as int) / k;
                    lemma_cofactor_divides(n as int, k);
                    if e < 2 {
                        assert(e == 1);
                        assert(k * 1 == n);
                    }
                    assert((n as int) % e == 0);
                }
            }
        }
    }
    true
}

/// `f` is one of the values in `r`.
pub open spec fn holds(r: Seq<u64>, f: int) -> bool {
    exists|j: int| 0 <= j < r.len() && r[j] as int == f
}

/// `x * y mod p`, computed without overflow.
pub fn mulmod(x: u64, y: u64, p: u64) -> (r: u64)
    requires
        p > 0,
    ensures
        r as int == (x as int * y as int) % (p as int),
        r < p,
{
    proof {
        assert(x as int * y as int <= 0xffff_ffff_ffff_ffffint * 0xffff_ffff_ffff_ffffint)
            by (nonlinear_arith)
            requires x <= 0xffff_ffff_ffff_ffffu64, y <= 0xffff_ffff_ffff_ffffu64;
    }
    ((x as u128 * y as u128) % (p as u128)) as u64
}

/// `a^b mod p`, by binary exponentiation.
pub fn powmod(a: u64, b: u64, p: u64) -> (r: u64)
    requires
        p > 1,
    ensures
        r as int == pow(a as int, b as nat) % (p as int),
{
    let ghost a0 = a as int;
    let ghost b0 = b as nat;
    let mut base: u64 = a % p;
    let mut e: u64 = b;
    let mut res: u64 = 1;
    proof {
        lemma_pow_mod_noop(a0, b0, p as int);
        assert(1 * pow(base as int, e as nat) == pow(base as int, e as nat));
    }
    while e != 0
        invariant
            p > 1,
            base < p,
            res < p,
            (res as int) * pow(base as int, e as nat) % (p as int) == pow(a0, b0) % (p as int),
        decreases e,
    {
        if e % 2 == 1 {
            proof { lemma_powmod_odd_step(res as int, base as int, e as nat, p as int); }
            res = mulmod(res, base, p);
            e = e - 1;
        } else {
            proof { lemma_powmod_even_step(res as int, base as int, e as nat, p as int); }
            base = mulmod(base, base, p);
            e = e / 2;
        }
    }
    proof {
        reveal(pow);
        lemma_small_mod(res as nat, p as nat);
    }
    res
}

/// `a^(p-2) mod p`: the inverse of `a` modulo a prime `p` that does not divide it. `None`
/// when `p` divides `a`, which has no inverse.
pub fn invmod(a: u64, p: u64) -> (r: Option<u64>)
    requires
        p > 1,
    ensures
        r.is_none() <==> (a as int) % (p as int) == 0,
        r matches Some(v) ==> v as int == pow(a as int, (p - 2) as nat) % (p as int),
{
    if a % p == 0 {
        return None;
    }
    Some(powmod(a, p - 2, p))
}

} // verus!

verus! {

/// The smallest `g` in `[2, p]` that passes the generator test for every prime factor of
/// `p - 1`; for a prime `p` it generates the multiplicative group of F_p.
pub fn generator(p: u64) -> (r: Option<u64>)
    requires
        2 <= p < u64::MAX,
    ensures
        match r {
            Some(g) => 2 <= g <= p && is_generator(g as int, p as int) && forall|h: int|
                2 <= h < g ==> !#[trigger] is_generator(h, p as int),
            None => forall|h: int| 2 <= h <= p ==> !#[trigger] is_generator(h, p as int),
        },
{
    let phi = p - 1;
    let fact = prime_factors(phi);
    let mut g: u64 = 2;
    while g <= p
        invariant
            2 <= g <= p + 1,
            p < u64::MAX,
            phi == p - 1,
            forall|j: int| 0 <= j < fact@.len() ==> is_prime(#[trigger] fact@[j] as int) && (phi as int) % (fact@[j] as int) == 0,
            forall|f: int| is_prime(f) && #[trigger] ((phi as int) % f) == 0 ==> holds(fact@, f),
            forall|h: int| 2 <= h < g ==> !#[trigger] is_generator(h, p as int),
        decreases p + 1 - g,
    {
        let mut ok = true;
        let mut k: usize = 0;
        while k < fact.len()
            invariant
                0 <= k <= fact.len(),
                p >= 2,
                phi == p - 1,
                forall|j: int| 0 <= j < fact@.len() ==> is_prime(#[trigger] fact@[j] as int) && (phi as int) % (fact@[j] as int) == 0,
                ok ==> forall|j: int| 0 <= j < k ==> pow(g as int, ((phi as int) / (#[trigger] fact@[j]) as int) as nat) % (p as int) != 1,
                !ok ==> exists|j: int| 0 <= j < k && pow(g as int, ((phi as int) / (#[trigger] fact@[j]) as int) as nat) % (p as int) == 1,
            decreases fact.len() - k,
        {
            let f = fact[k];
            proof { assert(is_prime(fact@[k as int] as int)); }
            if ok && powmod(g, phi / f, p) == 1 {
                ok = false;
            }
            k = k + 1;
        }
        if ok {
            proof {
                assert forall|f: int| is_prime(f) && #[trigger] (((p as int) - 1) % f) == 0
                    implies pow(g as int, (((p as int) - 1) / f) as nat) % (p as int) != 1 by {
                    assert(holds(fact@, f));
                    let j = choose|j: int| 0 <= j < fact@.len() && fact@[j] as int == f;
                    assert(pow(g as int, ((phi as int) / (fact@[j] as int)) as nat) % (p as int) != 1);
                }
            }
            return Some(g);
        }
        proof {
            let j = choose|j: int| 0 <= j < k && pow(g as int, ((phi as int) / (#[trigger] fact@[j]) as int) as nat) % (p as int) == 1;
            let f = fact@[j] as int;
            assert(is_prime(f) && ((phi as int) % f) == 0);
            assert(!is_generator(g as int, p as int));
        }
        g = g + 1;
    }
    None
}

proof fn lemma_holds_push(r: Seq<u64>, x: u64, f: int)
    requires
        holds(r, f) || f == x as int,
    ensures
        holds(r.push(x), f),
{
    if f == x as int {
        assert(r.push(x)[r.len() as int] == x);
    } else {
        let j = choose|j: int| 0 <= j < r.len() && r[j] as int == f;
        assert(r.push(x)[j] == r[j]);
    }
}

/// The prime factors of `n`, each one at least once, by trial division.
fn prime_factors(n: u64) -> (r: Vec<u64>)
    requires
        n >= 1,
    ensures
        forall|j: int| 0 <= j < r@.len() ==> is_prime(#[trigger] r@[j] as int) && (n as int) % (r@[j] as int) == 0,
        forall|f: int| is_prime(f) && #[trigger] ((n as int) % f) == 0 ==> holds(r@, f),
{
    let mut r: Vec<u64> = Vec::new();
    let mut i: u64 = 1;
    proof {
        assert forall|f: int| is_prime(f) && #[trigger] ((n as int) % f) == 0 && (f < i || (n as int) / f < i)
            implies holds(r@, f) by {
            lemma_cofactor_divides(n as int, f);
        }
    }
    while square_at_most(i, n)
        invariant
            1 <= i,
            n >= 1,
            forall|j: int| 0 <= j < r@.len() ==> is_prime(#[trigger] r@[j] as int) && (n as int) % (r@[j] as int) == 0,
            forall|f: int| is_prime(f) && #[trigger] ((n as int) % f) == 0 && (f < i || (n as int) / f < i)
                ==> holds(r@, f),
        decreases n - i + 1,
    {
        proof { lemma_square_bound(i as int, n as int); }
        let ghost r0 = r@;
        if n % i == 0 {
            let c = n / i;
            proof { lemma_cofactor_divides(n as int, i as int); }
            let ghost r1 = r@;
            if is_prime_u64(i) {
                proof {
                    assert forall|f: int| holds(r1, f) || f == i as int implies #[trigger] holds(r1.push(i), f) by {
                        lemma_holds_push(r1, i, f);
                    }
                }
                r.push(i);
            }
            let ghost r2 = r@;
            if is_prime_u64(c) {
                proof {
                    assert forall|f: int| holds(r2, f) || f == c as int implies #[trigger] holds(r2.push(c), f) by {
                        lemma_holds_push(r2, c, f);
                    }
                }
                r.push(c);
            }
            proof {
                assert(forall|f: int| holds(r0, f) ==> holds(r@, f));
                assert(is_prime(i as int) ==> holds(r@, i as int));
                assert(is_prime(c as int) ==> holds(r@, c as int));
            }
        }
        proof {
            assert forall|f: int| is_prime(f) && #[trigger] ((n as int) % f) == 0 && (f < i + 1 || (n as int) / f < i + 1)
                implies holds(r@, f) by {
                if f == i {
                } else if (n as int) / f == i {
                    lemma_cofactor_divides(n as int, f);
                } else {
                    assert(holds(r0, f));
                }
            }
        }
        i = i + 1;
    }
    proof {
        assert forall|f: int| is_prime(f) && #[trigger] ((n as int) % f) == 0 implies holds(r@, f) by {
            if f < n {
                lemma_cofactor_small(n as int, f, i as int);
            } else {
                lemma_cofactor_divides(n as int, f);
                assert(f == n);
                vstd::arithmetic::div_mod::lemma_div_by_self(f);
                assert((n as int) / f == 1);
            }
        }
    }
    r
}

/// A root of unity of the given order modulo `p`: `g^((p-1)/order) mod p`, `g` being the
/// generator found by `generator`.
pub fn root_of_unity(order: u64, p: u64) -> (r: Option<u64>)
    requires
        order > 0,
        2 <= p < u64::MAX,
    ensures
        match r {
            Some(w) => exists|g: int| 2 <= g <= p && is_generator(g, p as int) && (forall|h: int|
                2 <= h < g ==> !#[trigger] is_generator(h, p as int)) && w as int == pow(g, (((p as int) - 1) / (order as int)) as nat) % (p as int),
            None => forall|h: int| 2 <= h <= p ==> !#[trigger] is_generator(h, p as int),
        },
{
    match generator(p) {
        Some(g) => Some(powmod(g, (p - 1) / order, p)),
        None => None,
    }
}

} // verus!

verus! {

/// `x` is a prime of exactly `bits` bits with `x mod step == 1`.
pub open spec fn qualifies(x: int, bits: nat, step: int) -> bool {
    is_prime(x) && pow2((bits - 1) as nat) <= x < pow2(bits) && x % step == 1
}

/// Of two numbers that are both 1 modulo `st`, the larger exceeds the smaller by at least
/// `st`.
proof fn lemma_next_congruent(a: int, x: int, st: int)
    requires
        st > 1,
        a % st == 1,
        x % st == 1,
        x > a,
    ensures
        x >= a + st,
{
    lemma_fundamental_div_mod(x, st);
    lemma_fundamental_div_mod(a, st);
    let qx = x / st;
    let qa = a / st;
    assert(qx > qa) by (nonlinear_arith)
        requires x == st * qx + 1, a == st * qa + 1, x > a, st > 1;
    assert(x >= a + st) by (nonlinear_arith)
        requires x == st * qx + 1, a == st * qa + 1, qx > qa, st > 1;
}

/// 2^e.
fn pow2_u64(e: u64) -> (r: u64)
    requires
        e <= 63,
    ensures
        r as nat == pow2(e as nat),
{
    let mut r: u64 = 1;
    let mut k: u64 = 0;
    proof { lemma2_to64(); }
    while k < e
        invariant
            k <= e <= 63,
            r as nat == pow2(k as nat),
        decreases e - k,
    {
        proof {
            lemma_pow2_unfold((k + 1) as nat);
            lemma_pow2_strictly_increases((k + 1) as nat, 64);
            lemma2_to64_rest();
        }
        r = r * 2;
        k = k + 1;
    }
    r
}

/// The first `count` primes of exactly `bits` bits that are congruent to 1 modulo `step`, in
/// increasing order; fewer when there are not that many.
pub fn generate_primes(count: u64, bits: u64, step: u64) -> (r: Vec<u64>)
    requires
        2 <= bits <= 62,
        2 <= step <= 0x4000_0000_0000_0000,
    ensures
        r@.len() <= count,
        forall|j: int| 0 <= j < r@.len() ==> qualifies(#[trigger] r@[j] as int, bits as nat, step as int),
        forall|j: int, k: int| 0 <= j < k < r@.len() ==> #[trigger] r@[j] < #[trigger] r@[k],
        forall|x: int| #[trigger] qualifies(x, bits as nat, step as int) && (r@.len() < count || (r@.len()
            > 0 && x <= r@.last())) ==> holds(r@, x),
{
    let lo = pow2_u64(bits - 1);
    let hi = pow2_u64(bits);
    proof {
        lemma_pow2_strictly_increases((bits - 1) as nat, bits as nat);
        if bits < 62 {
            lemma_pow2_strictly_increases(bits as nat, 62);
        }
        lemma2_to64_rest();
    }
    proof {
        lemma_fundamental_div_mod(lo as int, step as int);
        lemma_mod_bound(lo as int, step as int);
        assert((lo / step) * step <= lo) by (nonlinear_arith)
            requires lo == step * (lo / step) + lo % step, lo % step >= 0;
    }
    let start: u64 = (lo / step) * step + 1;
    proof {
        assert(start <= lo + 1);
        vstd::arithmetic::div_mod::lemma_fundamental_div_mod_converse(start as int, step as int, lo as int / step as int, 1);
        vstd::arithmetic::div_mod::lemma_mod_add_multiples_vanish(start as int, step as int);
    }
    let mut p: u64 = if start < lo { start + step } else { start };
    proof {
        assert forall|x: int| #[trigger] qualifies(x, bits as nat, step as int) && x < p implies false by {
            let st = step as int;
            lemma_fundamental_div_mod(x, st);
            let qx = x / st;
            let q0 = lo as int / st;
            assert(x == st * qx + 1);
            assert(start as int == st * q0 + 1);
            if start < lo {
                if x > start {
                    lemma_next_congruent(start as int, x, st);
                }
            } else {
                assert(lo as int == st * q0 + (lo as int) % st);
                if x == lo {
                    vstd::arithmetic::div_mod::lemma_fundamental_div_mod_converse(x, st, q0, (lo as int) % st);
                }
            }
        }
    }
    let mut r: Vec<u64> = Vec::new();
    while (r.len() as u64) < count && p < hi
        invariant
            lo as nat == pow2((bits - 1) as nat),
            hi as nat == pow2(bits as nat),
            hi <= 0x4000_0000_0000_0000,
            2 <= step <= 0x4000_0000_0000_0000,
            lo <= p,
            (p as int) % (step as int) == 1,
            r@.len() <= count,
            forall|j: int| 0 <= j < r@.len() ==> qualifies(#[trigger] r@[j] as int, bits as nat, step as int),
            forall|j: int, k: int| 0 <= j < k < r@.len() ==> #[trigger] r@[j] < #[trigger] r@[k],
            forall|j: int| 0 <= j < r@.len() ==> #[trigger] r@[j] < p,
            forall|x: int| #[trigger] qualifies(x, bits as nat, step as int) && x < p ==> holds(r@, x),
        decreases (hi as int) + (step as int) - (p as int),
    {
        if is_prime_u64(p) {
            proof {
                assert forall|x: int| #[trigger] holds(r@, x) implies holds(r@.push(p), x) by {
                    let j = choose|j: int| 0 <= j < r@.len() && r@[j] as int == x;
                    assert(r@.push(p)[j] == r@[j]);
                }
                assert(r@.push(p)[r@.len() as int] == p);
                assert(holds(r@.push(p), p as int));
            }
            r.push(p);
        }
        proof {
            assert forall|x: int| #[trigger] qualifies(x, bits as nat, step as int) && x < p + step implies holds(r@, x) by {
                if x > p {
                    lemma_next_congruent(p as int, x, step as int);
                }
            }
        }
        proof { vstd::arithmetic::div_mod::lemma_mod_add_multiples_vanish(p as int, step as int); }
        p = p + step;
    }
    proof {
        assert forall|x: int| #[trigger] qualifies(x, bits as nat, step as int) && (r@.len() < count || (r@.len()
            > 0 && x <= r@.last())) implies holds(r@, x) by {
            if r@.len() >= count {
                assert(r@[r@.len() - 1] < p);
            }
        }
    }
    r
}

} // verus!

verus! {

/// The rotation group of the CKKS slots: `5^i mod fft_length` for `i` in `[0, num_slots)`.
pub fn rotation_group(num_slots: usize, fft_length: u64) -> (r: Vec<u64>)
    requires
        fft_length >= 2,
    ensures
        r@.len() == num_slots,
        forall|i: int| 0 <= i < num_slots ==> #[trigger] r@[i] as int == pow(5, i as nat) % (fft_length as int),
{
    let mut r: Vec<u64> = Vec::new();
    let mut cur: u64 = 1;
    let mut i: usize = 0;
    proof {
        vstd::arithmetic::power::lemma_pow0(5);
        lemma_small_mod(1, fft_length as nat);
    }
    while i < num_slots
        invariant
            fft_length >= 2,
            i <= num_slots,
            r@.len() == i,
            cur as int == pow(5, i as nat) % (fft_length as int),
            forall|j: int| 0 <= j < i ==> #[trigger] r@[j] as int == pow(5, j as nat) % (fft_length as int),
        decreases num_slots - i,
    {
        r.push(cur);
        proof {
            vstd::arithmetic::power::lemma_pow1(5);
            vstd::arithmetic::power::lemma_pow_adds(5, i as nat, 1);
            lemma_mul_mod_noop_left(pow(5, i as nat), 5, fft_length as int);
        }
        cur = mulmod(cur, 5, fft_length);
        i = i + 1;
    }
    r
}

} // verus!
