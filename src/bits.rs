//! Bit reversal of integers and the bit-reversal permutation of sequences.

use vstd::prelude::*;
use vstd::arithmetic::power2::{pow2, lemma_pow2_unfold};
use vstd::arithmetic::div_mod::lemma_div_denominator;

verus! {

/// The low `w` bits of `v`, least significant first.
pub open spec fn bits(v: nat, w: nat) -> Seq<bool>
    decreases w,
{
    if w == 0 {
        Seq::empty()
    } else {
        seq![v % 2 == 1] + bits(v / 2, (w - 1) as nat)
    }
}

/// The number whose bits, least significant first, are `s`.
pub open spec fn from_bits(s: Seq<bool>) -> nat
    decreases s.len(),
{
    if s.len() == 0 {
        0
    } else {
        (if s[0] { 1nat } else { 0nat }) + 2 * from_bits(s.drop_first())
    }
}

/// The low `w` bits of `v` in reverse order.
pub open spec fn rev_bits(v: nat, w: nat) -> nat {
    from_bits(bits(v, w).reverse())
}

/// `n` is a power of two.
pub open spec fn is_power_of_two(n: nat) -> bool
    decreases n,
{
    if n == 1 {
        true
    } else if n == 0 || n % 2 == 1 {
        false
    } else {
        is_power_of_two(n / 2)
    }
}

/// The base-two logarithm, rounded down.
pub open spec fn log2(n: nat) -> nat
    decreases n,
{
    if n <= 1 {
        0
    } else {
        1 + log2(n / 2)
    }
}

/// `s` permuted so that position `i` holds the element at the bit reversal of `i`.
pub open spec fn bit_reverse_seq<T>(s: Seq<T>) -> Seq<T> {
    Seq::new(s.len(), |i: int| s[rev_bits(i as nat, log2(s.len())) as int])
}

pub proof fn lemma_log2_pow2(n: nat)
    requires
        is_power_of_two(n),
    ensures
        pow2(log2(n)) == n,
    decreases n,
{
    if n > 1 {
        lemma_log2_pow2(n / 2);
        lemma_pow2_unfold(log2(n));
    } else {
        vstd::arithmetic::power2::lemma2_to64();
    }
}

pub proof fn lemma_from_bits_bound(s: Seq<bool>)
    ensures
        from_bits(s) < pow2(s.len()),
    decreases s.len(),
{
    if s.len() == 0 {
        vstd::arithmetic::power2::lemma2_to64();
    } else {
        lemma_from_bits_bound(s.drop_first());
        lemma_pow2_unfold(s.len());
    }
}

pub proof fn lemma_bits_len(v: nat, w: nat)
    ensures
        bits(v, w).len() == w,
    decreases w,
{
    if w > 0 {
        lemma_bits_len(v / 2, (w - 1) as nat);
    }
}

/// Adding one more bit appends the bit of weight 2^k.
pub proof fn lemma_bits_push(x: nat, k: nat)
    ensures
        bits(x, k + 1) == bits(x, k).push((x / pow2(k)) % 2 == 1),
    decreases k,
{
    if k == 0 {
        vstd::arithmetic::power2::lemma2_to64();
        assert(x / 1 == x);
        assert(bits(x / 2, 0) =~= Seq::<bool>::empty());
        assert(bits(x, 1) =~= bits(x, 0).push((x / pow2(0)) % 2 == 1));
    } else {
        lemma_bits_push(x / 2, (k - 1) as nat);
        lemma_pow2_unfold(k);
        vstd::arithmetic::power2::lemma_pow2_pos((k - 1) as nat);
        lemma_div_denominator(x as int, 2, pow2((k - 1) as nat) as int);
        assert(bits(x, k + 1) =~= bits(x, k).push((x / pow2(k)) % 2 == 1));
    }
}

pub proof fn lemma_bits_from_bits(s: Seq<bool>)
    ensures
        bits(from_bits(s), s.len()) == s,
    decreases s.len(),
{
    if s.len() > 0 {
        lemma_bits_from_bits(s.drop_first());
        let f = from_bits(s.drop_first());
        let b: nat = if s[0] { 1 } else { 0 };
        assert((b + 2 * f) % 2 == b);
        assert((b + 2 * f) / 2 == f);
        assert(bits(from_bits(s), s.len()) =~= s);
    }
}

pub proof fn lemma_from_bits_bits(v: nat, w: nat)
    requires
        v < pow2(w),
    ensures
        from_bits(bits(v, w)) == v,
    decreases w,
{
    if w == 0 {
        vstd::arithmetic::power2::lemma2_to64();
    } else {
        lemma_pow2_unfold(w);
        lemma_from_bits_bits(v / 2, (w - 1) as nat);
        assert(bits(v, w).drop_first() =~= bits(v / 2, (w - 1) as nat));
    }
}

pub proof fn lemma_rev_bits_bound(v: nat, w: nat)
    ensures
        rev_bits(v, w) < pow2(w),
{
    lemma_bits_len(v, w);
    lemma_from_bits_bound(bits(v, w).reverse());
}

/// Reversing the low `w` bits twice gives back any number below 2^w.
pub proof fn lemma_rev_bits_involution(v: nat, w: nat)
    requires
        v < pow2(w),
    ensures
        rev_bits(rev_bits(v, w), w) == v,
{
    let r = bits(v, w).reverse();
    lemma_bits_len(v, w);
    lemma_bits_from_bits(r);
    assert(r.reverse() =~= bits(v, w));
    lemma_from_bits_bits(v, w);
}

/// The bit-reversal permutation is an involution: applied twice it gives back the
/// sequence.
pub proof fn lemma_bit_reverse_involution<T>(s: Seq<T>)
    requires
        is_power_of_two(s.len()),
    ensures
        bit_reverse_seq(bit_reverse_seq(s)) == s,
{
    let w = log2(s.len());
    lemma_log2_pow2(s.len());
    assert forall|i: int| 0 <= i < s.len() implies #[trigger] bit_reverse_seq(bit_reverse_seq(s))[i] == s[i] by {
        lemma_rev_bits_bound(i as nat, w);
        lemma_rev_bits_involution(i as nat, w);
    }
    assert(bit_reverse_seq(bit_reverse_seq(s)) =~= s);
}

/// Reverses the low `width` bits of `value`. For example the 5-bit reversal of 0b00110 is
/// 0b01100.
pub fn reverse_bits(value: usize, width: u32) -> (r: usize)
    requires
        pow2(width as nat) <= usize::MAX as nat + 1,
    ensures
        r as nat == rev_bits(value as nat, width as nat),
{
    let mut r: usize = 0;
    let mut v: usize = value;
    let mut k: u32 = 0;
    proof {
        vstd::arithmetic::power2::lemma2_to64();
        assert(bits(value as nat, 0).reverse() =~= Seq::<bool>::empty());
    }
    while k < width
        invariant
            k <= width,
            pow2(width as nat) <= usize::MAX as nat + 1,
            r as nat == from_bits(bits(value as nat, k as nat).reverse()),
            v as nat == value as nat / pow2(k as nat),
        decreases width - k,
    {
        let ghost old_bits = bits(value as nat, k as nat);
        proof {
            lemma_bits_push(value as nat, k as nat);
            lemma_bits_len(value as nat, k as nat);
            let b = (v as nat % 2) == 1;
            let nb = bits(value as nat, (k + 1) as nat);
            assert(nb.reverse().drop_first() =~= old_bits.reverse());
            assert(nb.reverse()[0] == b);
            lemma_from_bits_bound(old_bits.reverse());
            vstd::arithmetic::power2::lemma_pow2_strictly_increases(k as nat, width as nat);
            lemma_pow2_unfold((k + 1) as nat);
            if k + 1 < width {
                vstd::arithmetic::power2::lemma_pow2_strictly_increases((k + 1) as nat, width as nat);
            }
            vstd::arithmetic::power2::lemma_pow2_pos(k as nat);
            lemma_div_denominator(value as int, pow2(k as nat) as int, 2);
        }
        r = 2 * r + v % 2;
        v = v / 2;
        k = k + 1;
    }
    r
}

/// Whether `n` is a power of two.
pub fn is_power_of_two_u64(n: u64) -> (r: bool)
    ensures
        r == is_power_of_two(n as nat),
{
    let mut m: u64 = n;
    while m > 1 && m % 2 == 0
        invariant
            is_power_of_two(m as nat) == is_power_of_two(n as nat),
        decreases m,
    {
        m = m / 2;
    }
    m == 1
}

/// The exact base-two logarithm of a power of two.
pub fn log2_exact(n: usize) -> (k: u32)
    requires
        is_power_of_two(n as nat),
    ensures
        k as nat == log2(n as nat),
        k <= 64,
{
    let mut m: usize = n;
    let mut k: u32 = 0;
    while m > 1
        invariant
            is_power_of_two(n as nat),
            is_power_of_two(m as nat),
            k as nat + log2(m as nat) == log2(n as nat),
            k <= 64,
            m <= n,
        decreases m,
    {
        proof {
            lemma_log2_pow2(m as nat);
            lemma_log2_pow2(n as nat);
            vstd::arithmetic::power2::lemma2_to64();
            if log2(n as nat) > 64 {
                vstd::arithmetic::power2::lemma_pow2_strictly_increases(64, log2(n as nat));
            }
        }
        m = m / 2;
        k = k + 1;
    }
    k
}

/// The sequence permuted by bit reversal of the indices: position `i` of the result holds
/// the element at `reverse_bits(i, log2(len))`.
pub fn bit_reverse_vec<T: Copy>(values: &Vec<T>) -> (r: Vec<T>)
    requires
        is_power_of_two(values@.len()),
    ensures
        r@ == bit_reverse_seq(values@),
{
    let len = values.len();
    let w = log2_exact(len);
    proof { lemma_log2_pow2(len as nat); }
    let mut r: Vec<T> = Vec::new();
    let mut i: usize = 0;
    while i < len
        invariant
            len == values@.len(),
            w as nat == log2(len as nat),
            pow2(w as nat) == len,
            i <= len,
            r@ == bit_reverse_seq(values@).subrange(0, i as int),
        decreases len - i,
    {
        let j = reverse_bits(i, w);
        proof { lemma_rev_bits_bound(i as nat, w as nat); }
        r.push(values[j]);
        i = i + 1;
        assert(r@ =~= bit_reverse_seq(values@).subrange(0, i as int));
    }
    assert(bit_reverse_seq(values@).subrange(0, i as int) =~= bit_reverse_seq(values@));
    r
}

} // verus!
