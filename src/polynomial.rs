//! Polynomials with machine-integer coefficients, in Z[X], with the reduction modulo X^n + 1.

use vstd::prelude::*;
use crate::ring::{conv, conv_len, conv_upto, cyc, fold_last, max_len, pmod_euclid, zip_add, coef_at};

verus! {

/// `x` fits in an `i32`.
pub open spec fn in_i32(x: int) -> bool {
    i32::MIN <= x <= i32::MAX
}

/// Every coefficient that the reduction modulo X^n + 1 of `c` computes, one step at a time,
/// fits in an `i32`.
pub open spec fn cyc_in_range(c: Seq<int>, n: nat) -> bool
    decreases c.len(),
{
    if n == 0 || c.len() <= n {
        true
    } else {
        let f = fold_last(c, n);
        in_i32(f[c.len() - 1 - n]) && cyc_in_range(f, n)
    }
}

/// The values of a vector of `i32`.
pub open spec fn ints32(v: Seq<i32>) -> Seq<int> {
    Seq::new(v.len(), |i: int| v[i] as int)
}

/// A polynomial of Z[X] with `i32` coefficients, lowest degree first.
#[derive(PartialEq, Eq, Debug)]
pub struct Polynomial {
    coef: Vec<i32>,
}

impl View for Polynomial {
    type V = Seq<int>;

    closed spec fn view(&self) -> Seq<int> {
        ints32(self.coef@)
    }
}

impl Polynomial {
    pub fn new(coef: Vec<i32>) -> (r: Self)
        ensures
            r@ == ints32(coef@),
    {
        Polynomial { coef }
    }

    pub fn len(&self) -> (r: usize)
        ensures
            r == self@.len(),
    {
        self.coef.len()
    }

    pub fn is_empty(&self) -> (r: bool)
        ensures
            r == (self@.len() == 0),
    {
        self.coef.len() == 0
    }

    /// The coefficients.
    pub fn coefficients(&self) -> (r: &Vec<i32>)
        ensures
            ints32(r@) == self@,
    {
        &self.coef
    }

    /// Reduces modulo X^n + 1, so that at most n coefficients remain.
    pub fn mod_cyc(&mut self, n: usize)
        requires
            n > 0,
            cyc_in_range(old(self)@, n as nat),
        ensures
            final(self)@ == cyc(old(self)@, n as nat),
    {
        let ghost target = cyc(self@, n as nat);
        while self.coef.len() > n
            invariant
                n > 0,
                cyc(self@, n as nat) == target,
                cyc_in_range(self@, n as nat),
            decreases self.coef.len(),
        {
            let ghost before = self@;
            let k = self.coef.len() - 1 - n;
            let last = self.coef.pop().unwrap();
            let d = self.coef[k] as i64 - last as i64;
            proof {
                assert(ints32(self.coef@) =~= before.drop_last());
                assert(fold_last(before, n as nat)[k as int] == d);
            }
            self.coef.set(k, d as i32);
            assert(self@ =~= fold_last(before, n as nat));
        }
    }

    /// Reduces every coefficient into `[0, q)`.
    pub fn rem_euclid(&mut self, q: i32)
        requires
            q > 0,
        ensures
            final(self)@ == pmod_euclid(old(self)@, q as int),
    {
        let ghost orig = self@;
        assert(forall|j: int| 0 <= j < orig.len() ==> #[trigger] self.coef@[j] as int == orig[j]);
        let mut i: usize = 0;
        while i < self.coef.len()
            invariant
                q > 0,
                i <= self.coef.len(),
                self.coef@.len() == orig.len(),
                forall|j: int| 0 <= j < i ==> #[trigger] self.coef@[j] as int == orig[j] % (q as int),
                forall|j: int| i <= j < orig.len() ==> #[trigger] self.coef@[j] as int == orig[j],
            decreases self.coef.len() - i,
        {
            let v = match self.coef[i].checked_rem_euclid(q) {
                Some(v) => v,
                None => 0,
            };
            self.coef.set(i, v);
            i = i + 1;
        }
        assert(self@ =~= pmod_euclid(orig, q as int));
    }

    /// The coefficient-wise sum, the shorter operand padded with zeros.
    pub fn add(self, other: Polynomial) -> (r: Polynomial)
        requires
            forall|i: int| 0 <= i < max_len(self@, other@) ==> in_i32(#[trigger] zip_add(self@, other@)[i]),
        ensures
            r@ == zip_add(self@, other@),
    {
        let la = self.coef.len();
        let lb = other.coef.len();
        let len = if la >= lb { la } else { lb };
        let ghost target = zip_add(self@, other@);
        let mut out: Vec<i32> = Vec::new();
        let mut i: usize = 0;
        while i < len
            invariant
                la == self@.len(),
                lb == other@.len(),
                len == max_len(self@, other@),
                target == zip_add(self@, other@),
                forall|j: int| 0 <= j < len ==> in_i32(#[trigger] target[j]),
                i <= len,
                out@.len() == i,
                forall|j: int| 0 <= j < i ==> #[trigger] out@[j] as int == target[j],
            decreases len - i,
        {
            let x: i64 = if i < la { self.coef[i] as i64 } else { 0 };
            let y: i64 = if i < lb { other.coef[i] as i64 } else { 0 };
            assert(target[i as int] == coef_at(self@, i as int) + coef_at(other@, i as int));
            assert(in_i32(target[i as int]));
            out.push((x + y) as i32);
            i = i + 1;
        }
        assert(ints32(out@) =~= target);
        Polynomial { coef: out }
    }

    /// The product in Z[X], by the schoolbook method, without reduction.
    pub fn mul(self, other: Polynomial) -> (r: Polynomial)
        requires
            self@.len() + other@.len() <= usize::MAX,
            forall|i: nat, k: int| i <= self@.len() && 0 <= k < conv_len(self@.len(), other@.len())
                ==> in_i32(#[trigger] conv_upto(self@, other@, i, k)),
        ensures
            r@ == conv(self@, other@),
    {
        let la = self.coef.len();
        let lb = other.coef.len();
        let len = if la + lb == 0 { 0 } else { la + lb - 1 };
        let ghost a = self@;
        let ghost b = other@;
        let mut res: Vec<i32> = Vec::new();
        let mut z: usize = 0;
        while z < len
            invariant
                z <= len,
                res@.len() == z,
                forall|k: int| 0 <= k < z ==> #[trigger] res@[k] == 0,
            decreases len - z,
        {
            res.push(0);
            z = z + 1;
        }
        let mut i: usize = 0;
        while i < la
            invariant
                la == a.len(),
                lb == b.len(),
                a == self@,
                b == other@,
                len == conv_len(a.len(), b.len()),
                forall|i: nat, k: int| i <= a.len() && 0 <= k < len ==> in_i32(#[trigger] conv_upto(a, b, i, k)),
                i <= la,
                res@.len() == len,
                forall|k: int| 0 <= k < len ==> #[trigger] res@[k] as int == conv_upto(a, b, i as nat, k),
            decreases la - i,
        {
            let mut j: usize = 0;
            while j < lb
                invariant
                    la == a.len(),
                    lb == b.len(),
                    a == self@,
                    b == other@,
                    len == conv_len(a.len(), b.len()),
                    forall|i: nat, k: int| i <= a.len() && 0 <= k < len ==> in_i32(#[trigger] conv_upto(a, b, i, k)),
                    i < la,
                    j <= lb,
                    res@.len() == len,
                    forall|k: int| 0 <= k < len ==> #[trigger] res@[k] as int == if i <= k < i + j {
                        conv_upto(a, b, (i + 1) as nat, k)
                    } else {
                        conv_upto(a, b, i as nat, k)
                    },
                decreases lb - j,
            {
                let k = i + j;
                let ghost old_res = res@;
                let x: i64 = self.coef[i] as i64;
                let y: i64 = other.coef[j] as i64;
                proof {
                    assert(-0x8000_0000 * 0x8000_0000 <= x * y <= 0x8000_0000 * 0x8000_0000) by (nonlinear_arith)
                        requires -0x8000_0000 <= x <= 0x7fff_ffff, -0x8000_0000 <= y <= 0x7fff_ffff;
                }
                let p: i64 = x * y;
                proof {
                    assert(a[i as int] == self.coef@[i as int] as int);
                    assert(b[j as int] == other.coef@[j as int] as int);
                    assert(conv_upto(a, b, (i + 1) as nat, k as int) == conv_upto(a, b, i as nat, k as int) + a[i as int] * b[j as int]);
                    assert(in_i32(conv_upto(a, b, (i + 1) as nat, k as int)));
                    assert(-0x8000_0000 * 0x8000_0000 <= p <= 0x8000_0000 * 0x8000_0000) by (nonlinear_arith)
                        requires p == self.coef@[i as int] as int * other.coef@[j as int] as int, i32::MIN <= self.coef@[i as int] <= i32::MAX, i32::MIN <= other.coef@[j as int] <= i32::MAX;
                }
                let s: i64 = res[k] as i64 + p;
                res.set(k, s as i32);
                j = j + 1;
                assert forall|m: int| 0 <= m < len implies #[trigger] res@[m] as int == if i <= m < i + j {
                    conv_upto(a, b, (i + 1) as nat, m)
                } else {
                    conv_upto(a, b, i as nat, m)
                } by {
                    if m != k {
                        assert(res@[m] == old_res[m]);
                    }
                }
            }
            assert forall|k: int| 0 <= k < len implies #[trigger] res@[k] as int == conv_upto(a, b, (i + 1) as nat, k) by {
                if !(i <= k < i + lb) {
                    assert(conv_upto(a, b, (i + 1) as nat, k) == conv_upto(a, b, i as nat, k));
                }
            }
            i = i + 1;
        }
        assert(ints32(res@) =~= conv(a, b));
        Polynomial { coef: res }
    }
}

} // verus!
