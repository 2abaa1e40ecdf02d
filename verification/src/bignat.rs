//! Unbounded natural numbers as little-endian base-2^64 limb vectors.
//!
//! Perplexity comparisons multiply many per-window probability factors
//! together; the products do not fit any machine integer, so they are
//! accumulated here. Only the operations the scorer needs exist: start at
//! one, multiply by a small factor, and compare.

use vstd::prelude::*;
use vstd::arithmetic::mul::{lemma_mul_inequality, lemma_mul_upper_bound};
use vstd::arithmetic::power2::{lemma_pow2_adds, lemma_pow2_pos, lemma2_to64, pow2};

verus! {

/// The limb at index `i`, with out-of-range indices reading as zero.
pub open spec fn limb_or_zero(s: Seq<u64>, i: int) -> u64 {
    if 0 <= i < s.len() {
        s[i]
    } else {
        0
    }
}

/// The value of the first `k` limbs of `s`, little-endian in base 2^64.
pub open spec fn limbs_upto(s: Seq<u64>, k: int) -> nat
    decreases k,
{
    if k <= 0 {
        0
    } else {
        limbs_upto(s, k - 1) + (limb_or_zero(s, k - 1) as nat) * pow2((64 * (k - 1)) as nat)
    }
}

/// The value of a whole limb sequence.
pub open spec fn limbs_value(s: Seq<u64>) -> nat {
    limbs_upto(s, s.len() as int)
}

/// Two sequences that agree limb by limb below `k` have the same value below `k`.
proof fn lemma_limbs_upto_agree(s: Seq<u64>, t: Seq<u64>, k: int)
    requires
        forall|i: int| 0 <= i < k ==> limb_or_zero(s, i) == limb_or_zero(t, i),
    ensures
        limbs_upto(s, k) == limbs_upto(t, k),
    decreases k,
{
    if k > 0 {
        lemma_limbs_upto_agree(s, t, k - 1);
    }
}

/// Reading past the end of the sequence adds nothing to the value.
proof fn lemma_limbs_upto_extend(s: Seq<u64>, k: int)
    requires
        k >= s.len(),
    ensures
        limbs_upto(s, k) == limbs_value(s),
    decreases k,
{
    if k > s.len() {
        lemma_limbs_upto_extend(s, k - 1);
        assert(limb_or_zero(s, k - 1) == 0);
        assert(((0 as u64) as nat) * pow2((64 * (k - 1)) as nat) == 0) by (nonlinear_arith);
    }
}

/// The first `k` limbs are worth less than 2^(64k).
proof fn lemma_limbs_upto_bound(s: Seq<u64>, k: int)
    requires
        k >= 0,
    ensures
        limbs_upto(s, k) < pow2((64 * k) as nat),
    decreases k,
{
    if k <= 0 {
        lemma_pow2_pos(0);
    } else {
        lemma_limbs_upto_bound(s, k - 1);
        let p: nat = pow2((64 * (k - 1)) as nat);
        let d: u64 = limb_or_zero(s, k - 1);
        lemma_pow2_pos((64 * (k - 1)) as nat);
        lemma2_to64();
        assert(d as nat <= (pow2(64) - 1) as nat);
        lemma_mul_inequality(d as int, pow2(64) as int - 1, p as int);
        assert((pow2(64) - 1) * p == pow2(64) * p - p) by (nonlinear_arith);
        lemma_pow2_adds(64, (64 * (k - 1)) as nat);
        assert(64 * k == 64 + 64 * (k - 1));
    }
}

/// An unbounded natural number: little-endian limbs in base 2^64.
pub struct BigNat {
    limbs: Vec<u64>,
}

impl View for BigNat {
    type V = nat;

    closed spec fn view(&self) -> nat {
        limbs_value(self.limbs@)
    }
}

impl BigNat {
    /// The number one, the neutral starting point of a product.
    pub fn one() -> (r: BigNat)
        ensures
            r@ == 1,
    {
        let mut limbs: Vec<u64> = Vec::new();
        limbs.push(1);
        proof {
            lemma2_to64();
            assert(limbs_upto(limbs@, 0) == 0);
            assert(limb_or_zero(limbs@, 0) == 1);
            assert(limbs_upto(limbs@, 1) == 0 + (limb_or_zero(limbs@, 0) as nat) * pow2(0));
            assert((1 as nat) * pow2(0) == pow2(0)) by (nonlinear_arith);
        }
        BigNat { limbs }
    }

    /// Multiply in place by a machine-word factor.
    pub fn mul_u64(&mut self, m: u64)
        ensures
            final(self)@ == old(self)@ * m,
    {
        let n = self.limbs.len();
        let mut out: Vec<u64> = Vec::new();
        let mut carry: u64 = 0;
        let mut i: usize = 0;
        proof {
            assert((0 as nat) * pow2(0) == 0) by (nonlinear_arith);
            assert(limbs_upto(self.limbs@, 0) * m == 0) by (nonlinear_arith);
        }
        while i < n
            invariant
                i <= n,
                n == self.limbs@.len(),
                out@.len() == i,
                limbs_upto(out@, i as int) + (carry as nat) * pow2((64 * i) as nat) == limbs_upto(
                    self.limbs@,
                    i as int,
                ) * m,
            decreases n - i,
        {
            let a: u64 = self.limbs[i];
            proof {
                lemma2_to64();
                lemma_mul_upper_bound(a as int, 0xffff_ffff_ffff_ffff, m as int, 0xffff_ffff_ffff_ffff);
            }
            let prod: u128 = (a as u128) * (m as u128) + (carry as u128);
            let lo: u64 = #[verifier::truncate] (prod as u64);
            let hi: u64 = #[verifier::truncate] ((prod >> 64u128) as u64);
            proof {
                assert(prod == (hi as u128) * 0x1_0000_0000_0000_0000u128 + (lo as u128)) by (bit_vector)
                    requires
                        lo == prod as u64 && hi == (prod >> 64u128) as u64,
                ;
                let p: nat = pow2((64 * i) as nat);
                let before: nat = limbs_upto(out@, i as int);
                let prev: nat = limbs_upto(self.limbs@, i as int);
                lemma_limbs_upto_agree(out@.push(lo), out@, i as int);
                assert(limb_or_zero(out@.push(lo), i as int) == lo);
                assert(limbs_upto(out@.push(lo), i as int + 1) == before + (lo as nat) * p);
                lemma_pow2_adds(64, (64 * i) as nat);
                assert(64 * (i + 1) == 64 + 64 * i);
                assert(limbs_upto(self.limbs@, i as int + 1) == prev + (a as nat) * p);
                assert(before + (lo as nat) * p + (hi as nat) * (pow2(64) * p) == before + ((lo as nat)
                    + (hi as nat) * pow2(64)) * p) by (nonlinear_arith);
                assert((lo as nat) + (hi as nat) * pow2(64) == (a as nat) * m + carry) by {
                    lemma2_to64();
                }
                assert(before + ((a as nat) * m + carry) * p == before + (carry as nat) * p + ((
                a as nat) * m) * p) by (nonlinear_arith);
                assert((prev + (a as nat) * p) * m == prev * m + ((a as nat) * m) * p)
                    by (nonlinear_arith);
            }
            out.push(lo);
            carry = hi;
            i += 1;
        }
        proof {
            lemma_limbs_upto_agree(out@.push(carry), out@, n as int);
            assert(limb_or_zero(out@.push(carry), n as int) == carry);
            assert(limbs_upto(out@.push(carry), n as int + 1) == limbs_upto(out@, n as int) + (
            carry as nat) * pow2((64 * n) as nat));
            lemma_limbs_upto_extend(self.limbs@, n as int);
        }
        out.push(carry);
        self.limbs = out;
    }

    /// Strict comparison of values.
    pub fn lt(&self, other: &BigNat) -> (r: bool)
        ensures
            r == (self@ < other@),
    {
        let la = self.limbs.len();
        let lb = other.limbs.len();
        let top = if la < lb {
            lb
        } else {
            la
        };
        let mut below: bool = false;
        let mut i: usize = 0;
        while i < top
            invariant
                i <= top,
                la == self.limbs@.len(),
                lb == other.limbs@.len(),
                top >= la && top >= lb,
                below == (limbs_upto(self.limbs@, i as int) < limbs_upto(other.limbs@, i as int)),
            decreases top - i,
        {
            let a: u64 = if i < la {
                self.limbs[i]
            } else {
                0
            };
            let b: u64 = if i < lb {
                other.limbs[i]
            } else {
                0
            };
            proof {
                let p: nat = pow2((64 * i) as nat);
                let va: nat = limbs_upto(self.limbs@, i as int);
                let vb: nat = limbs_upto(other.limbs@, i as int);
                lemma_limbs_upto_bound(self.limbs@, i as int);
                lemma_limbs_upto_bound(other.limbs@, i as int);
                lemma_pow2_pos((64 * i) as nat);
                if a < b {
                    assert(va + (a as nat) * p < p + (a as nat) * p);
                    assert(p + (a as nat) * p == ((a as nat) + 1) * p) by (nonlinear_arith);
                    lemma_mul_inequality(a as int + 1, b as int, p as int);
                    assert((b as nat) * p <= vb + (b as nat) * p);
                } else if a > b {
                    assert(vb + (b as nat) * p < p + (b as nat) * p);
                    assert(p + (b as nat) * p == ((b as nat) + 1) * p) by (nonlinear_arith);
                    lemma_mul_inequality(b as int + 1, a as int, p as int);
                    assert((a as nat) * p <= va + (a as nat) * p);
                }
            }
            if a < b {
                below = true;
            } else if a > b {
                below = false;
            }
            i += 1;
        }
        proof {
            lemma_limbs_upto_extend(self.limbs@, top as int);
            lemma_limbs_upto_extend(other.limbs@, top as int);
        }
        below
    }
}

} // verus!
