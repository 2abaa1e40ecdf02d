//! Perplexity scoring over a frequency model, exactly.
//!
//! The entropy of a token sequence is the mean of `-log2 p(w)` over its
//! scoring windows, and its perplexity is two to that power — equivalently,
//! the reciprocal of the geometric mean of the window probabilities. Those
//! reals are irrational in general, but the *ordering* of two perplexities
//! is decidable exactly: with window probability products `An/Ad` over `aw`
//! windows and `Bn/Bd` over `bw` windows,
//!
//! `perplexity(a) < perplexity(b)  iff  An^bw * Bd^aw > Bn^aw * Ad^bw`,
//!
//! obtained by raising both geometric means to the positive power `aw * bw`.
//! This module states that ordering over the model's exact rational window
//! probabilities and decides it with unbounded-integer arithmetic. A zero
//! probability product corresponds to infinite perplexity and is ordered
//! accordingly. Lower perplexity means closer to the training corpus; the
//! synthesizer minimizes it on purpose.

use vstd::prelude::*;
use vstd::arithmetic::mul::{lemma_mul_strict_inequality_converse, lemma_mul_upper_bound};
use vstd::arithmetic::power::{
    lemma0_pow, lemma1_pow, lemma_pow0, lemma_pow1, lemma_pow_adds, lemma_pow_distributes,
    lemma_pow_multiplies, lemma_pow_positive, pow,
};

verus! {

use crate::Error;
use crate::model::{windows_of, ModelView};

/// The product of the smoothed-probability numerators of the first `k`
/// windows.
pub open spec fn num_prod_upto(m: ModelView, ws: Seq<Seq<Seq<char>>>, k: int) -> nat
    decreases k,
{
    if k <= 0 {
        1
    } else {
        num_prod_upto(m, ws, k - 1) * if 0 <= k - 1 < ws.len() {
            m.prob_num(ws[k - 1])
        } else {
            1
        }
    }
}

/// The product of the smoothed-probability numerators over all windows.
pub open spec fn num_prod(m: ModelView, ws: Seq<Seq<Seq<char>>>) -> nat {
    num_prod_upto(m, ws, ws.len() as int)
}

/// The product of the smoothed-probability denominators of the first `k`
/// windows.
pub open spec fn den_prod_upto(m: ModelView, ws: Seq<Seq<Seq<char>>>, k: int) -> nat
    decreases k,
{
    if k <= 0 {
        1
    } else {
        den_prod_upto(m, ws, k - 1) * if 0 <= k - 1 < ws.len() {
            m.prob_den(ws[k - 1])
        } else {
            1
        }
    }
}

/// The product of the smoothed-probability denominators over all windows.
pub open spec fn den_prod(m: ModelView, ws: Seq<Seq<Seq<char>>>) -> nat {
    den_prod_upto(m, ws, ws.len() as int)
}

/// The exact perplexity ordering of two scores, each a probability product
/// `n/d` over `w` windows: the first sequence is strictly closer to the
/// corpus (strictly lower perplexity) than the second.
pub open spec fn score_lt(an: nat, ad: nat, aw: nat, bn: nat, bd: nat, bw: nat) -> bool {
    pow(an as int, bw) * pow(bd as int, aw) > pow(bn as int, aw) * pow(ad as int, bw)
}

/// Whether sequence `a` has strictly lower perplexity than sequence `b`
/// under model `m`, both given by their window sequences.
pub open spec fn perp_lt(m: ModelView, wa: Seq<Seq<Seq<char>>>, wb: Seq<Seq<Seq<char>>>) -> bool {
    score_lt(num_prod(m, wa), den_prod(m, wa), wa.len(), num_prod(m, wb), den_prod(m, wb), wb.len())
}

/// A power of a natural is non-negative.
proof fn lemma_pow_nonneg(x: nat, e: nat)
    ensures
        pow(x as int, e) >= 0,
{
    if x == 0 {
        if e == 0 {
            lemma_pow0(0);
        } else {
            lemma0_pow(e);
        }
    } else {
        lemma_pow_positive(x as int, e);
    }
}

/// One unfolding of a power from the top: `x^e == x^(e-1) * x`.
proof fn lemma_pow_step(x: nat, e: nat)
    requires
        e >= 1,
    ensures
        pow(x as int, e) == pow(x as int, (e - 1) as nat) * x,
{
    lemma_pow_adds(x as int, (e - 1) as nat, 1nat);
    lemma_pow1(x as int);
}

/// Raising to a power preserves the order of bases.
proof fn lemma_pow_base_le(x: nat, y: nat, e: nat)
    requires
        x <= y,
    ensures
        pow(x as int, e) <= pow(y as int, e),
    decreases e,
{
    if e == 0 {
        lemma_pow0(x as int);
        lemma_pow0(y as int);
    } else {
        lemma_pow_base_le(x, y, (e - 1) as nat);
        lemma_pow_step(x, e);
        lemma_pow_step(y, e);
        lemma_pow_nonneg(x, (e - 1) as nat);
        lemma_mul_upper_bound(pow(x as int, (e - 1) as nat), pow(y as int, (e - 1) as nat), x as int, y as int);
    }
}

/// Raising to a positive power preserves strict order of bases.
proof fn lemma_pow_base_lt(x: nat, y: nat, e: nat)
    requires
        x < y,
        e >= 1,
    ensures
        pow(x as int, e) < pow(y as int, e),
{
    lemma_pow_base_le(x, y, (e - 1) as nat);
    lemma_pow_step(x, e);
    lemma_pow_step(y, e);
    lemma_pow_nonneg(x, (e - 1) as nat);
    lemma_pow_positive(y as int, (e - 1) as nat);
    let px = pow(x as int, (e - 1) as nat);
    let py = pow(y as int, (e - 1) as nat);
    assert(px * x < py * y) by (nonlinear_arith)
        requires
            0 <= px && px <= py && 1 <= py && x < y,
    ;
}

/// Strict order of positive powers reflects back to the bases.
proof fn lemma_pow_base_gt(x: nat, y: nat, e: nat)
    requires
        pow(x as int, e) > pow(y as int, e),
        e >= 1,
    ensures
        x > y,
{
    if x <= y {
        lemma_pow_base_le(x, y, e);
    }
}

/// The perplexity ordering is transitive. (With it, "the best candidate
/// seen so far" is a meaningful notion: a running minimum under this
/// ordering beats every candidate it ever displaced.)
#[verifier::rlimit(100)]
pub proof fn lemma_score_lt_transitive(
    an: nat, ad: nat, aw: nat,
    bn: nat, bd: nat, bw: nat,
    cn: nat, cd: nat, cw: nat,
)
    requires
        ad > 0 && bd > 0 && cd > 0,
        aw >= 1 && bw >= 1 && cw >= 1,
        score_lt(an, ad, aw, bn, bd, bw),
        score_lt(bn, bd, bw, cn, cd, cw),
    ensures
        score_lt(an, ad, aw, cn, cd, cw),
{
    // The middle sequence's probability product must be positive: were it
    // zero, nothing could score strictly above it.
    if bn == 0 {
        lemma0_pow(cw);
        assert(pow(bn as int, cw) == 0);
        lemma_pow_nonneg(bd, bw);
        lemma_pow_nonneg(bd, cw);
        lemma_pow_nonneg(cn, bw);
        lemma_pow_nonneg(cd, bw);
        assert(pow(bn as int, cw) * pow(cd as int, bw) == 0) by (nonlinear_arith)
            requires
                pow(bn as int, cw) == 0,
        ;
        assert(pow(cn as int, bw) * pow(bd as int, cw) >= 0) by (nonlinear_arith)
            requires
                pow(cn as int, bw) >= 0 && pow(bd as int, cw) >= 0,
        ;
        assert(false);
    }
    // Raise the first comparison to the power cw, the second to aw.
    let l1: int = pow(an as int, bw) * pow(bd as int, aw);
    let r1: int = pow(bn as int, aw) * pow(ad as int, bw);
    let l2: int = pow(bn as int, cw) * pow(cd as int, bw);
    let r2: int = pow(cn as int, bw) * pow(bd as int, cw);
    lemma_pow_nonneg(bn, aw);
    lemma_pow_nonneg(ad, bw);
    lemma_pow_nonneg(cn, bw);
    lemma_pow_nonneg(bd, cw);
    assert(r1 >= 0) by (nonlinear_arith)
        requires
            r1 == pow(bn as int, aw) * pow(ad as int, bw),
            pow(bn as int, aw) >= 0 && pow(ad as int, bw) >= 0,
    ;
    assert(r2 >= 0) by (nonlinear_arith)
        requires
            r2 == pow(cn as int, bw) * pow(bd as int, cw),
            pow(cn as int, bw) >= 0 && pow(bd as int, cw) >= 0,
    ;
    lemma_pow_base_lt((r1) as nat, (l1) as nat, cw);
    lemma_pow_base_lt((r2) as nat, (l2) as nat, aw);
    // Expand both sides into powers of the nine bases.
    lemma_pow_distributes(pow(an as int, bw), pow(bd as int, aw), cw);
    lemma_pow_distributes(pow(bn as int, aw), pow(ad as int, bw), cw);
    lemma_pow_distributes(pow(bn as int, cw), pow(cd as int, bw), aw);
    lemma_pow_distributes(pow(cn as int, bw), pow(bd as int, cw), aw);
    lemma_pow_multiplies(an as int, bw, cw);
    lemma_pow_multiplies(bd as int, aw, cw);
    lemma_pow_multiplies(bn as int, aw, cw);
    lemma_pow_multiplies(ad as int, bw, cw);
    lemma_pow_multiplies(bn as int, cw, aw);
    lemma_pow_multiplies(cd as int, bw, aw);
    lemma_pow_multiplies(cn as int, bw, aw);
    lemma_pow_multiplies(bd as int, cw, aw);
    let pan = pow(an as int, bw * cw);
    let pad = pow(ad as int, bw * cw);
    let pbn = pow(bn as int, aw * cw);
    let pbd = pow(bd as int, aw * cw);
    let pcn = pow(cn as int, aw * bw);
    let pcd = pow(cd as int, aw * bw);
    assert(aw * cw == cw * aw && bw * cw == cw * bw && aw * bw == bw * aw) by (nonlinear_arith);
    assert(pow(l1, cw) == pan * pbd);
    assert(pow(r1, cw) == pbn * pad);
    assert(pow(l2, aw) == pbn * pcd);
    assert(pow(r2, aw) == pcn * pbd);
    // Multiply the two strict comparisons.
    lemma_pow_nonneg(bn, aw * cw);
    lemma_pow_nonneg(ad, bw * cw);
    lemma_pow_nonneg(cn, aw * bw);
    lemma_pow_nonneg(bd, aw * cw);
    assert(0 <= pbn * pad) by (nonlinear_arith)
        requires
            pbn >= 0 && pad >= 0,
    ;
    assert(0 <= pcn * pbd) by (nonlinear_arith)
        requires
            pcn >= 0 && pbd >= 0,
    ;
    assert((pbn * pad) * (pcn * pbd) < (pan * pbd) * (pbn * pcd)) by (nonlinear_arith)
        requires
            pbn * pad < pan * pbd,
            pcn * pbd < pbn * pcd,
            0 <= pbn * pad,
            0 <= pcn * pbd,
    ;
    // Cancel the positive common factor of both sides.
    lemma_pow_positive(bn as int, aw * cw);
    lemma_pow_positive(bd as int, aw * cw);
    let x: int = pbn * pbd;
    assert(x > 0) by (nonlinear_arith)
        requires
            x == pbn * pbd,
            pbn > 0 && pbd > 0,
    ;
    assert((pad * pcn) * x < (pan * pcd) * x) by (nonlinear_arith)
        requires
            (pbn * pad) * (pcn * pbd) < (pan * pbd) * (pbn * pcd),
            x == pbn * pbd,
    ;
    lemma_mul_strict_inequality_converse(pad * pcn, pan * pcd, x);
    // Fold the remaining powers back down by the shared exponent bw.
    lemma_pow_multiplies(an as int, cw, bw);
    lemma_pow_multiplies(cd as int, aw, bw);
    lemma_pow_multiplies(cn as int, aw, bw);
    lemma_pow_multiplies(ad as int, cw, bw);
    lemma_pow_distributes(pow(an as int, cw), pow(cd as int, aw), bw);
    lemma_pow_distributes(pow(cn as int, aw), pow(ad as int, cw), bw);
    let ga: int = pow(an as int, cw) * pow(cd as int, aw);
    let gb: int = pow(cn as int, aw) * pow(ad as int, cw);
    assert(bw * cw == cw * bw && aw * bw == bw * aw) by (nonlinear_arith);
    assert(pow(ga, bw) == pan * pcd);
    assert(pow(gb, bw) == pcn * pad);
    lemma_pow_nonneg(an, cw);
    lemma_pow_nonneg(cd, aw);
    lemma_pow_nonneg(cn, aw);
    lemma_pow_nonneg(ad, cw);
    assert(ga >= 0) by (nonlinear_arith)
        requires
            ga == pow(an as int, cw) * pow(cd as int, aw),
            pow(an as int, cw) >= 0 && pow(cd as int, aw) >= 0,
    ;
    assert(gb >= 0) by (nonlinear_arith)
        requires
            gb == pow(cn as int, aw) * pow(ad as int, cw),
            pow(cn as int, aw) >= 0 && pow(ad as int, cw) >= 0,
    ;
    assert(pcn * pad < pan * pcd) by (nonlinear_arith)
        requires
            (pad * pcn) < (pan * pcd),
    ;
    lemma_pow_base_gt(ga as nat, gb as nat, bw);
}

/// The ordering is irreflexive: no score beats itself.
pub proof fn lemma_score_lt_irreflexive(n: nat, d: nat, w: nat)
    ensures
        !score_lt(n, d, w, n, d, w),
{
}

/// The factor at index `i` of a factor vector, one when out of range.
pub open spec fn fact_or_one(s: Seq<u64>, i: int) -> nat {
    if 0 <= i < s.len() {
        s[i] as nat
    } else {
        1
    }
}

/// The product of the first `k` factors.
pub open spec fn fact_prod_upto(s: Seq<u64>, k: int) -> nat
    decreases k,
{
    if k <= 0 {
        1
    } else {
        fact_prod_upto(s, k - 1) * fact_or_one(s, k - 1)
    }
}

/// The product of a whole factor vector.
pub open spec fn fact_prod(s: Seq<u64>) -> nat {
    fact_prod_upto(s, s.len() as int)
}

/// Factor vectors that agree below `k` have the same product below `k`.
proof fn lemma_fact_prod_agree(s: Seq<u64>, t: Seq<u64>, k: int)
    requires
        forall|i: int| 0 <= i < k ==> fact_or_one(s, i) == fact_or_one(t, i),
    ensures
        fact_prod_upto(s, k) == fact_prod_upto(t, k),
    decreases k,
{
    if k > 0 {
        lemma_fact_prod_agree(s, t, k - 1);
    }
}

/// The product of the first `k` factors, each raised to the power `e`.
pub open spec fn pows_upto(s: Seq<u64>, k: int, e: nat) -> int
    decreases k,
{
    if k <= 0 {
        1
    } else {
        pows_upto(s, k - 1, e) * pow(fact_or_one(s, k - 1) as int, e)
    }
}

/// Multiplying the per-factor powers equals raising the product to that
/// power.
proof fn lemma_pows_is_pow_of_prod(s: Seq<u64>, k: int, e: nat)
    requires
        k >= 0,
    ensures
        pows_upto(s, k, e) == pow(fact_prod_upto(s, k) as int, e),
    decreases k,
{
    if k == 0 {
        lemma1_pow(e);
        assert(fact_prod_upto(s, 0) == 1);
    } else {
        lemma_pows_is_pow_of_prod(s, k - 1, e);
        lemma_pow_distributes(fact_prod_upto(s, k - 1) as int, fact_or_one(s, k - 1) as int, e);
        assert(fact_prod_upto(s, k) as int == fact_prod_upto(s, k - 1) as int * fact_or_one(
            s,
            k - 1,
        ) as int);
    }
}

/// A positive denominator product for every window prefix of a trained
/// model.
pub(crate) proof fn lemma_den_prod_positive(m: ModelView, ws: Seq<Seq<Seq<char>>>, k: int)
    requires
        m.wf(),
        m.total > 0,
        k >= 0,
    ensures
        den_prod_upto(m, ws, k) > 0,
    decreases k,
{
    if k > 0 {
        lemma_den_prod_positive(m, ws, k - 1);
        if 0 <= k - 1 < ws.len() {
            crate::model::lemma_probability_finite_nonnegative(m, ws[k - 1]);
            assert(den_prod_upto(m, ws, k - 1) * m.prob_den(ws[k - 1]) > 0) by (nonlinear_arith)
                requires
                    den_prod_upto(m, ws, k - 1) > 0 && m.prob_den(ws[k - 1]) > 0,
            ;
        } else {
            assert(den_prod_upto(m, ws, k - 1) * 1 > 0) by (nonlinear_arith)
                requires
                    den_prod_upto(m, ws, k - 1) > 0,
            ;
        }
    }
}

/// Multiply into `acc` every factor of `s`, each `e` times.
fn mul_in_pows(acc: &mut crate::bignat::BigNat, s: &Vec<u64>, e: usize)
    ensures
        final(acc)@ == old(acc)@ * pows_upto(s@, s@.len() as int, e as nat),
{
    let n = s.len();
    let mut i: usize = 0;
    proof {
        let g: int = old(acc)@ as int;
        assert(g * pows_upto(s@, 0, e as nat) == g) by (nonlinear_arith)
            requires
                pows_upto(s@, 0, e as nat) == 1,
        ;
    }
    while i < n
        invariant
            i <= n,
            n == s@.len(),
            acc@ == old(acc)@ * pows_upto(s@, i as int, e as nat),
        decreases n - i,
    {
        let f = s[i];
        let mut j: usize = 0;
        proof {
            lemma_pow0(f as int);
        }
        while j < e
            invariant
                j <= e,
                i < n,
                n == s@.len(),
                f == s@[i as int],
                acc@ == old(acc)@ * pows_upto(s@, i as int, e as nat) * pow(f as int, j as nat),
            decreases e - j,
        {
            acc.mul_u64(f);
            proof {
                lemma_pow_step(f as nat, (j + 1) as nat);
                let base: int = old(acc)@ * pows_upto(s@, i as int, e as nat);
                assert(base * pow(f as int, j as nat) * f == base * pow(f as int, (j + 1) as nat))
                    by (nonlinear_arith)
                    requires
                        pow(f as int, (j + 1) as nat) == pow(f as int, j as nat) * f,
                ;
            }
            j += 1;
        }
        proof {
            assert(fact_or_one(s@, i as int) == f as nat);
            assert(pows_upto(s@, i as int + 1, e as nat) == pows_upto(s@, i as int, e as nat)
                * pow(f as int, e as nat));
            let base: int = old(acc)@ as int;
            assert(base * pows_upto(s@, i as int, e as nat) * pow(f as int, e as nat) == base * (
            pows_upto(s@, i as int, e as nat) * pow(f as int, e as nat))) by (nonlinear_arith);
        }
        i += 1;
    }
}

/// The cross term of the perplexity comparison: the product of the `xs`
/// factors raised to `xe` times the product of the `ys` factors raised to
/// `ye`, as an unbounded integer.
pub(crate) fn cross_term(xs: &Vec<u64>, xe: usize, ys: &Vec<u64>, ye: usize) -> (r: crate::bignat::BigNat)
    ensures
        r@ == pow(fact_prod(xs@) as int, xe as nat) * pow(fact_prod(ys@) as int, ye as nat),
{
    let mut acc = crate::bignat::BigNat::one();
    mul_in_pows(&mut acc, xs, xe);
    mul_in_pows(&mut acc, ys, ye);
    proof {
        lemma_pows_is_pow_of_prod(xs@, xs@.len() as int, xe as nat);
        lemma_pows_is_pow_of_prod(ys@, ys@.len() as int, ye as nat);
        let px: int = pows_upto(xs@, xs@.len() as int, xe as nat);
        let py: int = pows_upto(ys@, ys@.len() as int, ye as nat);
        assert(1 * px * py == px * py) by (nonlinear_arith);
    }
    acc
}

impl crate::model::Model {
    /// Append the two numerator and two denominator factors of one window's
    /// exact probability.
    pub(crate) fn push_factors(&self, item: &Vec<String>, nums: &mut Vec<u64>, dens: &mut Vec<u64>)
        requires
            self@.wf(),
            self@.total > 0,
        ensures
            final(nums)@.len() == old(nums)@.len() + 2,
            final(dens)@.len() == old(dens)@.len() + 2,
            forall|i: int| 0 <= i < old(nums)@.len() ==> final(nums)@[i] == old(nums)@[i],
            forall|i: int| 0 <= i < old(dens)@.len() ==> final(dens)@[i] == old(dens)@[i],
            (final(nums)@[old(nums)@.len() as int] as nat) * (final(nums)@[old(nums)@.len() as int
                + 1] as nat) == self@.prob_num(item.deep_view()),
            (final(dens)@[old(dens)@.len() as int] as nat) * (final(dens)@[old(dens)@.len() as int
                + 1] as nat) == self@.prob_den(item.deep_view()),
    {
        let r = self.count_lookup(item);
        let nr = self.n_at(r);
        let nr1 = self.n_after(r);
        if nr > 0 && nr1 > 0 {
            let tl = self.table_len();
            proof {
                assert(((r + 1) as nat) < self@.table.len());
            }
            nums.push((r + 1) as u64);
            nums.push(nr1 as u64);
            dens.push(nr as u64);
            dens.push(self.total() as u64);
        } else {
            nums.push(r as u64);
            nums.push(1);
            dens.push(self.total() as u64);
            dens.push(1);
            proof {
                let rr = self@.count_of(item.deep_view());
                assert((rr as u64 as nat) * (1 as nat) == rr) by (nonlinear_arith)
                    requires
                        rr as u64 as nat == rr,
                ;
                let t = self@.total;
                assert((t as u64 as nat) * (1 as nat) == t) by (nonlinear_arith)
                    requires
                        t as u64 as nat == t,
                ;
            }
        }
    }

    /// The probability factors of every scoring window of `toks`: two
    /// numerator and two denominator factors per window, whose running
    /// products are exactly the window probability products of the
    /// perplexity ordering.
    pub(crate) fn window_factors(&self, toks: &Vec<String>) -> (r: Result<
        (Vec<u64>, Vec<u64>, usize),
        Error,
    >)
        requires
            self@.wf(),
        ensures
            ({
                let ws = windows_of(self@.mode, toks.deep_view());
                match r {
                    Ok(f) => {
                        &&& self@.total > 0
                        &&& ws.len() > 0
                        &&& f.2 == ws.len()
                        &&& fact_prod(f.0@) == num_prod(self@, ws)
                        &&& fact_prod(f.1@) == den_prod(self@, ws)
                    },
                    Err(e) => (e == Error::ModelUntrained && self@.total == 0) || (e
                        == Error::EmptyWindow && self@.total > 0 && ws.len() == 0),
                }
            }),
    {
        let ghost dtoks = toks.deep_view();
        let ghost ws = windows_of(self@.mode, dtoks);
        if self.total() == 0 {
            return Err(Error::ModelUntrained);
        }
        let tlen = toks.len();
        let wcount: usize = match self.mode() {
            crate::model::Mode::Unigram => tlen,
            crate::model::Mode::Bigram => if tlen < 2 {
                0
            } else {
                tlen - 1
            },
        };
        proof {
            assert(ws.len() == wcount);
        }
        if wcount == 0 {
            return Err(Error::EmptyWindow);
        }
        let mut nums: Vec<u64> = Vec::new();
        let mut dens: Vec<u64> = Vec::new();
        let mut wi: usize = 0;
        while wi < wcount
            invariant
                wi <= wcount,
                tlen == toks@.len(),
                dtoks == toks.deep_view(),
                ws == windows_of(self@.mode, dtoks),
                ws.len() == wcount,
                wcount > 0,
                self@.wf(),
                self@.total > 0,
                nums@.len() == 2 * wi,
                dens@.len() == 2 * wi,
                fact_prod_upto(nums@, 2 * wi as int) == num_prod_upto(self@, ws, wi as int),
                fact_prod_upto(dens@, 2 * wi as int) == den_prod_upto(self@, ws, wi as int),
            decreases wcount - wi,
        {
            let mut item: Vec<String> = Vec::new();
            match self.mode() {
                crate::model::Mode::Unigram => {
                    item.push(toks[wi].clone());
                },
                crate::model::Mode::Bigram => {
                    item.push(toks[wi].clone());
                    item.push(toks[wi + 1].clone());
                },
            }
            proof {
                assert(toks@[wi as int]@ == dtoks[wi as int]);
                assert(item.deep_view() =~= ws[wi as int]);
            }
            let ghost nums0 = nums@;
            let ghost dens0 = dens@;
            self.push_factors(&item, &mut nums, &mut dens);
            proof {
                lemma_fact_prod_agree(nums@, nums0, 2 * wi as int);
                lemma_fact_prod_agree(dens@, dens0, 2 * wi as int);
                let f1 = fact_or_one(nums@, 2 * wi as int);
                let f2 = fact_or_one(nums@, 2 * wi as int + 1);
                let base = fact_prod_upto(nums@, 2 * wi as int);
                assert(fact_prod_upto(nums@, 2 * wi as int + 1) == base * f1);
                assert(fact_prod_upto(nums@, 2 * wi as int + 2) == fact_prod_upto(
                    nums@,
                    2 * wi as int + 1,
                ) * f2);
                assert(fact_prod_upto(nums@, 2 * wi as int + 2) == base * f1 * f2);
                assert(f1 * f2 == self@.prob_num(ws[wi as int]));
                assert(base * f1 * f2 == base * (f1 * f2)) by (nonlinear_arith);
                let g1 = fact_or_one(dens@, 2 * wi as int);
                let g2 = fact_or_one(dens@, 2 * wi as int + 1);
                let dbase = fact_prod_upto(dens@, 2 * wi as int);
                assert(fact_prod_upto(dens@, 2 * wi as int + 1) == dbase * g1);
                assert(fact_prod_upto(dens@, 2 * wi as int + 2) == fact_prod_upto(
                    dens@,
                    2 * wi as int + 1,
                ) * g2);
                assert(fact_prod_upto(dens@, 2 * wi as int + 2) == dbase * g1 * g2);
                assert(g1 * g2 == self@.prob_den(ws[wi as int]));
                assert(dbase * g1 * g2 == dbase * (g1 * g2)) by (nonlinear_arith);
                assert(2 * (wi + 1) as int == 2 * wi as int + 2);
            }
            wi += 1;
        }
        Ok((nums, dens, wcount))
    }

    /// Decide whether the sequence `a` has strictly lower perplexity than
    /// the sequence `b` under this model: whether it is strictly closer to
    /// the training corpus. The decision is exact — unbounded integer
    /// arithmetic over the cross powers of the window probability products.
    /// Untrained models are refused, as is a sequence with no scoring
    /// window.
    pub fn perplexity_lt(&self, a: &Vec<String>, b: &Vec<String>) -> (r: Result<bool, Error>)
        requires
            self@.wf(),
        ensures
            ({
                let wa = windows_of(self@.mode, a.deep_view());
                let wb = windows_of(self@.mode, b.deep_view());
                match r {
                    Ok(v) => {
                        &&& self@.total > 0
                        &&& wa.len() > 0
                        &&& wb.len() > 0
                        &&& v == perp_lt(self@, wa, wb)
                    },
                    Err(e) => (e == Error::ModelUntrained && self@.total == 0) || (e
                        == Error::EmptyWindow && self@.total > 0 && (wa.len() == 0 || wb.len()
                            == 0)),
                }
            }),
    {
        let fa = match self.window_factors(a) {
            Ok(f) => f,
            Err(e) => {
                return Err(e);
            },
        };
        let fb = match self.window_factors(b) {
            Ok(f) => f,
            Err(e) => {
                return Err(e);
            },
        };
        let lhs = cross_term(&fa.0, fb.2, &fb.1, fa.2);
        let rhs = cross_term(&fb.0, fa.2, &fa.1, fb.2);
        Ok(rhs.lt(&lhs))
    }
}

/// In unigram mode, a sequence repeating a single token ranks against
/// another such sequence exactly as the two tokens' probabilities do,
/// whatever the lengths: when the probability of `t` strictly exceeds that
/// of `u` (as cross-multiplied exact rationals), every sequence of `t`
/// alone has strictly lower perplexity than every sequence of `u` alone. In
/// particular, a sequence built entirely from a most frequent observed
/// token beats a sequence built entirely from a never-observed token
/// whenever the observed token's probability is strictly greater.
pub proof fn lemma_repeated_token_rank(
    m: ModelView,
    t: Seq<char>,
    u: Seq<char>,
    k1: nat,
    k2: nat,
)
    requires
        m.wf(),
        m.total > 0,
        m.mode == crate::model::Mode::Unigram,
        k1 >= 1,
        k2 >= 1,
        m.prob_num(seq![t]) * m.prob_den(seq![u]) > m.prob_num(seq![u]) * m.prob_den(seq![t]),
    ensures
        perp_lt(
            m,
            windows_of(m.mode, Seq::new(k1, |i: int| t)),
            windows_of(m.mode, Seq::new(k2, |i: int| u)),
        ),
{
    let wa = windows_of(m.mode, Seq::new(k1, |i: int| t));
    let wb = windows_of(m.mode, Seq::new(k2, |i: int| u));
    assert(wa.len() == k1 && wb.len() == k2);
    assert forall|i: int| 0 <= i < wa.len() implies wa[i] == seq![t] by {
        assert(wa[i] =~= seq![t]);
    };
    assert forall|i: int| 0 <= i < wb.len() implies wb[i] == seq![u] by {
        assert(wb[i] =~= seq![u]);
    };
    lemma_constant_sequences_rank(m, wa, wb, seq![t], seq![u]);
}

/// A product over windows that all equal one window `w` is the
/// corresponding power of that window's probability part.
proof fn lemma_const_prods(m: ModelView, ws: Seq<Seq<Seq<char>>>, w: Seq<Seq<char>>, k: int)
    requires
        forall|i: int| 0 <= i < ws.len() ==> ws[i] == w,
        0 <= k <= ws.len(),
    ensures
        num_prod_upto(m, ws, k) == pow(m.prob_num(w) as int, k as nat),
        den_prod_upto(m, ws, k) == pow(m.prob_den(w) as int, k as nat),
    decreases k,
{
    if k == 0 {
        lemma_pow0(m.prob_num(w) as int);
        lemma_pow0(m.prob_den(w) as int);
    } else {
        lemma_const_prods(m, ws, w, k - 1);
        lemma_pow_step(m.prob_num(w), k as nat);
        lemma_pow_step(m.prob_den(w), k as nat);
    }
}

/// Sequences repeating a single window each rank by the probability of that
/// window alone, whatever their lengths: the one with the strictly greater
/// window probability has the strictly lower perplexity. In particular a
/// sequence repeating a token whose probability strictly exceeds that of a
/// never-observed token scores strictly below a sequence repeating the
/// unseen one.
pub proof fn lemma_constant_sequences_rank(
    m: ModelView,
    wa: Seq<Seq<Seq<char>>>,
    wb: Seq<Seq<Seq<char>>>,
    w1: Seq<Seq<char>>,
    w2: Seq<Seq<char>>,
)
    requires
        m.wf(),
        m.total > 0,
        wa.len() >= 1,
        wb.len() >= 1,
        forall|i: int| 0 <= i < wa.len() ==> wa[i] == w1,
        forall|i: int| 0 <= i < wb.len() ==> wb[i] == w2,
        m.prob_num(w1) * m.prob_den(w2) > m.prob_num(w2) * m.prob_den(w1),
    ensures
        perp_lt(m, wa, wb),
{
    let k1 = wa.len();
    let k2 = wb.len();
    let n1 = m.prob_num(w1);
    let d1 = m.prob_den(w1);
    let n2 = m.prob_num(w2);
    let d2 = m.prob_den(w2);
    lemma_const_prods(m, wa, w1, k1 as int);
    lemma_const_prods(m, wb, w2, k2 as int);
    // Fold each side of the ordering into a single power of a product.
    lemma_pow_multiplies(n1 as int, k1, k2);
    lemma_pow_multiplies(d2 as int, k2, k1);
    lemma_pow_multiplies(n2 as int, k2, k1);
    lemma_pow_multiplies(d1 as int, k1, k2);
    lemma_pow_distributes(n1 as int, d2 as int, k1 * k2);
    lemma_pow_distributes(n2 as int, d1 as int, k1 * k2);
    assert(k1 * k2 == k2 * k1) by (nonlinear_arith);
    assert(k1 * k2 >= 1) by (nonlinear_arith)
        requires
            k1 >= 1 && k2 >= 1,
    ;
    lemma_pow_base_lt(n2 * d1, n1 * d2, k1 * k2);
    assert(pow(pow(n1 as int, k1), k2) == pow(n1 as int, k1 * k2));
    assert(pow(pow(d2 as int, k2), k1) == pow(d2 as int, k1 * k2));
    assert(pow((n1 * d2) as int, k1 * k2) == pow(n1 as int, k1 * k2) * pow(d2 as int, k1 * k2));
    assert(pow((n2 * d1) as int, k1 * k2) == pow(n2 as int, k1 * k2) * pow(d1 as int, k1 * k2));
}

} // verus!
