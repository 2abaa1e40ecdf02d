//! The sequence synthesizer: a randomized, budget-bounded search that merges
//! several independently ordered token sequences ("quizzes") into one
//! low-perplexity combined sequence.
//!
//! The output is always an order-preserving interleaving: every emitted
//! token is a selection `(source, position)` from one input quiz, positions
//! from any one quiz strictly increase along the output, and no token is
//! invented or reordered. A candidate is complete only when every source has
//! contributed its required minimum coverage and the output has reached the
//! minimum length; otherwise the attempt is discarded and the search
//! restarts. Completed candidates are ranked by exact perplexity and the
//! best one seen within the budget wins.

use vstd::prelude::*;

verus! {

use crate::Error;
use crate::model::{windows_of, Model};
use crate::perplexity::{den_prod, fact_prod, num_prod, score_lt};
use crate::rng::SeededRng;

/// The minimum contribution each source must supply: an absolute token
/// count, or a fraction (numerator, denominator) of the source's length,
/// rounded up. Every source must contribute at least one token regardless.
#[derive(Clone, Copy, Debug, PartialEq, Eq, Structural)]
pub enum Coverage {
    Count(usize),
    Fraction(usize, usize),
}

/// The search budget: a bound on attempts (deterministic, for tests) or a
/// wall-clock deadline in milliseconds.
#[derive(Clone, Copy, Debug, PartialEq, Eq, Structural)]
pub enum BudgetLimit {
    Attempts(usize),
    DeadlineMillis(u64),
}

/// The generation budget: search bound, per-source coverage, and the
/// minimum merged output length.
pub struct GenerationBudget {
    pub limit: BudgetLimit,
    pub coverage: Coverage,
    pub min_len: usize,
}

/// The winning candidate realized: the merged token sequence together with
/// the `(source, position)` selections that produced it.
#[derive(Debug)]
pub struct GenerationResult {
    pub tokens: Vec<String>,
    pub picks: Vec<(usize, usize)>,
}

/// The per-source token count required by a coverage setting for a source
/// of the given length. At least one token is always required; a fraction
/// with a zero denominator can never be met.
pub open spec fn req_of(cov: Coverage, len: nat) -> nat {
    let base: nat = match cov {
        Coverage::Count(c) => c as nat,
        Coverage::Fraction(a, b) => if b == 0 {
            len + 1
        } else {
            (((len * a) + (b - 1)) / (b as int)) as nat
        },
    };
    if base >= 1 {
        base
    } else {
        1
    }
}

/// Whether every source is long enough to meet its required coverage.
pub open spec fn coverage_feasible(cov: Coverage, qs: Seq<Seq<Seq<char>>>) -> bool {
    forall|i: int| 0 <= i < qs.len() ==> req_of(cov, (#[trigger] qs[i]).len()) <= qs[i].len()
}

/// Selections are well-formed: each names a source and a position inside
/// it, and positions taken from any one source strictly increase along the
/// list.
pub open spec fn picks_wf(qs: Seq<Seq<Seq<char>>>, picks: Seq<(usize, usize)>) -> bool {
    &&& forall|k: int|
        0 <= k < picks.len() ==> (#[trigger] picks[k]).0 < qs.len() && picks[k].1 < qs[picks[k].0 as int].len()
    &&& forall|k1: int, k2: int|
        0 <= k1 < k2 < picks.len() && (#[trigger] picks[k1]).0 == (#[trigger] picks[k2]).0
            ==> picks[k1].1 < picks[k2].1
}

/// The token list spells out exactly the selected quiz tokens, in order.
pub open spec fn realizes(
    qs: Seq<Seq<Seq<char>>>,
    picks: Seq<(usize, usize)>,
    toks: Seq<Seq<char>>,
) -> bool {
    &&& toks.len() == picks.len()
    &&& forall|k: int|
        0 <= k < picks.len() ==> toks[k] == qs[(#[trigger] picks[k]).0 as int][picks[k].1 as int]
}

/// How many selections come from source `s`.
pub open spec fn contributed(picks: Seq<(usize, usize)>, s: int) -> nat
    decreases picks.len(),
{
    if picks.len() == 0 {
        0
    } else {
        contributed(picks.drop_last(), s) + if picks.last().0 == s {
            1nat
        } else {
            0nat
        }
    }
}

/// Every source has contributed its required coverage.
pub open spec fn covered(cov: Coverage, qs: Seq<Seq<Seq<char>>>, picks: Seq<(usize, usize)>) -> bool {
    forall|i: int|
        0 <= i < qs.len() ==> contributed(picks, i) >= req_of(cov, (#[trigger] qs[i]).len())
}

/// A complete, acceptable candidate: well-formed order-preserving
/// selections, faithfully realized tokens, full coverage, and the minimum
/// merged length.
pub open spec fn candidate_ok(
    qs: Seq<Seq<Seq<char>>>,
    cov: Coverage,
    min_len: nat,
    picks: Seq<(usize, usize)>,
    toks: Seq<Seq<char>>,
) -> bool {
    &&& picks_wf(qs, picks)
    &&& realizes(qs, picks, toks)
    &&& covered(cov, qs, picks)
    &&& toks.len() >= min_len
}

/// Appending a selection raises its source's contribution and no other's.
proof fn lemma_contributed_push(picks: Seq<(usize, usize)>, e: (usize, usize), s: int)
    ensures
        contributed(picks.push(e), s) == contributed(picks, s) + if e.0 == s {
            1nat
        } else {
            0nat
        },
{
    assert(picks.push(e).drop_last() =~= picks);
}

/// Two different sources cannot together contribute more selections than
/// there are.
proof fn lemma_contributed_disjoint(picks: Seq<(usize, usize)>, s1: int, s2: int)
    requires
        s1 != s2,
    ensures
        contributed(picks, s1) + contributed(picks, s2) <= picks.len(),
    decreases picks.len(),
{
    if picks.len() > 0 {
        lemma_contributed_disjoint(picks.drop_last(), s1, s2);
    }
}

/// The positions taken from source `s`, in selection order.
pub open spec fn contrib_positions(picks: Seq<(usize, usize)>, s: int) -> Seq<int>
    decreases picks.len(),
{
    if picks.len() == 0 {
        Seq::empty()
    } else {
        let rest = contrib_positions(picks.drop_last(), s);
        if picks.last().0 == s {
            rest.push(picks.last().1 as int)
        } else {
            rest
        }
    }
}

/// The tokens taken from source `s`, in selection order.
pub open spec fn contrib_tokens(picks: Seq<(usize, usize)>, toks: Seq<Seq<char>>, s: int) -> Seq<
    Seq<char>,
>
    decreases picks.len(),
{
    if picks.len() == 0 {
        Seq::empty()
    } else {
        let rest = contrib_tokens(picks.drop_last(), toks.drop_last(), s);
        if picks.last().0 == s {
            rest.push(toks.last())
        } else {
            rest
        }
    }
}

/// The selection indices that drew from source `s`, in order.
pub open spec fn contrib_indices(picks: Seq<(usize, usize)>, s: int) -> Seq<int>
    decreases picks.len(),
{
    if picks.len() == 0 {
        Seq::empty()
    } else {
        let rest = contrib_indices(picks.drop_last(), s);
        if picks.last().0 == s {
            rest.push(picks.len() - 1)
        } else {
            rest
        }
    }
}

/// Each source's contribution to a well-formed realized candidate is an
/// order-preserving subsequence of that source's quiz: the extracted
/// positions strictly increase, stay in bounds, the extracted tokens read
/// off the quiz at exactly those positions, and each traces back to a
/// selection.
pub proof fn lemma_contribution_is_subsequence(
    qs: Seq<Seq<Seq<char>>>,
    picks: Seq<(usize, usize)>,
    toks: Seq<Seq<char>>,
    s: int,
)
    requires
        picks_wf(qs, picks),
        realizes(qs, picks, toks),
        0 <= s < qs.len(),
    ensures
        ({
            let ps = contrib_positions(picks, s);
            let ts = contrib_tokens(picks, toks, s);
            let ci = contrib_indices(picks, s);
            &&& ts.len() == ps.len()
            &&& ci.len() == ps.len()
            &&& ps.len() == contributed(picks, s)
            &&& forall|j: int| 0 <= j < ps.len() ==> 0 <= #[trigger] ps[j] < qs[s].len()
            &&& forall|j1: int, j2: int| 0 <= j1 < j2 < ps.len() ==> ps[j1] < ps[j2]
            &&& forall|j: int| 0 <= j < ps.len() ==> contrib_tokens(picks, toks, s)[j] == qs[s][ps[j]]
            &&& forall|j: int|
                0 <= j < ps.len() ==> 0 <= #[trigger] ci[j] < picks.len() && picks[ci[j]].0 == s
                    && picks[ci[j]].1 == ps[j]
        }),
    decreases picks.len(),
{
    if picks.len() > 0 {
        let pre = picks.drop_last();
        let tpre = toks.drop_last();
        assert(forall|k: int| 0 <= k < pre.len() ==> pre[k] == picks[k]);
        assert(forall|k: int| 0 <= k < tpre.len() ==> tpre[k] == toks[k]);
        lemma_contribution_is_subsequence(qs, pre, tpre, s);
        let ps = contrib_positions(picks, s);
        let ts = contrib_tokens(picks, toks, s);
        let ci = contrib_indices(picks, s);
        let psp = contrib_positions(pre, s);
        let cip = contrib_indices(pre, s);
        if picks.last().0 == s {
            let last = picks.last();
            let tsp = contrib_tokens(pre, tpre, s);
            assert(picks.last() == picks[picks.len() - 1]);
            assert(toks.last() == toks[toks.len() - 1]);
            assert(ps == psp.push(last.1 as int));
            assert(ts == tsp.push(toks.last()));
            assert(ci == cip.push(picks.len() - 1));
            assert forall|j: int| 0 <= j < psp.len() implies #[trigger] psp[j] < last.1 as int by {
                let k = cip[j];
                assert(0 <= k < pre.len() && pre[k].0 == s && pre[k].1 == psp[j]);
                assert(picks[k].0 == picks[picks.len() - 1].0);
            };
            assert forall|j: int| 0 <= j < ps.len() implies 0 <= #[trigger] ci[j] < picks.len()
                && picks[ci[j]].0 == s && picks[ci[j]].1 == ps[j] by {
                if j < psp.len() {
                    assert(ci[j] == cip[j] && ps[j] == psp[j]);
                    assert(pre[cip[j]].0 == s && pre[cip[j]].1 == psp[j]);
                } else {
                    assert(ci[j] == picks.len() - 1 && ps[j] == last.1 as int);
                }
            };
            assert forall|j: int| 0 <= j < ps.len() implies ts[j] == qs[s][#[trigger] ps[j]] by {
                if j < psp.len() {
                    assert(ts[j] == tsp[j]);
                    assert(ps[j] == psp[j]);
                } else {
                    assert(ts[j] == toks.last());
                    assert(ps[j] == last.1 as int);
                    assert(toks[picks.len() - 1] == qs[picks[picks.len() - 1].0 as int][picks[
                        picks.len() - 1].1 as int]);
                }
            };
            assert forall|j1: int, j2: int| 0 <= j1 < j2 < ps.len() implies #[trigger] ps[j1]
                < #[trigger] ps[j2] by {
                if j2 < psp.len() {
                } else {
                    assert(ps[j1] == psp[j1]);
                }
            };
        } else {
            assert(ps == psp);
            assert(ci == cip);
            assert forall|j: int| 0 <= j < ps.len() implies 0 <= #[trigger] ci[j] < picks.len()
                && picks[ci[j]].0 == s && picks[ci[j]].1 == ps[j] by {
                assert(ci[j] == cip[j] && ps[j] == psp[j]);
                assert(pre[cip[j]].0 == s && pre[cip[j]].1 == psp[j]);
            };
        }
    }
}

/// One fully realized merge attempt: the selections, the realized tokens,
/// and the exact-perplexity score material (window probability factors and
/// window count).
pub(crate) struct Candidate {
    pub(crate) picks: Vec<(usize, usize)>,
    pub(crate) toks: Vec<String>,
    pub(crate) nums: Vec<u64>,
    pub(crate) dens: Vec<u64>,
    pub(crate) wins: usize,
}

/// A vector of `n` zeros.
fn zeros(n: usize) -> (r: Vec<usize>)
    ensures
        r@.len() == n,
        forall|i: int| 0 <= i < n ==> r@[i] == 0,
{
    let mut r: Vec<usize> = Vec::new();
    let mut i: usize = 0;
    while i < n
        invariant
            i <= n,
            r@.len() == i,
            forall|j: int| 0 <= j < i ==> r@[j] == 0,
        decreases n - i,
    {
        r.push(0);
        i += 1;
    }
    r
}

/// Whether every cursor has reached its requirement.
fn all_at_least(cur: &Vec<usize>, reqs: &Vec<usize>) -> (r: bool)
    requires
        cur@.len() == reqs@.len(),
    ensures
        r == (forall|i: int| 0 <= i < cur@.len() ==> cur@[i] >= reqs@[i]),
{
    let n = cur.len();
    let mut i: usize = 0;
    while i < n
        invariant
            i <= n,
            n == cur@.len() && n == reqs@.len(),
            forall|j: int| 0 <= j < i ==> cur@[j] >= reqs@[j],
        decreases n - i,
    {
        if cur[i] < reqs[i] {
            return false;
        }
        i += 1;
    }
    true
}

/// The tokens still unread: the summed distance of each cursor from the end
/// of its source, over the first `k` sources.
spec fn rem_upto(qs: Seq<Seq<Seq<char>>>, cur: Seq<usize>, k: int) -> int
    decreases k,
{
    if k <= 0 {
        0
    } else {
        rem_upto(qs, cur, k - 1) + (qs[k - 1].len() - cur[k - 1])
    }
}

/// Advancing one cursor shifts the summed remainder by exactly the advance.
proof fn lemma_rem_update(qs: Seq<Seq<Seq<char>>>, cur: Seq<usize>, i: int, v: usize, k: int)
    requires
        0 <= i < cur.len(),
        k <= cur.len(),
    ensures
        rem_upto(qs, cur.update(i, v), k) == rem_upto(qs, cur, k) + if i < k {
            cur[i] - v
        } else {
            0
        },
    decreases k,
{
    if k > 0 {
        lemma_rem_update(qs, cur, i, v, k - 1);
    }
}

impl Model {
    /// One exploratory random-walk attempt: advance a uniformly chosen
    /// source by a short random run (one or two tokens), appending the run,
    /// until every source passed its threshold and the output reached the
    /// minimum length; an exhausted source before that discards the
    /// attempt. A completed attempt comes back scored.
    fn internal_gen(
        &self,
        quiz: &Vec<Vec<String>>,
        reqs: &Vec<usize>,
        Ghost(cov): Ghost<Coverage>,
        min_len: usize,
        rng: &mut SeededRng,
    ) -> (r: Option<Candidate>)
        requires
            self@.wf(),
            self@.total > 0,
            quiz@.len() >= 2,
            reqs@.len() == quiz@.len(),
            forall|i: int|
                0 <= i < quiz@.len() ==> 1 <= #[trigger] reqs@[i] <= quiz.deep_view()[i].len(),
            forall|i: int|
                0 <= i < quiz@.len() ==> #[trigger] reqs@[i] == req_of(
                    cov,
                    quiz.deep_view()[i].len(),
                ),
        ensures
            match r {
                Some(c) => {
                    let dq = quiz.deep_view();
                    let ws = windows_of(self@.mode, c.toks.deep_view());
                    &&& candidate_ok(dq, cov, min_len as nat, c.picks@, c.toks.deep_view())
                    &&& c.wins == ws.len()
                    &&& c.wins >= 1
                    &&& fact_prod(c.nums@) == num_prod(self@, ws)
                    &&& fact_prod(c.dens@) == den_prod(self@, ws)
                },
                None => true,
            },
    {
        let ghost dq = quiz.deep_view();
        let n = quiz.len();
        let mut cursors = zeros(n);
        let mut picks: Vec<(usize, usize)> = Vec::new();
        let mut toks: Vec<String> = Vec::new();
        loop
            invariant
                n == quiz@.len(),
                n >= 2,
                dq == quiz.deep_view(),
                reqs@.len() == n,
                forall|i: int| 0 <= i < n ==> 1 <= #[trigger] reqs@[i] <= dq[i].len(),
                forall|i: int| 0 <= i < n ==> #[trigger] reqs@[i] == req_of(cov, dq[i].len()),
                self@.wf(),
                self@.total > 0,
                cursors@.len() == n,
                forall|i: int| 0 <= i < n ==> #[trigger] cursors@[i] <= dq[i].len(),
                toks@.len() == picks@.len(),
                picks_wf(dq, picks@),
                realizes(dq, picks@, toks.deep_view()),
                forall|k: int|
                    0 <= k < picks@.len() ==> (#[trigger] picks@[k]).1 < cursors@[picks@[k].0 as int],
                forall|i: int| 0 <= i < n ==> contributed(picks@, i) == cursors@[i],
            decreases rem_upto(dq, cursors@, n as int),
        {
            if toks.len() >= min_len && all_at_least(&cursors, reqs) {
                proof {
                    assert(covered(cov, dq, picks@)) by {
                        assert(forall|i: int|
                            0 <= i < dq.len() ==> contributed(picks@, i) == cursors@[i]
                                && cursors@[i] >= reqs@[i]);
                    };
                    lemma_contributed_disjoint(picks@, 0, 1);
                    assert(contributed(picks@, 0) >= 1 && contributed(picks@, 1) >= 1);
                    assert(toks.deep_view().len() >= 2);
                }
                let scored = self.window_factors(&toks);
                match scored {
                    Ok(f) => {
                        return Some(
                            Candidate { picks, toks, nums: f.0, dens: f.1, wins: f.2 },
                        );
                    },
                    Err(_) => {
                        proof {
                            assert(false);
                        }
                        return None;
                    },
                }
            }
            let s = rng.below(n as u64) as usize;
            proof {
                assert(s < n);
            }
            let qs_len = quiz[s].len();
            let cur_s = cursors[s];
            if cur_s == qs_len {
                return None;
            }
            proof {
                assert(cur_s < dq[s as int].len());
            }
            let draw = rng.below(2) as usize;
            let remaining = qs_len - cur_s;
            let mut run: usize = 1 + draw;
            if run > remaining {
                run = remaining;
            }
            let ghost rem0 = rem_upto(dq, cursors@, n as int);
            let mut t: usize = 0;
            while t < run
                invariant
                    t <= run,
                    run >= 1,
                    s < n,
                    n == quiz@.len(),
                    n >= 2,
                    dq == quiz.deep_view(),
                    reqs@.len() == n,
                    self@.wf(),
                    self@.total > 0,
                    cursors@.len() == n,
                    forall|i: int| 0 <= i < n ==> #[trigger] cursors@[i] <= dq[i].len(),
                    qs_len == dq[s as int].len(),
                    cursors@[s as int] + (run - t) <= qs_len,
                    toks@.len() == picks@.len(),
                    picks_wf(dq, picks@),
                    realizes(dq, picks@, toks.deep_view()),
                    forall|k: int|
                        0 <= k < picks@.len() ==> (#[trigger] picks@[k]).1 < cursors@[picks@[
                            k].0 as int],
                    forall|i: int| 0 <= i < n ==> contributed(picks@, i) == cursors@[i],
                    rem_upto(dq, cursors@, n as int) + t == rem0,
                decreases run - t,
            {
                let pos = cursors[s];
                let ghost picks0 = picks@;
                let ghost toks0 = toks.deep_view();
                let ghost curs0 = cursors@;
                picks.push((s, pos));
                toks.push(quiz[s][pos].clone());
                cursors[s] = pos + 1;
                proof {
                    assert(toks.deep_view() =~= toks0.push(dq[s as int][pos as int]));
                    assert forall|i: int| 0 <= i < n implies contributed(picks@, i) == cursors@[
                        i] by {
                        lemma_contributed_push(picks0, (s, pos), i);
                    };
                    lemma_rem_update(dq, curs0, s as int, (pos + 1) as usize, n as int);
                }
                t += 1;
            }
            proof {
                lemma_rem_nonneg(dq, cursors@, n as int);
            }
        }
    }
}

/// The continuation bias `p`, `0 < p <= 1`, as an exact rational
/// `num / den`: the greedy strategy discounts the score of extending the
/// currently active source by this factor, biasing the search toward longer
/// uninterrupted runs from one source before switching.
pub struct Bias {
    pub num: usize,
    pub den: usize,
}

/// Optional pruning for the greedy strategy: token pairs that may not stand
/// back-to-back; and, when a transition table is given, a lexicon of token
/// tags together with the allowed tag transitions.
pub struct SynthesisRules {
    pub banned_pairs: Vec<(String, String)>,
    pub lexicon: Vec<(String, crate::pos::PartOfSpeech)>,
    pub allowed_transitions: Option<Vec<(crate::pos::PartOfSpeech, crate::pos::PartOfSpeech)>>,
    pub jitter_per_mille: u32,
}

impl SynthesisRules {
    /// No pruning, no jitter.
    pub fn none() -> (r: SynthesisRules)
        ensures
            r.banned_pairs@.len() == 0,
            r.lexicon@.len() == 0,
            r.allowed_transitions is None,
            r.jitter_per_mille == 0,
    {
        SynthesisRules {
            banned_pairs: Vec::new(),
            lexicon: Vec::new(),
            allowed_transitions: None,
            jitter_per_mille: 0,
        }
    }
}

/// The two interchangeable search strategies: the exploratory random walk,
/// and the greedy bandit with the given number of bounded restarts.
#[derive(Clone, Copy, Debug, PartialEq, Eq, Structural)]
pub enum Strategy {
    ExploratoryWalk,
    GreedyBandit(usize),
}

/// The exact-perplexity score material of a candidate: probability product
/// numerator, denominator, and window count.
pub(crate) open spec fn score_of(c: Candidate) -> (nat, nat, nat) {
    (fact_prod(c.nums@), fact_prod(c.dens@), c.wins as nat)
}

/// A candidate fit to return: complete and correctly scored against the
/// model.
pub(crate) open spec fn cand_valid(
    m: crate::model::ModelView,
    dq: Seq<Seq<Seq<char>>>,
    cov: Coverage,
    min_len: nat,
    c: Candidate,
) -> bool {
    let ws = windows_of(m.mode, c.toks.deep_view());
    &&& candidate_ok(dq, cov, min_len, c.picks@, c.toks.deep_view())
    &&& c.wins == ws.len()
    &&& c.wins >= 1
    &&& fact_prod(c.nums@) == num_prod(m, ws)
    &&& fact_prod(c.dens@) == den_prod(m, ws)
}

/// Whether candidate `a` scores strictly below (better than) candidate `b`
/// in the exact perplexity ordering.
fn cand_lt(a: &Candidate, b: &Candidate) -> (r: bool)
    ensures
        r == score_lt(
            fact_prod(a.nums@),
            fact_prod(a.dens@),
            a.wins as nat,
            fact_prod(b.nums@),
            fact_prod(b.dens@),
            b.wins as nat,
        ),
{
    let lhs = crate::perplexity::cross_term(&a.nums, b.wins, &b.dens, a.wins);
    let rhs = crate::perplexity::cross_term(&b.nums, a.wins, &a.dens, b.wins);
    rhs.lt(&lhs)
}

/// The per-source required coverage, when the source is long enough to
/// meet it.
fn required_for(cov: &Coverage, len: usize) -> (r: Option<usize>)
    ensures
        match r {
            Some(v) => v as nat == req_of(*cov, len as nat) && 1 <= v <= len,
            None => req_of(*cov, len as nat) > len,
        },
{
    match cov {
        Coverage::Count(c) => {
            let c1: usize = if *c < 1 {
                1
            } else {
                *c
            };
            if c1 <= len {
                Some(c1)
            } else {
                None
            }
        },
        Coverage::Fraction(a, b) => {
            if *b == 0 {
                None
            } else {
                proof {
                    vstd::arithmetic::mul::lemma_mul_upper_bound(
                        len as int,
                        0xffff_ffff_ffff_ffff,
                        *a as int,
                        0xffff_ffff_ffff_ffff,
                    );
                }
                let num: u128 = (len as u128) * (*a as u128) + ((*b - 1) as u128);
                let q: u128 = num / (*b as u128);
                let q1: u128 = if q < 1 {
                    1
                } else {
                    q
                };
                if q1 <= len as u128 {
                    Some(q1 as usize)
                } else {
                    None
                }
            }
        },
    }
}

/// The required coverage of every source, or nothing when some source is
/// too short for its requirement.
fn compute_reqs(cov: &Coverage, quiz: &Vec<Vec<String>>) -> (r: Option<Vec<usize>>)
    ensures
        match r {
            Some(v) => {
                &&& coverage_feasible(*cov, quiz.deep_view())
                &&& v@.len() == quiz@.len()
                &&& forall|i: int|
                    0 <= i < quiz@.len() ==> #[trigger] v@[i] == req_of(
                        *cov,
                        quiz.deep_view()[i].len(),
                    ) && 1 <= v@[i] <= quiz.deep_view()[i].len()
            },
            None => !coverage_feasible(*cov, quiz.deep_view()),
        },
{
    let ghost dq = quiz.deep_view();
    let n = quiz.len();
    let mut v: Vec<usize> = Vec::new();
    let mut i: usize = 0;
    while i < n
        invariant
            i <= n,
            n == quiz@.len(),
            dq == quiz.deep_view(),
            v@.len() == i,
            forall|j: int|
                0 <= j < i ==> #[trigger] v@[j] == req_of(*cov, dq[j].len()) && 1 <= v@[j] <= dq[
                    j].len(),
        decreases n - i,
    {
        let len_i = quiz[i].len();
        proof {
            assert(dq[i as int].len() == quiz@[i as int]@.len());
        }
        match required_for(cov, len_i) {
            Some(q) => {
                v.push(q);
            },
            None => {
                proof {
                    assert(req_of(*cov, dq[i as int].len()) > dq[i as int].len());
                }
                return None;
            },
        }
        i += 1;
    }
    proof {
        assert forall|j: int| 0 <= j < dq.len() implies req_of(*cov, (#[trigger] dq[j]).len())
            <= dq[j].len() by {
            assert(v@[j] == req_of(*cov, dq[j].len()));
        };
    }
    Some(v)
}

impl Model {
    /// The anytime exploratory random walk: attempts until the budget
    /// limit, keeping the completed candidate of minimum exact perplexity.
    fn walk_search(
        &self,
        quiz: &Vec<Vec<String>>,
        reqs: &Vec<usize>,
        Ghost(cov): Ghost<Coverage>,
        min_len: usize,
        limit: &BudgetLimit,
        rng: &mut SeededRng,
    ) -> (r: (Option<Candidate>, Ghost<Seq<(nat, nat, nat)>>))
        requires
            self@.wf(),
            self@.total > 0,
            quiz@.len() >= 2,
            reqs@.len() == quiz@.len(),
            forall|i: int|
                0 <= i < quiz@.len() ==> 1 <= #[trigger] reqs@[i] <= quiz.deep_view()[i].len(),
            forall|i: int|
                0 <= i < quiz@.len() ==> #[trigger] reqs@[i] == req_of(
                    cov,
                    quiz.deep_view()[i].len(),
                ),
        ensures
            // The result is the running minimum of every completed attempt:
            // a valid candidate that no completed attempt's score beats.
            best_inv(self@, quiz.deep_view(), cov, min_len as nat, r.0, r.1@),
    {
        let ghost dq = quiz.deep_view();
        let mut best: Option<Candidate> = None;
        let ghost mut seen: Seq<(nat, nat, nat)> = Seq::empty();
        match limit {
            BudgetLimit::Attempts(a) => {
                let bound = *a;
                let mut t: usize = 0;
                while t < bound
                    invariant
                        t <= bound,
                        self@.wf(),
                        self@.total > 0,
                        quiz@.len() >= 2,
                        dq == quiz.deep_view(),
                        reqs@.len() == quiz@.len(),
                        forall|i: int|
                            0 <= i < quiz@.len() ==> 1 <= #[trigger] reqs@[i] <= dq[i].len(),
                        forall|i: int|
                            0 <= i < quiz@.len() ==> #[trigger] reqs@[i] == req_of(
                                cov,
                                dq[i].len(),
                            ),
                        best_inv(self@, dq, cov, min_len as nat, best, seen),
                    decreases bound - t,
                {
                    let attempt = self.internal_gen(quiz, reqs, Ghost(cov), min_len, rng);
                    let upd = consider(self, Ghost(dq), Ghost(cov), Ghost(min_len as nat), &mut best, attempt, Ghost(seen));
                    proof {
                        seen = upd@;
                    }
                    t += 1;
                }
            },
            BudgetLimit::DeadlineMillis(ms) => {
                let deadline = *ms;
                let start = crate::clock::clock_now();
                let mut guard: u64 = 0;
                let mut go = true;
                while go
                    invariant
                        self@.wf(),
                        self@.total > 0,
                        quiz@.len() >= 2,
                        dq == quiz.deep_view(),
                        reqs@.len() == quiz@.len(),
                        forall|i: int|
                            0 <= i < quiz@.len() ==> 1 <= #[trigger] reqs@[i] <= dq[i].len(),
                        forall|i: int|
                            0 <= i < quiz@.len() ==> #[trigger] reqs@[i] == req_of(
                                cov,
                                dq[i].len(),
                            ),
                        best_inv(self@, dq, cov, min_len as nat, best, seen),
                        go ==> guard < u64::MAX,
                    decreases u64::MAX - guard,
                {
                    let attempt = self.internal_gen(quiz, reqs, Ghost(cov), min_len, rng);
                    let upd = consider(self, Ghost(dq), Ghost(cov), Ghost(min_len as nat), &mut best, attempt, Ghost(seen));
                    proof {
                        seen = upd@;
                    }
                    guard = guard + 1;
                    if guard == u64::MAX {
                        go = false;
                    } else {
                        go = crate::clock::elapsed_millis(&start) < deadline;
                    }
                }
            },
        }
        (best, Ghost(seen))
    }
}

impl Model {
    /// Merge several independently ordered token sequences into one
    /// low-perplexity combined sequence by randomized search.
    ///
    /// Zero sources fail; a single source comes back unchanged, with no
    /// search; with two or more, a source shorter than its required
    /// coverage is rejected up front, an untrained model is refused, and
    /// otherwise the budgeted search returns the best completed candidate
    /// it found or reports that none completed. Any success is an
    /// order-preserving interleaving meeting every coverage requirement and
    /// the minimum length.
    ///
    /// `bias` and `rules` steer the greedy bandit strategy; the exploratory
    /// walk ignores them. All randomness comes from `rng`, so a fixed seed
    /// reproduces the run.
    pub fn generate(
        &self,
        quiz: &Vec<Vec<String>>,
        bias: &Bias,
        rules: &SynthesisRules,
        budget: &GenerationBudget,
        strategy: &Strategy,
        rng: &mut SeededRng,
    ) -> (r: Result<GenerationResult, Error>)
        requires
            self@.wf(),
            1 <= bias.num <= bias.den,
        ensures
            ({
                let dq = quiz.deep_view();
                &&& (r == Err::<GenerationResult, Error>(Error::NothingToMix) <==> dq.len() == 0)
                &&& dq.len() == 1 ==> match r {
                    Ok(g) => g.tokens.deep_view() == dq[0] && g.picks@.len() == dq[0].len()
                        && forall|j: int|
                        0 <= j < g.picks@.len() ==> #[trigger] g.picks@[j] == (0usize, j as usize),
                    Err(_) => false,
                }
                &&& dq.len() >= 2 ==> ((r == Err::<GenerationResult, Error>(
                    Error::InvalidCoverageConfig,
                )) <==> !coverage_feasible(budget.coverage, dq))
                &&& (dq.len() >= 2 && coverage_feasible(budget.coverage, dq)) ==> ((r == Err::<
                    GenerationResult,
                    Error,
                >(Error::ModelUntrained)) <==> self@.total == 0)
                &&& (dq.len() >= 2 && coverage_feasible(budget.coverage, dq) && self@.total > 0)
                    ==> (r is Ok || r == Err::<GenerationResult, Error>(Error::NoCandidateFound))
                &&& dq.len() >= 2 ==> match r {
                    Ok(g) => candidate_ok(
                        dq,
                        budget.coverage,
                        budget.min_len as nat,
                        g.picks@,
                        g.tokens.deep_view(),
                    ),
                    Err(_) => true,
                }
            }),
    {
        let ghost dq = quiz.deep_view();
        let n = quiz.len();
        if n == 0 {
            return Err(Error::NothingToMix);
        }
        if n == 1 {
            proof {
                assert(quiz.deep_view().len() == quiz@.len());
                assert(quiz.deep_view()[0] == quiz@[0].deep_view());
                assert(dq[0] == quiz@[0].deep_view());
            }
            let src = &quiz[0];
            let len0 = src.len();
            let mut tokens: Vec<String> = Vec::new();
            let mut picks: Vec<(usize, usize)> = Vec::new();
            let mut j: usize = 0;
            while j < len0
                invariant
                    j <= len0,
                    n == quiz@.len(),
                    n == 1,
                    dq == quiz.deep_view(),
                    dq[0] == quiz@[0].deep_view(),
                    len0 == quiz@[0]@.len(),
                    src == &quiz[0],
                    tokens@.len() == j,
                    picks@.len() == j,
                    forall|k: int| 0 <= k < j ==> tokens.deep_view()[k] == dq[0][k],
                    forall|k: int| 0 <= k < j ==> #[trigger] picks@[k] == (0usize, k as usize),
                decreases len0 - j,
            {
                let ghost tdv0 = tokens.deep_view();
                tokens.push(src[j].clone());
                picks.push((0, j));
                proof {
                    assert(quiz@[0].deep_view()[j as int] == quiz@[0]@[j as int]@);
                    assert(tokens.deep_view() =~= tdv0.push(dq[0][j as int]));
                }
                j += 1;
            }
            proof {
                assert(tokens.deep_view() =~= dq[0]);
            }
            return Ok(GenerationResult { tokens, picks });
        }
        let reqs = match compute_reqs(&budget.coverage, quiz) {
            Some(v) => v,
            None => {
                return Err(Error::InvalidCoverageConfig);
            },
        };
        if self.total() == 0 {
            return Err(Error::ModelUntrained);
        }
        let best = match strategy {
            Strategy::ExploratoryWalk => self.walk_search(
                quiz,
                &reqs,
                Ghost(budget.coverage),
                budget.min_len,
                &budget.limit,
                rng,
            ).0,
            Strategy::GreedyBandit(k) => self.bandit_search(
                quiz,
                &reqs,
                Ghost(budget.coverage),
                budget.min_len,
                *k,
                bias,
                rules,
                rng,
            ).0,
        };
        match best {
            Some(c) => Ok(GenerationResult { tokens: c.toks, picks: c.picks }),
            None => Err(Error::NoCandidateFound),
        }
    }

    /// The greedy bandit with bounded restarts: each restart greedily
    /// extends the minimum-scoring source (continuation discounted by the
    /// bias, options jittered for diversity, pruned options scored as a
    /// sentinel) and owns one skip slot that silently advances a cursor
    /// instead of emitting; the restart ends when its active source is
    /// exhausted. The best valid restart wins.
    fn bandit_search(
        &self,
        quiz: &Vec<Vec<String>>,
        reqs: &Vec<usize>,
        Ghost(cov): Ghost<Coverage>,
        min_len: usize,
        restarts: usize,
        bias: &Bias,
        rules: &SynthesisRules,
        rng: &mut SeededRng,
    ) -> (r: (Option<Candidate>, Ghost<Seq<(nat, nat, nat)>>))
        requires
            self@.wf(),
            self@.total > 0,
            quiz@.len() >= 2,
            1 <= bias.num <= bias.den,
            reqs@.len() == quiz@.len(),
            forall|i: int|
                0 <= i < quiz@.len() ==> 1 <= #[trigger] reqs@[i] <= quiz.deep_view()[i].len(),
            forall|i: int|
                0 <= i < quiz@.len() ==> #[trigger] reqs@[i] == req_of(
                    cov,
                    quiz.deep_view()[i].len(),
                ),
        ensures
            // The winner is the running minimum over the restarts that
            // completed a valid candidate.
            best_inv(self@, quiz.deep_view(), cov, min_len as nat, r.0, r.1@),
    {
        let ghost dq = quiz.deep_view();
        let mut best: Option<Candidate> = None;
        let ghost mut seen: Seq<(nat, nat, nat)> = Seq::empty();
        let mut k: usize = 0;
        while k < restarts
            invariant
                k <= restarts,
                self@.wf(),
                self@.total > 0,
                quiz@.len() >= 2,
                1 <= bias.num <= bias.den,
                dq == quiz.deep_view(),
                reqs@.len() == quiz@.len(),
                forall|i: int| 0 <= i < quiz@.len() ==> 1 <= #[trigger] reqs@[i] <= dq[i].len(),
                forall|i: int|
                    0 <= i < quiz@.len() ==> #[trigger] reqs@[i] == req_of(cov, dq[i].len()),
                best_inv(self@, dq, cov, min_len as nat, best, seen),
            decreases restarts - k,
        {
            let attempt = self.bandit_restart(quiz, reqs, Ghost(cov), min_len, k, restarts, bias, rules, rng);
            let upd = consider(self, Ghost(dq), Ghost(cov), Ghost(min_len as nat), &mut best, attempt, Ghost(seen));
            proof {
                seen = upd@;
            }
            k += 1;
        }
        (best, Ghost(seen))
    }

    /// One greedy restart owning skip slot `slot` of `kk`.
    fn bandit_restart(
        &self,
        quiz: &Vec<Vec<String>>,
        reqs: &Vec<usize>,
        Ghost(cov): Ghost<Coverage>,
        min_len: usize,
        slot: usize,
        kk: usize,
        bias: &Bias,
        rules: &SynthesisRules,
        rng: &mut SeededRng,
    ) -> (r: Option<Candidate>)
        requires
            self@.wf(),
            self@.total > 0,
            quiz@.len() >= 2,
            kk >= 1,
            reqs@.len() == quiz@.len(),
            forall|i: int|
                0 <= i < quiz@.len() ==> 1 <= #[trigger] reqs@[i] <= quiz.deep_view()[i].len(),
            forall|i: int|
                0 <= i < quiz@.len() ==> #[trigger] reqs@[i] == req_of(
                    cov,
                    quiz.deep_view()[i].len(),
                ),
        ensures
            match r {
                Some(c) => cand_valid(self@, quiz.deep_view(), cov, min_len as nat, c),
                None => true,
            },
    {
        let ghost dq = quiz.deep_view();
        let n = quiz.len();
        let mut cursors = zeros(n);
        let mut taken = zeros(n);
        let mut picks: Vec<(usize, usize)> = Vec::new();
        let mut toks: Vec<String> = Vec::new();
        let mut active: usize = 0;
        let mut has_active = false;
        let mut running = true;
        proof {
            lemma_rem_nonneg(dq, cursors@, n as int);
        }
        while running
            invariant
                n == quiz@.len(),
                n >= 2,
                kk >= 1,
                dq == quiz.deep_view(),
                reqs@.len() == n,
                forall|i: int| 0 <= i < n ==> 1 <= #[trigger] reqs@[i] <= dq[i].len(),
                self@.wf(),
                self@.total > 0,
                cursors@.len() == n,
                taken@.len() == n,
                forall|i: int| 0 <= i < n ==> #[trigger] cursors@[i] <= dq[i].len(),
                toks@.len() == picks@.len(),
                picks_wf(dq, picks@),
                realizes(dq, picks@, toks.deep_view()),
                forall|k2: int|
                    0 <= k2 < picks@.len() ==> (#[trigger] picks@[k2]).1 < cursors@[picks@[
                    k2].0 as int],
                forall|i: int| 0 <= i < n ==> contributed(picks@, i) == taken@[i],
                forall|i: int| 0 <= i < n ==> #[trigger] taken@[i] <= cursors@[i],
                running ==> rem_upto(dq, cursors@, n as int) >= 0,
            decreases rem_upto(dq, cursors@, n as int), (if running { 1int } else { 0int }),
        {
            // Score every source that still has a next token; keep the
            // minimum-scoring one. Pruned or unscorable options stand in
            // only when nothing better exists.
            let mut chosen: usize = 0;
            let mut found = false;
            let mut chosen_score: Option<(Vec<u64>, Vec<u64>, usize, u64, u64, u64, u64)> = None;
            let mut i: usize = 0;
            while i < n
                invariant
                    i <= n,
                    n == quiz@.len(),
                    dq == quiz.deep_view(),
                    self@.wf(),
                    self@.total > 0,
                    cursors@.len() == n,
                    forall|ii: int| 0 <= ii < n ==> #[trigger] cursors@[ii] <= dq[ii].len(),
                    found ==> chosen < n && cursors@[chosen as int] < dq[chosen as int].len(),
                decreases n - i,
            {
                let qlen = quiz[i].len();
                let cur = cursors[i];
                if cur < qlen {
                    // Tentative extension of the merge by this source's
                    // next token.
                    let tok = &quiz[i][cur];
                    let mut sentinel = false;
                    if toks.len() > 0 {
                        let prev = &toks[toks.len() - 1];
                        if pair_banned(&rules.banned_pairs, prev, tok) {
                            sentinel = true;
                        }
                        match &rules.allowed_transitions {
                            Some(table) => {
                                let from = lexicon_tag(&rules.lexicon, prev);
                                let to = lexicon_tag(&rules.lexicon, tok);
                                if !crate::pos::transition_allowed(table, from, to) {
                                    sentinel = true;
                                }
                            },
                            None => {},
                        }
                    }
                    let mut tent = clone_tokens(&toks);
                    tent.push(tok.clone());
                    let scored = self.window_factors(&tent);
                    let option: Option<(Vec<u64>, Vec<u64>, usize, u64, u64, u64, u64)> = match scored {
                        Ok(f) => {
                            if sentinel {
                                None
                            } else {
                                let jr: u64 = if rules.jitter_per_mille > 0 {
                                    rng.below(rules.jitter_per_mille as u64 + 1)
                                } else {
                                    0
                                };
                                let (dn, dd): (u64, u64) = if has_active && i == active {
                                    (bias.num as u64, bias.den as u64)
                                } else {
                                    (1, 1)
                                };
                                Some((f.0, f.1, f.2, dn, 1000 + jr, dd, 1000))
                            }
                        },
                        Err(_) => None,
                    };
                    let take = if !found {
                        true
                    } else {
                        match (&option, &chosen_score) {
                            (Some(o), Some(b)) => tentative_lt(o, b),
                            (Some(_), None) => true,
                            (None, Some(_)) => false,
                            (None, None) => false,
                        }
                    };
                    if take {
                        chosen = i;
                        found = true;
                        chosen_score = option;
                    }
                }
                i += 1;
            }
            if !found {
                // No source can be extended any further: nothing to merge.
                return None;
            }
            let s = chosen;
            let qs_len = quiz[s].len();
            let pos = cursors[s];
            let ghost curs0 = cursors@;
            let draw = rng.below(kk as u64) as usize;
            if draw == slot {
                // The designated draw: absorb the token silently.
                cursors[s] = pos + 1;
                proof {
                    lemma_rem_update(dq, curs0, s as int, (pos + 1) as usize, n as int);
                }
            } else {
                let ghost picks0 = picks@;
                let ghost toks0 = toks.deep_view();
                picks.push((s, pos));
                toks.push(quiz[s][pos].clone());
                let c0 = taken[s];
                taken[s] = c0 + 1;
                cursors[s] = pos + 1;
                proof {
                    assert(toks.deep_view() =~= toks0.push(dq[s as int][pos as int]));
                    assert forall|ii: int| 0 <= ii < n implies contributed(picks@, ii)
                        == taken@[ii] by {
                        lemma_contributed_push(picks0, (s, pos), ii);
                    };
                    lemma_rem_update(dq, curs0, s as int, (pos + 1) as usize, n as int);
                }
            }
            active = s;
            has_active = true;
            if cursors[s] == qs_len {
                // The active source is exhausted: this restart ends.
                running = false;
            }
            proof {
                lemma_rem_nonneg(dq, cursors@, n as int);
            }
        }
        // Validate the finished restart: full coverage and minimum length,
        // or nothing.
        if toks.len() >= min_len && all_at_least(&taken, reqs) {
            proof {
                assert(covered(cov, dq, picks@)) by {
                    assert(forall|i: int|
                        0 <= i < dq.len() ==> contributed(picks@, i) == taken@[i] && taken@[i]
                            >= reqs@[i]);
                };
                lemma_contributed_disjoint(picks@, 0, 1);
                assert(contributed(picks@, 0) >= 1 && contributed(picks@, 1) >= 1);
                assert(toks.deep_view().len() >= 2);
            }
            let scored = self.window_factors(&toks);
            match scored {
                Ok(f) => Some(Candidate { picks, toks, nums: f.0, dens: f.1, wins: f.2 }),
                Err(_) => {
                    proof {
                        assert(false);
                    }
                    None
                },
            }
        } else {
            None
        }
    }
}

/// Deep copy of a token vector.
fn clone_tokens(v: &Vec<String>) -> (r: Vec<String>) {
    let mut r: Vec<String> = Vec::new();
    let mut i: usize = 0;
    while i < v.len()
        decreases v.len() - i,
    {
        r.push(v[i].clone());
        i += 1;
    }
    r
}

/// Whether the ordered pair (`prev`, `tok`) stands in the banned list.
fn pair_banned(banned: &Vec<(String, String)>, prev: &String, tok: &String) -> bool {
    let n = banned.len();
    let mut i: usize = 0;
    while i < n
        invariant
            i <= n,
            n == banned@.len(),
        decreases n - i,
    {
        let row = &banned[i];
        if row.0 == *prev && row.1 == *tok {
            return true;
        }
        i += 1;
    }
    false
}

/// The tag a lexicon assigns to a token, `Unknown` when unlisted.
fn lexicon_tag(
    lex: &Vec<(String, crate::pos::PartOfSpeech)>,
    tok: &String,
) -> crate::pos::PartOfSpeech {
    let n = lex.len();
    let mut i: usize = 0;
    while i < n
        invariant
            i <= n,
            n == lex@.len(),
        decreases n - i,
    {
        let row = &lex[i];
        if row.0 == *tok {
            return row.1;
        }
        i += 1;
    }
    crate::pos::PartOfSpeech::Unknown
}

/// Whether tentative option `a` scores strictly below option `b`: both are
/// probability factor products over the same window count, each discounted
/// by its rational factor; the comparison clears denominators by raising
/// the discounts to the window count. Purely heuristic steering: every
/// candidate the search completes is validated independently.
fn tentative_lt(
    a: &(Vec<u64>, Vec<u64>, usize, u64, u64, u64, u64),
    b: &(Vec<u64>, Vec<u64>, usize, u64, u64, u64, u64),
) -> bool {
    let w = a.2;
    let mut lhs = crate::bignat::BigNat::one();
    bn_mul_all(&mut lhs, &a.1);
    bn_mul_pow(&mut lhs, a.3, w);
    bn_mul_pow(&mut lhs, a.4, w);
    bn_mul_all(&mut lhs, &b.0);
    bn_mul_pow(&mut lhs, b.5, w);
    bn_mul_pow(&mut lhs, b.6, w);
    let mut rhs = crate::bignat::BigNat::one();
    bn_mul_all(&mut rhs, &b.1);
    bn_mul_pow(&mut rhs, b.3, w);
    bn_mul_pow(&mut rhs, b.4, w);
    bn_mul_all(&mut rhs, &a.0);
    bn_mul_pow(&mut rhs, a.5, w);
    bn_mul_pow(&mut rhs, a.6, w);
    lhs.lt(&rhs)
}

/// Multiply every factor of `v` into `acc` once.
fn bn_mul_all(acc: &mut crate::bignat::BigNat, v: &Vec<u64>) {
    let mut i: usize = 0;
    while i < v.len()
        decreases v.len() - i,
    {
        acc.mul_u64(v[i]);
        i += 1;
    }
}

/// Multiply `f` into `acc`, `e` times.
fn bn_mul_pow(acc: &mut crate::bignat::BigNat, f: u64, e: usize) {
    let mut i: usize = 0;
    while i < e
        decreases e - i,
    {
        acc.mul_u64(f);
        i += 1;
    }
}

/// The running-minimum invariant: the best candidate, when one exists, is a
/// valid candidate whose score stands among the completed attempts and is
/// not beaten by any of them.
pub(crate) open spec fn best_inv(
    m: crate::model::ModelView,
    dq: Seq<Seq<Seq<char>>>,
    cov: Coverage,
    min_len: nat,
    best: Option<Candidate>,
    seen: Seq<(nat, nat, nat)>,
) -> bool {
    &&& forall|j: int|
        0 <= j < seen.len() ==> (#[trigger] seen[j]).1 > 0 && seen[j].2 >= 1
    &&& match best {
        Some(b) => {
            &&& cand_valid(m, dq, cov, min_len, b)
            &&& score_of(b).1 > 0
            &&& forall|j: int|
                0 <= j < seen.len() ==> !score_lt(
                    (#[trigger] seen[j]).0,
                    seen[j].1,
                    seen[j].2,
                    score_of(b).0,
                    score_of(b).1,
                    score_of(b).2,
                )
        },
        None => seen.len() == 0,
    }
}

/// Fold one attempt into the running best, keeping the minimum under the
/// exact perplexity ordering.
fn consider(
    model: &Model,
    Ghost(dq): Ghost<Seq<Seq<Seq<char>>>>,
    Ghost(cov): Ghost<Coverage>,
    Ghost(min_len): Ghost<nat>,
    best: &mut Option<Candidate>,
    attempt: Option<Candidate>,
    Ghost(seen): Ghost<Seq<(nat, nat, nat)>>,
) -> (out: Ghost<Seq<(nat, nat, nat)>>)
    requires
        model@.wf(),
        model@.total > 0,
        match attempt {
            Some(c) => cand_valid(model@, dq, cov, min_len, c),
            None => true,
        },
        best_inv(model@, dq, cov, min_len, *old(best), seen),
    ensures
        best_inv(model@, dq, cov, min_len, *final(best), out@),
{
    let ghost mut seen = seen;
    match attempt {
        Some(c) => {
            proof {
                let ws = windows_of(model@.mode, c.toks.deep_view());
                crate::perplexity::lemma_den_prod_positive(model@, ws, ws.len() as int);
            }
            let ghost sc = score_of(c);
            match best {
                Some(b) => {
                    let ghost sb = score_of(*b);
                    if cand_lt(&c, b) {
                        proof {
                            assert forall|j: int| 0 <= j < seen.len() implies !score_lt(
                                (#[trigger] seen[j]).0,
                                seen[j].1,
                                seen[j].2,
                                sc.0,
                                sc.1,
                                sc.2,
                            ) by {
                                if score_lt(
                                    seen[j].0,
                                    seen[j].1,
                                    seen[j].2,
                                    sc.0,
                                    sc.1,
                                    sc.2,
                                ) {
                                    crate::perplexity::lemma_score_lt_transitive(
                                        seen[j].0,
                                        seen[j].1,
                                        seen[j].2,
                                        sc.0,
                                        sc.1,
                                        sc.2,
                                        sb.0,
                                        sb.1,
                                        sb.2,
                                    );
                                }
                            };
                            crate::perplexity::lemma_score_lt_irreflexive(sc.0, sc.1, sc.2);
                            seen = seen.push(sc);
                        }
                        *best = Some(c);
                    } else {
                        proof {
                            seen = seen.push(sc);
                        }
                    }
                },
                None => {
                    proof {
                        crate::perplexity::lemma_score_lt_irreflexive(sc.0, sc.1, sc.2);
                        seen = seen.push(sc);
                    }
                    *best = Some(c);
                },
            }
        },
        None => {},
    }
    Ghost(seen)
}

/// The summed remainder is never negative while cursors stay in bounds.
proof fn lemma_rem_nonneg(qs: Seq<Seq<Seq<char>>>, cur: Seq<usize>, k: int)
    requires
        k <= cur.len(),
        forall|i: int| 0 <= i < cur.len() ==> #[trigger] cur[i] <= qs[i].len(),
    ensures
        rem_upto(qs, cur, k) >= 0,
    decreases k,
{
    if k > 0 {
        lemma_rem_nonneg(qs, cur, k - 1);
    }
}

} // verus!
