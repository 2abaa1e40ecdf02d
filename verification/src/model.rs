//! The frequency model: counts of observed items, the frequency-of-frequencies
//! table, and Good-Turing smoothed probabilities.
//!
//! An item is one token (unigram mode) or an ordered pair of adjacent tokens
//! (bigram mode); the mode is fixed at construction. The model keeps, for
//! every observed item, its count; a table `N` mapping each count value `r`
//! to the number of distinct items observed exactly `r` times; and the
//! running total of all counts. Well-formedness ties the three together and
//! in particular yields the bookkeeping law: the counts weighted by the
//! table sum back to the total.
//!
//! Probabilities are exact rationals over these integers — never floating
//! point — and are meant for comparative scoring only: they are not
//! renormalized to sum to one over the vocabulary.

use vstd::prelude::*;

verus! {

use crate::Error;

/// Whether items are single tokens or adjacent token pairs.
#[derive(Clone, Copy, Debug, PartialEq, Eq, Structural)]
pub enum Mode {
    Unigram,
    Bigram,
}

/// How many tokens make one item in the given mode.
pub open spec fn arity_of(mode: Mode) -> nat {
    match mode {
        Mode::Unigram => 1,
        Mode::Bigram => 2,
    }
}

/// Whether some entry carries the item `key`.
pub open spec fn has_key(entries: Seq<(Seq<Seq<char>>, nat)>, key: Seq<Seq<char>>) -> bool
    decreases entries.len(),
{
    if entries.len() == 0 {
        false
    } else {
        entries.first().0 == key || has_key(entries.drop_first(), key)
    }
}

/// The count recorded for `key`: the first matching entry's count, zero when
/// no entry matches.
pub open spec fn count_in(entries: Seq<(Seq<Seq<char>>, nat)>, key: Seq<Seq<char>>) -> nat
    decreases entries.len(),
{
    if entries.len() == 0 {
        0
    } else if entries.first().0 == key {
        entries.first().1
    } else {
        count_in(entries.drop_first(), key)
    }
}

/// How many entries hold exactly the count `c`.
pub open spec fn num_with_count(entries: Seq<(Seq<Seq<char>>, nat)>, c: nat) -> nat
    decreases entries.len(),
{
    if entries.len() == 0 {
        0
    } else {
        num_with_count(entries.drop_last(), c) + if entries.last().1 == c {
            1nat
        } else {
            0nat
        }
    }
}

/// The sum of all entry counts.
pub open spec fn sum_counts(entries: Seq<(Seq<Seq<char>>, nat)>) -> nat
    decreases entries.len(),
{
    if entries.len() == 0 {
        0
    } else {
        sum_counts(entries.drop_last()) + entries.last().1
    }
}

/// No two entries carry the same item.
pub open spec fn distinct_keys(entries: Seq<(Seq<Seq<char>>, nat)>) -> bool {
    forall|i: int, j: int|
        0 <= i < j < entries.len() ==> (#[trigger] entries[i]).0 != (#[trigger] entries[j]).0
}

/// The mathematical face of a model.
pub struct ModelView {
    pub mode: Mode,
    pub entries: Seq<(Seq<Seq<char>>, nat)>,
    pub table: Seq<nat>,
    pub total: nat,
    pub vocab_bound: nat,
}

impl ModelView {
    /// Well-formedness: every entry is a distinct item of the right arity
    /// with a positive count below the table's reach; each table cell `r`
    /// holds exactly the number of items counted `r` times; and the total is
    /// the sum of all counts.
    pub open spec fn wf(self) -> bool {
        &&& self.table.len() >= 1
        &&& self.table[0] == 0
        &&& distinct_keys(self.entries)
        &&& forall|i: int|
            0 <= i < self.entries.len() ==> (#[trigger] self.entries[i]).0.len() == arity_of(
                self.mode,
            )
        &&& forall|i: int|
            0 <= i < self.entries.len() ==> 1 <= (#[trigger] self.entries[i]).1 < self.table.len()
        &&& forall|c: int|
            1 <= c < self.table.len() ==> #[trigger] self.table[c] == num_with_count(
                self.entries,
                c as nat,
            )
        &&& self.total == sum_counts(self.entries)
    }

    /// The number of distinct observed items.
    pub open spec fn types(self) -> nat {
        self.entries.len()
    }

    /// The current count of an item, zero when never observed.
    pub open spec fn count_of(self, key: Seq<Seq<char>>) -> nat {
        count_in(self.entries, key)
    }

    /// The frequency-of-frequencies read at any count value. Unobserved items
    /// (count zero) read the headroom the vocabulary bound leaves over the
    /// observed types; counts beyond the table read zero.
    pub open spec fn n_of(self, r: nat) -> nat {
        if r == 0 {
            if self.types() <= self.vocab_bound {
                (self.vocab_bound - self.types()) as nat
            } else {
                0
            }
        } else if r < self.table.len() {
            self.table[r as int]
        } else {
            0
        }
    }

    /// Numerator of the smoothed probability of `key` (valid when trained):
    /// the Good-Turing discounted count `(r+1) * N[r+1] / N[r]` when both
    /// table reads are positive, otherwise the raw count.
    pub open spec fn prob_num(self, key: Seq<Seq<char>>) -> nat {
        let r = self.count_of(key);
        if self.n_of(r) > 0 && self.n_of(r + 1) > 0 {
            (r + 1) * self.n_of(r + 1)
        } else {
            r
        }
    }

    /// Denominator of the smoothed probability of `key` (valid when trained).
    pub open spec fn prob_den(self, key: Seq<Seq<char>>) -> nat {
        let r = self.count_of(key);
        if self.n_of(r) > 0 && self.n_of(r + 1) > 0 {
            self.n_of(r) * self.total
        } else {
            self.total
        }
    }
}

/// An absent key counts zero.
proof fn lemma_count_absent(entries: Seq<(Seq<Seq<char>>, nat)>, key: Seq<Seq<char>>)
    requires
        !has_key(entries, key),
    ensures
        count_in(entries, key) == 0,
    decreases entries.len(),
{
    if entries.len() > 0 {
        lemma_count_absent(entries.drop_first(), key);
    }
}

/// The first matching index determines the count.
proof fn lemma_count_at_first_match(
    entries: Seq<(Seq<Seq<char>>, nat)>,
    key: Seq<Seq<char>>,
    i: int,
)
    requires
        0 <= i < entries.len(),
        entries[i].0 == key,
        forall|j: int| 0 <= j < i ==> (#[trigger] entries[j]).0 != key,
    ensures
        has_key(entries, key),
        count_in(entries, key) == entries[i].1,
    decreases entries.len(),
{
    if i > 0 {
        lemma_count_at_first_match(entries.drop_first(), key, i - 1);
    }
}

/// A key seen by no prefix entry is absent when the scan ran the whole way.
proof fn lemma_absent_after_scan(entries: Seq<(Seq<Seq<char>>, nat)>, key: Seq<Seq<char>>)
    requires
        forall|j: int| 0 <= j < entries.len() ==> (#[trigger] entries[j]).0 != key,
    ensures
        !has_key(entries, key),
    decreases entries.len(),
{
    if entries.len() > 0 {
        lemma_absent_after_scan(entries.drop_first(), key);
    }
}

/// Appending an entry: the new key gains its count when it was absent; every
/// other lookup is untouched.
proof fn lemma_count_push(
    entries: Seq<(Seq<Seq<char>>, nat)>,
    key: Seq<Seq<char>>,
    c: nat,
    x: Seq<Seq<char>>,
)
    ensures
        has_key(entries.push((key, c)), x) == (has_key(entries, x) || x == key),
        count_in(entries.push((key, c)), x) == if !has_key(entries, x) && x == key {
            c
        } else {
            count_in(entries, x)
        },
    decreases entries.len(),
{
    if entries.len() == 0 {
        assert(entries.push((key, c)).drop_first() =~= entries);
    } else {
        assert(entries.push((key, c)).drop_first() =~= entries.drop_first().push((key, c)));
        lemma_count_push(entries.drop_first(), key, c, x);
    }
}

/// Rewriting the count at a first-match index: that key takes the new count;
/// every other lookup is untouched.
proof fn lemma_count_update(
    entries: Seq<(Seq<Seq<char>>, nat)>,
    i: int,
    c: nat,
    x: Seq<Seq<char>>,
)
    requires
        0 <= i < entries.len(),
        forall|j: int| 0 <= j < i ==> (#[trigger] entries[j]).0 != entries[i].0,
    ensures
        has_key(entries.update(i, (entries[i].0, c)), x) == has_key(entries, x),
        count_in(entries.update(i, (entries[i].0, c)), x) == if x == entries[i].0 {
            c
        } else {
            count_in(entries, x)
        },
    decreases entries.len(),
{
    let upd = entries.update(i, (entries[i].0, c));
    if i == 0 {
        assert(upd.drop_first() =~= entries.drop_first());
        if x != entries[0].0 {
            assert(count_in(upd, x) == count_in(upd.drop_first(), x));
        }
    } else {
        assert(upd.drop_first() =~= entries.drop_first().update(i - 1, (entries[i].0, c)));
        assert(entries.drop_first()[i - 1].0 == entries[i].0);
        lemma_count_update(entries.drop_first(), i - 1, c, x);
    }
}

/// Appending an entry raises by one the tally of its count and no other.
proof fn lemma_nwc_push(entries: Seq<(Seq<Seq<char>>, nat)>, e: (Seq<Seq<char>>, nat), c: nat)
    ensures
        num_with_count(entries.push(e), c) == num_with_count(entries, c) + if e.1 == c {
            1nat
        } else {
            0nat
        },
{
    assert(entries.push(e).drop_last() =~= entries);
}

/// Appending an entry adds its count to the sum.
proof fn lemma_sum_push(entries: Seq<(Seq<Seq<char>>, nat)>, e: (Seq<Seq<char>>, nat))
    ensures
        sum_counts(entries.push(e)) == sum_counts(entries) + e.1,
{
    assert(entries.push(e).drop_last() =~= entries);
}

/// Rewriting one entry moves one unit of tally from its old count to its new.
proof fn lemma_nwc_update(
    entries: Seq<(Seq<Seq<char>>, nat)>,
    i: int,
    e: (Seq<Seq<char>>, nat),
    c: nat,
)
    requires
        0 <= i < entries.len(),
    ensures
        num_with_count(entries.update(i, e), c) + (if entries[i].1 == c {
            1nat
        } else {
            0nat
        }) == num_with_count(entries, c) + (if e.1 == c {
            1nat
        } else {
            0nat
        }),
    decreases entries.len(),
{
    let upd = entries.update(i, e);
    if i == entries.len() - 1 {
        assert(upd.drop_last() =~= entries.drop_last());
        assert(upd.last() == e);
    } else {
        assert(upd.drop_last() =~= entries.drop_last().update(i, e));
        assert(upd.last() == entries.last());
        lemma_nwc_update(entries.drop_last(), i, e, c);
    }
}

/// Rewriting one entry shifts the sum by the difference of counts.
proof fn lemma_sum_update(entries: Seq<(Seq<Seq<char>>, nat)>, i: int, e: (Seq<Seq<char>>, nat))
    requires
        0 <= i < entries.len(),
    ensures
        sum_counts(entries.update(i, e)) + entries[i].1 == sum_counts(entries) + e.1,
    decreases entries.len(),
{
    let upd = entries.update(i, e);
    if i == entries.len() - 1 {
        assert(upd.drop_last() =~= entries.drop_last());
        assert(upd.last() == e);
    } else {
        assert(upd.drop_last() =~= entries.drop_last().update(i, e));
        assert(upd.last() == entries.last());
        lemma_sum_update(entries.drop_last(), i, e);
    }
}

/// An entry holding count `c` guarantees a positive tally for `c`.
proof fn lemma_nwc_positive(entries: Seq<(Seq<Seq<char>>, nat)>, i: int)
    requires
        0 <= i < entries.len(),
    ensures
        num_with_count(entries, entries[i].1) >= 1,
    decreases entries.len(),
{
    if i == entries.len() - 1 {
        assert(entries.last() == entries[i]);
    } else {
        lemma_nwc_positive(entries.drop_last(), i);
    }
}

/// The scoring windows of a token line: every token alone in unigram mode,
/// every adjacent pair in bigram mode.
pub open spec fn windows_of(mode: Mode, line: Seq<Seq<char>>) -> Seq<Seq<Seq<char>>> {
    match mode {
        Mode::Unigram => Seq::new(line.len(), |i: int| seq![line[i]]),
        Mode::Bigram => if line.len() < 2 {
            Seq::empty()
        } else {
            Seq::new((line.len() - 1) as nat, |i: int| seq![line[i], line[i + 1]])
        },
    }
}

/// How many of the first `k` windows equal `key`.
pub open spec fn matches_upto(ws: Seq<Seq<Seq<char>>>, key: Seq<Seq<char>>, k: int) -> nat
    decreases k,
{
    if k <= 0 {
        0
    } else {
        matches_upto(ws, key, k - 1) + if 0 <= k - 1 < ws.len() && ws[k - 1] == key {
            1nat
        } else {
            0nat
        }
    }
}

/// Occurrences of `key` among all windows of the first `li` lines.
pub open spec fn occurrences_upto(
    mode: Mode,
    lines: Seq<Seq<Seq<char>>>,
    key: Seq<Seq<char>>,
    li: int,
) -> nat
    decreases li,
{
    if li <= 0 {
        0
    } else {
        occurrences_upto(mode, lines, key, li - 1) + matches_upto(
            windows_of(mode, lines[li - 1]),
            key,
            windows_of(mode, lines[li - 1]).len() as int,
        )
    }
}

/// Occurrences of `key` among all windows of a corpus.
pub open spec fn occurrences(mode: Mode, lines: Seq<Seq<Seq<char>>>, key: Seq<Seq<char>>) -> nat {
    occurrences_upto(mode, lines, key, lines.len() as int)
}

/// The number of windows in the first `li` lines.
pub open spec fn windows_count_upto(mode: Mode, lines: Seq<Seq<Seq<char>>>, li: int) -> nat
    decreases li,
{
    if li <= 0 {
        0
    } else {
        windows_count_upto(mode, lines, li - 1) + windows_of(mode, lines[li - 1]).len()
    }
}

/// The number of windows in a whole corpus.
pub open spec fn total_windows(mode: Mode, lines: Seq<Seq<Seq<char>>>) -> nat {
    windows_count_upto(mode, lines, lines.len() as int)
}

/// The window count grows with the number of lines taken.
proof fn lemma_wcount_mono(mode: Mode, lines: Seq<Seq<Seq<char>>>, a: int, b: int)
    requires
        0 <= a <= b,
    ensures
        windows_count_upto(mode, lines, a) <= windows_count_upto(mode, lines, b),
    decreases b,
{
    if b > a {
        lemma_wcount_mono(mode, lines, a, b - 1);
    }
}

/// The match count among windows grows with the prefix taken and never
/// exceeds it.
proof fn lemma_matches_le(ws: Seq<Seq<Seq<char>>>, key: Seq<Seq<char>>, k: int)
    requires
        k >= 0,
    ensures
        matches_upto(ws, key, k) <= k,
    decreases k,
{
    if k > 0 {
        lemma_matches_le(ws, key, k - 1);
    }
}

/// The token half of a tagged line: the items at even positions of an
/// alternating token, tag sequence.
pub open spec fn spec_strip_tags(line: Seq<Seq<char>>) -> Seq<Seq<char>> {
    Seq::new((line.len() + 1) / 2, |i: int| line[2 * i])
}

/// The token halves of every tagged line.
pub open spec fn spec_strip_all(lines: Seq<Seq<Seq<char>>>) -> Seq<Seq<Seq<char>>> {
    Seq::new(lines.len(), |i: int| spec_strip_tags(lines[i]))
}

/// Keep every token of an alternating token, tag line; drop the tags.
fn strip_tags(lines: &Vec<Vec<String>>) -> (r: Vec<Vec<String>>)
    ensures
        r.deep_view() == spec_strip_all(lines.deep_view()),
{
    let ghost dlines = lines.deep_view();
    let nlines = lines.len();
    let mut r: Vec<Vec<String>> = Vec::new();
    let mut li: usize = 0;
    while li < nlines
        invariant
            li <= nlines,
            nlines == lines@.len(),
            dlines == lines.deep_view(),
            r@.len() == li,
            forall|i: int| 0 <= i < li ==> r.deep_view()[i] == spec_strip_tags(dlines[i]),
        decreases nlines - li,
    {
        let line_len = lines[li].len();
        let keep = line_len / 2 + line_len % 2;
        proof {
            assert(keep == (line_len + 1) / 2) by (nonlinear_arith)
                requires
                    keep == line_len / 2 + line_len % 2,
            ;
        }
        let mut out: Vec<String> = Vec::new();
        let mut k: usize = 0;
        proof {
            assert(dlines[li as int] == lines@[li as int].deep_view());
        }
        while k < keep
            invariant
                k <= keep,
                li < nlines,
                nlines == lines@.len(),
                dlines == lines.deep_view(),
                line_len == lines@[li as int]@.len(),
                keep == (line_len + 1) / 2,
                out@.len() == k,
                forall|i: int| 0 <= i < k ==> out.deep_view()[i] == dlines[li as int][2 * i],
            decreases keep - k,
        {
            proof {
                assert(2 * k < line_len);
            }
            let ghost odv0 = out.deep_view();
            out.push(lines[li][2 * k].clone());
            proof {
                assert(dlines[li as int][2 * (k as int)] == lines@[li as int].deep_view()[2 * (
                k as int)]);
                assert(lines@[li as int].deep_view()[2 * (k as int)] == lines@[li as int]@[2 * (
                k as int)]@);
                assert forall|i: int| 0 <= i < k + 1 implies out.deep_view()[i] == dlines[
                    li as int][2 * i] by {
                    if i < k {
                        assert(out.deep_view()[i] == out@[i].deep_view());
                        assert(odv0[i] == dlines[li as int][2 * i]);
                    } else {
                        assert(out.deep_view()[i] == out@[i].deep_view());
                        assert(out@[i]@ == lines@[li as int]@[2 * (k as int)]@);
                    }
                };
            }
            k += 1;
        }
        let ghost rdv0 = r.deep_view();
        r.push(out);
        proof {
            assert(out.deep_view() =~= spec_strip_tags(dlines[li as int]));
            assert forall|i: int| 0 <= i < li + 1 implies r.deep_view()[i] == spec_strip_tags(
                dlines[i],
            ) by {
                if i < li {
                    assert(r.deep_view()[i] == r@[i].deep_view());
                    assert(rdv0[i] == spec_strip_tags(dlines[i]));
                } else {
                    assert(r.deep_view()[i] == out.deep_view());
                }
            };
        }
        li += 1;
    }
    proof {
        assert(r.deep_view() =~= spec_strip_all(dlines));
    }
    r
}

/// Whether the lexicon already carries an entry for this token.
fn lexicon_holds(lex: &Vec<(String, crate::pos::PartOfSpeech)>, tok: &String) -> (r: bool)
    ensures
        r == exists|i: int| 0 <= i < lex@.len() && (#[trigger] lex@[i]).0@ == tok@,
{
    let n = lex.len();
    let mut i: usize = 0;
    while i < n
        invariant
            i <= n,
            n == lex@.len(),
            forall|j: int| 0 <= j < i ==> (#[trigger] lex@[j]).0@ != tok@,
        decreases n - i,
    {
        let row = &lex[i].0;
        if *row == *tok {
            proof {
                assert(lex@[i as int].0@ == tok@);
            }
            return true;
        }
        i += 1;
    }
    false
}

/// The default assumed vocabulary bound: the headroom that the zero-count
/// table cell is computed from.
pub const DEFAULT_VOCAB_BOUND: usize = 250000;

/// The frequency model. Built once from a corpus, then read-only.
pub struct Model {
    mode: Mode,
    entries: Vec<(Vec<String>, usize)>,
    table: Vec<usize>,
    total: usize,
    vocab_bound: usize,
}

impl View for Model {
    type V = ModelView;

    closed spec fn view(&self) -> ModelView {
        ModelView {
            mode: self.mode,
            entries: Seq::new(
                self.entries@.len(),
                |i: int| (self.entries@[i].0.deep_view(), self.entries@[i].1 as nat),
            ),
            table: Seq::new(self.table@.len(), |i: int| self.table@[i] as nat),
            total: self.total as nat,
            vocab_bound: self.vocab_bound as nat,
        }
    }
}

/// Whether two token vectors spell the same item.
fn item_eq(a: &Vec<String>, b: &Vec<String>) -> (r: bool)
    ensures
        r == (a.deep_view() == b.deep_view()),
{
    if a.len() != b.len() {
        proof {
            assert(a.deep_view().len() != b.deep_view().len());
        }
        return false;
    }
    let n = a.len();
    let mut i: usize = 0;
    while i < n
        invariant
            i <= n,
            n == a@.len() && n == b@.len(),
            forall|j: int| 0 <= j < i ==> a.deep_view()[j] == b.deep_view()[j],
        decreases n - i,
    {
        if !(a[i] == b[i]) {
            proof {
                assert(a.deep_view()[i as int] != b.deep_view()[i as int]);
            }
            return false;
        }
        proof {
            assert(a.deep_view()[i as int] == b.deep_view()[i as int]);
        }
        i += 1;
    }
    proof {
        assert(a.deep_view() =~= b.deep_view());
    }
    true
}

impl Model {
    /// A fresh, untrained model in the given mode, with the default
    /// vocabulary bound.
    pub fn new(mode: Mode) -> (r: Model)
        ensures
            r@.wf(),
            r@.mode == mode,
            r@.entries.len() == 0,
            r@.total == 0,
            r@.vocab_bound == DEFAULT_VOCAB_BOUND,
    {
        let mut table: Vec<usize> = Vec::new();
        table.push(0);
        let r = Model { mode, entries: Vec::new(), table, total: 0, vocab_bound: DEFAULT_VOCAB_BOUND };
        proof {
            assert(r@.entries =~= Seq::<(Seq<Seq<char>>, nat)>::empty());
            assert(r@.table.len() == 1 && r@.table[0] == 0);
        }
        r
    }

    /// The index of the entry holding `key`, when one does.
    fn find_index(&self, key: &Vec<String>) -> (r: Option<usize>)
        ensures
            match r {
                Some(i) => i < self@.entries.len() && self@.entries[i as int].0
                    == key.deep_view() && forall|j: int|
                    0 <= j < i ==> (#[trigger] self@.entries[j]).0 != key.deep_view(),
                None => !has_key(self@.entries, key.deep_view()),
            },
    {
        let n = self.entries.len();
        let mut i: usize = 0;
        while i < n
            invariant
                i <= n,
                n == self.entries@.len(),
                self@.entries.len() == n,
                forall|j: int| 0 <= j < i ==> (#[trigger] self@.entries[j]).0 != key.deep_view(),
            decreases n - i,
        {
            if item_eq(&self.entries[i].0, key) {
                return Some(i);
            }
            i += 1;
        }
        proof {
            lemma_absent_after_scan(self@.entries, key.deep_view());
        }
        None
    }

    /// Record one more observation of `key`, keeping every part of the
    /// bookkeeping in step: the key's count rises by one, the
    /// frequency-of-frequencies table moves one tally from the old count to
    /// the new, and the total rises by one.
    fn bump(&mut self, key: Vec<String>)
        requires
            old(self)@.wf(),
            key.deep_view().len() == arity_of(old(self)@.mode),
            old(self)@.total < usize::MAX,
        ensures
            final(self)@.wf(),
            final(self)@.mode == old(self)@.mode,
            final(self)@.vocab_bound == old(self)@.vocab_bound,
            final(self)@.total == old(self)@.total + 1,
            final(self)@.count_of(key.deep_view()) == old(self)@.count_of(key.deep_view()) + 1,
            forall|x: Seq<Seq<char>>|
                x != key.deep_view() ==> final(self)@.count_of(x) == old(self)@.count_of(x),
    {
        let ghost k = key.deep_view();
        let found = self.find_index(&key);
        match found {
            Some(i) => {
                let r = self.entries[i].1;
                proof {
                    assert(self@.entries[i as int].1 == r as nat);
                    lemma_count_at_first_match(self@.entries, k, i as int);
                    lemma_count_le_sum(self@.entries, i as int);
                    lemma_nwc_positive(self@.entries, i as int);
                    assert(self@.table[r as int] == num_with_count(self@.entries, r as nat));
                }
                let tr = self.table[r];
                self.table[r] = tr - 1;
                if r + 1 < self.table.len() {
                    let t1 = self.table[r + 1];
                    proof {
                        assert(t1 as nat == old(self)@.table[r + 1]);
                        assert(old(self)@.table[r + 1] == num_with_count(
                            old(self)@.entries,
                            (r + 1) as nat,
                        ));
                        lemma_nwc_le_len(old(self)@.entries, (r + 1) as nat);
                        lemma_len_le_sum(old(self)@.entries);
                    }
                    self.table[r + 1] = t1 + 1;
                } else {
                    self.table.push(1);
                }
                let ghost key_view = self@.entries[i as int].0;
                self.entries[i].1 = r + 1;
                self.total = self.total + 1;
                proof {
                    let oldv = old(self)@;
                    let newv = self@;
                    assert(newv.entries =~= oldv.entries.update(i as int, (key_view, (r + 1) as nat)));
                    assert(key_view == k);
                    lemma_count_update(oldv.entries, i as int, (r + 1) as nat, k);
                    assert forall|x: Seq<Seq<char>>| x != k implies newv.count_of(x)
                        == oldv.count_of(x) by {
                        lemma_count_update(oldv.entries, i as int, (r + 1) as nat, x);
                    };
                    lemma_sum_update(oldv.entries, i as int, (key_view, (r + 1) as nat));
                    assert forall|c: int| 1 <= c < newv.table.len() implies #[trigger] newv.table[c]
                        == num_with_count(newv.entries, c as nat) by {
                        lemma_nwc_update(oldv.entries, i as int, (key_view, (r + 1) as nat), c as nat);
                        if c < oldv.table.len() {
                            assert(oldv.table[c] == num_with_count(oldv.entries, c as nat));
                        } else {
                            lemma_nwc_absent_above(oldv.entries, oldv.table.len() as int, c as nat);
                        }
                    };
                    assert(newv.wf());
                }
            },
            None => {
                proof {
                    lemma_count_absent(self@.entries, k);
                }
                let t1_exists = self.table.len() > 1;
                if t1_exists {
                    let t1 = self.table[1];
                    proof {
                        assert(t1 as nat == old(self)@.table[1]);
                        assert(old(self)@.table[1] == num_with_count(old(self)@.entries, 1nat));
                        lemma_nwc_le_len(old(self)@.entries, 1nat);
                        lemma_len_le_sum(old(self)@.entries);
                    }
                    self.table[1] = t1 + 1;
                } else {
                    self.table.push(1);
                }
                self.entries.push((key, 1));
                self.total = self.total + 1;
                proof {
                    let oldv = old(self)@;
                    let newv = self@;
                    assert(newv.entries =~= oldv.entries.push((k, 1nat)));
                    assert forall|x: Seq<Seq<char>>| x != k implies newv.count_of(x)
                        == oldv.count_of(x) by {
                        lemma_count_push(oldv.entries, k, 1nat, x);
                    };
                    lemma_count_push(oldv.entries, k, 1nat, k);
                    lemma_sum_push(oldv.entries, (k, 1nat));
                    assert forall|c: int| 1 <= c < newv.table.len() implies #[trigger] newv.table[c]
                        == num_with_count(newv.entries, c as nat) by {
                        lemma_nwc_push(oldv.entries, (k, 1nat), c as nat);
                        if c < oldv.table.len() {
                            assert(oldv.table[c] == num_with_count(oldv.entries, c as nat));
                        } else {
                            lemma_nwc_absent_above(oldv.entries, oldv.table.len() as int, c as nat);
                        }
                    };
                    assert(distinct_keys(newv.entries)) by {
                        assert(forall|j: int|
                            0 <= j < oldv.entries.len() ==> (#[trigger] oldv.entries[j]).0 != k)
                            by {
                            if exists|j: int|
                                0 <= j < oldv.entries.len() && (#[trigger] oldv.entries[j]).0
                                    == k {
                                let j = choose|j: int|
                                    0 <= j < oldv.entries.len() && (#[trigger] oldv.entries[j]).0
                                        == k;
                                lemma_key_at_index(oldv.entries, j);
                            }
                        };
                    };
                    assert(newv.wf());
                }
            },
        }
    }

    /// Ingest a corpus: every window of every line is counted once, with the
    /// frequency-of-frequencies table and the running total kept in step.
    /// Ingestion adds to whatever the model already holds, so a fresh model
    /// ends up with exactly the corpus occurrence counts.
    pub fn make(&mut self, lines: &Vec<Vec<String>>)
        requires
            old(self)@.wf(),
            old(self)@.total + total_windows(old(self)@.mode, lines.deep_view())
                <= usize::MAX,
        ensures
            final(self)@.wf(),
            final(self)@.mode == old(self)@.mode,
            final(self)@.vocab_bound == old(self)@.vocab_bound,
            final(self)@.total == old(self)@.total + total_windows(
                old(self)@.mode,
                lines.deep_view(),
            ),
            forall|key: Seq<Seq<char>>| #[trigger]
                final(self)@.count_of(key) == old(self)@.count_of(key) + occurrences(
                    old(self)@.mode,
                    lines.deep_view(),
                    key,
                ),
    {
        let ghost dlines = lines.deep_view();
        let ghost mode = self@.mode;
        let ghost total0 = self@.total;
        let nlines = lines.len();
        let mut li: usize = 0;
        while li < nlines
            invariant
                li <= nlines,
                nlines == lines@.len(),
                dlines == lines.deep_view(),
                mode == self@.mode,
                total0 + total_windows(mode, dlines) <= usize::MAX,
                self@.wf(),
                self@.vocab_bound == old(self)@.vocab_bound,
                self@.total == total0 + windows_count_upto(mode, dlines, li as int),
                forall|key: Seq<Seq<char>>| #[trigger]
                    self@.count_of(key) == old(self)@.count_of(key) + occurrences_upto(
                        mode,
                        dlines,
                        key,
                        li as int,
                    ),
            decreases nlines - li,
        {
            let ghost ws = windows_of(mode, dlines[li as int]);
            let line_len = lines[li].len();
            let wcount: usize = match self.mode {
                Mode::Unigram => line_len,
                Mode::Bigram => if line_len < 2 {
                    0
                } else {
                    line_len - 1
                },
            };
            proof {
                assert(dlines[li as int] == lines@[li as int].deep_view());
                assert(ws.len() == wcount);
                lemma_wcount_mono(mode, dlines, li as int + 1, dlines.len() as int);
            }
            let mut wi: usize = 0;
            while wi < wcount
                invariant
                    wi <= wcount,
                    li < nlines,
                    nlines == lines@.len(),
                    dlines == lines.deep_view(),
                    mode == self@.mode,
                    total0 + total_windows(mode, dlines) <= usize::MAX,
                    ws == windows_of(mode, dlines[li as int]),
                    ws.len() == wcount,
                    line_len == lines@[li as int]@.len(),
                    windows_count_upto(mode, dlines, li as int + 1) <= total_windows(mode, dlines),
                    self@.wf(),
                    self@.vocab_bound == old(self)@.vocab_bound,
                    self@.total == total0 + windows_count_upto(mode, dlines, li as int) + wi,
                    forall|key: Seq<Seq<char>>| #[trigger]
                        self@.count_of(key) == old(self)@.count_of(key) + occurrences_upto(
                            mode,
                            dlines,
                            key,
                            li as int,
                        ) + matches_upto(ws, key, wi as int),
                decreases wcount - wi,
            {
                let mut item: Vec<String> = Vec::new();
                match self.mode {
                    Mode::Unigram => {
                        item.push(lines[li][wi].clone());
                    },
                    Mode::Bigram => {
                        item.push(lines[li][wi].clone());
                        item.push(lines[li][wi + 1].clone());
                    },
                }
                proof {
                    assert(lines@[li as int]@[wi as int]@ == dlines[li as int][wi as int]);
                    assert(item.deep_view() =~= ws[wi as int]);
                    lemma_matches_le(ws, ws[wi as int], wi as int);
                    assert(self@.total < usize::MAX);
                }
                let ghost pre = self@;
                let ghost kw = item.deep_view();
                self.bump(item);
                proof {
                    assert forall|key: Seq<Seq<char>>| #[trigger] self@.count_of(key)
                        == old(self)@.count_of(key) + occurrences_upto(mode, dlines, key, li as int)
                        + matches_upto(ws, key, wi as int + 1) by {
                        if key == kw {
                            assert(self@.count_of(key) == pre.count_of(key) + 1);
                        } else {
                            assert(self@.count_of(key) == pre.count_of(key));
                        }
                    };
                }
                wi += 1;
            }
            li += 1;
        }
    }

    /// The sum of all counts: how many windows built this model.
    pub fn total(&self) -> (r: usize)
        ensures
            r == self@.total,
    {
        self.total
    }

    /// The mode fixed at construction.
    pub fn mode(&self) -> (r: Mode)
        ensures
            r == self@.mode,
    {
        self.mode
    }

    /// How far the frequency-of-frequencies table reaches.
    pub(crate) fn table_len(&self) -> (r: usize)
        ensures
            r == self@.table.len(),
    {
        self.table.len()
    }

    /// Ingest the tagged corpus variant: each line alternates token and
    /// part-of-speech tag, only the tokens are counted, and the tag lexicon
    /// read off the lines comes back beside the updated model. A token's
    /// category comes from the tag beside its first occurrence and is never
    /// changed afterward; unrecognized tag strings leave the token `Unknown`
    /// and do not abort ingestion; a trailing token without a tag is counted
    /// and left untagged.
    pub fn make_tagged(&mut self, lines: &Vec<Vec<String>>) -> (lex: Vec<(
        String,
        crate::pos::PartOfSpeech,
    )>)
        requires
            old(self)@.wf(),
            old(self)@.total + total_windows(
                old(self)@.mode,
                spec_strip_all(lines.deep_view()),
            ) <= usize::MAX,
        ensures
            final(self)@.wf(),
            final(self)@.mode == old(self)@.mode,
            final(self)@.vocab_bound == old(self)@.vocab_bound,
            final(self)@.total == old(self)@.total + total_windows(
                old(self)@.mode,
                spec_strip_all(lines.deep_view()),
            ),
            forall|key: Seq<Seq<char>>| #[trigger]
                final(self)@.count_of(key) == old(self)@.count_of(key) + occurrences(
                    old(self)@.mode,
                    spec_strip_all(lines.deep_view()),
                    key,
                ),
            forall|i: int, j: int|
                0 <= i < j < lex@.len() ==> (#[trigger] lex@[i]).0@ != (#[trigger] lex@[j]).0@,
    {
        let tokens = strip_tags(lines);
        self.make(&tokens);
        let mut lex: Vec<(String, crate::pos::PartOfSpeech)> = Vec::new();
        let nlines = lines.len();
        let mut li: usize = 0;
        while li < nlines
            invariant
                li <= nlines,
                nlines == lines@.len(),
                forall|i: int, j: int|
                    0 <= i < j < lex@.len() ==> (#[trigger] lex@[i]).0@ != (#[trigger] lex@[j]).0@,
            decreases nlines - li,
        {
            let line_len = lines[li].len();
            let pairs = line_len / 2;
            let mut t: usize = 0;
            while t < pairs
                invariant
                    t <= pairs,
                    li < nlines,
                    nlines == lines@.len(),
                    line_len == lines@[li as int]@.len(),
                    pairs == line_len / 2,
                    forall|i: int, j2: int|
                        0 <= i < j2 < lex@.len() ==> (#[trigger] lex@[i]).0@ != (#[trigger] lex@[
                            j2]).0@,
                decreases pairs - t,
            {
                proof {
                    assert(2 * t + 1 < line_len) by (nonlinear_arith)
                        requires
                            t < pairs && pairs == line_len / 2,
                    ;
                }
                let tag = crate::pos::parse_tag(&lines[li][2 * t + 1]);
                let tok = &lines[li][2 * t];
                if !lexicon_holds(&lex, tok) {
                    let ghost lex0 = lex@;
                    lex.push((tok.clone(), tag));
                    proof {
                        assert forall|i: int, j2: int|
                            0 <= i < j2 < lex@.len() implies (#[trigger] lex@[i]).0@ != (
                        #[trigger] lex@[j2]).0@ by {
                            if j2 == lex@.len() - 1 {
                                assert(lex@[i] == lex0[i]);
                            }
                        };
                    }
                }
                t += 1;
            }
            li += 1;
        }
        lex
    }

    /// The number of distinct observed items.
    pub fn number_of_type(&self) -> (r: usize)
        ensures
            r == self@.types(),
    {
        self.entries.len()
    }

    /// The ratio of once-seen items to observed types, as an exact pair
    /// (numerator, denominator). The denominator is zero on an empty model.
    pub fn n_one(&self) -> (r: (usize, usize))
        requires
            self@.wf(),
        ensures
            r.0 == self@.n_of(1),
            r.1 == self@.types(),
    {
        let n1: usize = if self.table.len() > 1 {
            self.table[1]
        } else {
            0
        };
        (n1, self.entries.len())
    }

    /// The mean count per observed type, as an exact pair (numerator,
    /// denominator). The denominator is zero on an empty model.
    pub fn ave_occurrence_count(&self) -> (r: (usize, usize))
        ensures
            r.0 == self@.total,
            r.1 == self@.types(),
    {
        (self.total, self.entries.len())
    }

    /// The item with the highest count, with its count; the earliest
    /// observed wins ties. `None` on an empty model.
    pub fn most_frequent_word(&self) -> (r: Option<(Vec<String>, usize)>)
        requires
            self@.wf(),
        ensures
            match r {
                Some(p) => {
                    &&& self@.entries.len() > 0
                    &&& has_key(self@.entries, p.0.deep_view())
                    &&& self@.count_of(p.0.deep_view()) == p.1
                    &&& forall|j: int|
                        0 <= j < self@.entries.len() ==> (#[trigger] self@.entries[j]).1 <= p.1
                },
                None => self@.entries.len() == 0,
            },
    {
        let n = self.entries.len();
        if n == 0 {
            return None;
        }
        let mut bi: usize = 0;
        let mut bc: usize = self.entries[0].1;
        let mut i: usize = 1;
        while i < n
            invariant
                1 <= i <= n,
                bi < i,
                n == self.entries@.len(),
                bc as nat == self@.entries[bi as int].1,
                forall|j: int| 0 <= j < i ==> (#[trigger] self@.entries[j]).1 <= bc,
            decreases n - i,
        {
            let c = self.entries[i].1;
            if c > bc {
                bi = i;
                bc = c;
            }
            i += 1;
        }
        let word = self.entries[bi].0.clone();
        proof {
            assert(word@.len() == self.entries@[bi as int].0@.len());
            assert forall|j: int| 0 <= j < word@.len() implies word@[j]@ == self.entries@[
                bi as int].0@[j]@ by {
                assert(cloned::<String>(self.entries@[bi as int].0@[j], word@[j]));
            };
            assert(word.deep_view() =~= self@.entries[bi as int].0);
            lemma_count_at_index_distinct(self@.entries, bi as int);
            lemma_key_at_index(self@.entries, bi as int);
        }
        Some((word, bc))
    }

    /// The count recorded for an item, zero when never observed.
    pub(crate) fn count_lookup(&self, item: &Vec<String>) -> (r: usize)
        ensures
            r == self@.count_of(item.deep_view()),
    {
        match self.find_index(item) {
            Some(i) => {
                proof {
                    lemma_count_at_first_match(self@.entries, item.deep_view(), i as int);
                }
                self.entries[i].1
            },
            None => {
                proof {
                    lemma_count_absent(self@.entries, item.deep_view());
                }
                0
            },
        }
    }

    /// The frequency-of-frequencies read at a count value.
    pub(crate) fn n_at(&self, r: usize) -> (out: usize)
        requires
            self@.wf(),
        ensures
            out == self@.n_of(r as nat),
    {
        if r == 0 {
            let types = self.entries.len();
            if types <= self.vocab_bound {
                self.vocab_bound - types
            } else {
                0
            }
        } else if r < self.table.len() {
            self.table[r]
        } else {
            0
        }
    }

    /// The frequency-of-frequencies read one past a count value.
    pub(crate) fn n_after(&self, r: usize) -> (out: usize)
        requires
            self@.wf(),
        ensures
            out == self@.n_of(r as nat + 1),
    {
        let tl = self.table.len();
        if r < usize::MAX && r + 1 < tl {
            self.table[r + 1]
        } else {
            proof {
                assert(self@.table.len() == tl);
            }
            0
        }
    }

    /// The raw maximum-likelihood probability of an item: its count over the
    /// total, exactly.
    pub fn prob_ml(&self, item: &Vec<String>) -> (r: Result<Prob, Error>)
        requires
            self@.wf(),
        ensures
            match r {
                Ok(p) => {
                    &&& self@.total > 0
                    &&& p.num == self@.count_of(item.deep_view())
                    &&& p.den == self@.total
                },
                Err(e) => e == Error::ModelUntrained && self@.total == 0,
            },
    {
        if self.total == 0 {
            return Err(Error::ModelUntrained);
        }
        let c = self.count_lookup(item);
        Ok(Prob { num: c as u128, den: self.total as u128 })
    }

    /// The Good-Turing smoothed probability of an item, exactly, as the
    /// closed forms `prob_num` and `prob_den` over the model state: the
    /// discounted count `(r+1) * N[r+1] / N[r]` over the total when both
    /// table reads are positive, else the raw count over the total. Asking
    /// an untrained model is an error, never a division by zero.
    pub fn prob_ft(&self, item: &Vec<String>) -> (r: Result<Prob, Error>)
        requires
            self@.wf(),
        ensures
            match r {
                Ok(p) => {
                    &&& self@.total > 0
                    &&& p.num == self@.prob_num(item.deep_view())
                    &&& p.den == self@.prob_den(item.deep_view())
                    &&& p.den > 0
                },
                Err(e) => e == Error::ModelUntrained && self@.total == 0,
            },
    {
        if self.total == 0 {
            return Err(Error::ModelUntrained);
        }
        let c = self.count_lookup(item);
        let nr = self.n_at(c);
        let nr1 = self.n_after(c);
        if nr > 0 {
            proof {
                lemma_mul_bounds_u128(c as nat + 1, nr1 as nat);
            }
            let star_num: u128 = (c as u128 + 1) * (nr1 as u128);
            if star_num == 0 {
                proof {
                    assert(nr1 == 0) by (nonlinear_arith)
                        requires
                            (c as u128 + 1) * (nr1 as u128) == 0 && c as u128 + 1 > 0,
                    ;
                }
                Ok(Prob { num: c as u128, den: self.total as u128 })
            } else {
                proof {
                    assert(nr1 > 0) by (nonlinear_arith)
                        requires
                            (c as u128 + 1) * (nr1 as u128) != 0,
                    ;
                    assert((c as nat + 1) * (nr1 as nat) == star_num as nat);
                    lemma_mul_bounds_u128(nr as nat, self@.total);
                    vstd::arithmetic::mul::lemma_mul_strictly_positive(
                        nr as int,
                        self.total as int,
                    );
                }
                Ok(Prob { num: star_num, den: (nr as u128) * (self.total as u128) })
            }
        } else {
            Ok(Prob { num: c as u128, den: self.total as u128 })
        }
    }
}

/// A probability as an exact ratio of integers: `num / den`. For a trained
/// model the denominator is positive, so the value is finite and
/// non-negative; values serve comparative scoring and are not renormalized
/// to sum to one over the vocabulary.
#[derive(Clone, Copy, Debug, PartialEq, Eq, Structural)]
pub struct Prob {
    pub num: u128,
    pub den: u128,
}

/// Products of two word-sized naturals fit the double-word range.
proof fn lemma_mul_bounds_u128(a: nat, b: nat)
    requires
        a <= 0x1_0000_0000_0000_0000,
        b < 0x1_0000_0000_0000_0000,
    ensures
        a * b < 0x1_0000_0000_0000_0000_0000_0000_0000_0000,
{
    vstd::arithmetic::mul::lemma_mul_upper_bound(
        a as int,
        0x1_0000_0000_0000_0000,
        b as int,
        0xffff_ffff_ffff_ffff,
    );
    assert(0x1_0000_0000_0000_0000 * 0xffff_ffff_ffff_ffff
        < 0x1_0000_0000_0000_0000_0000_0000_0000_0000) by (nonlinear_arith);
}

/// The table cells weighted by their count value, summed below `k`.
pub open spec fn weighted_table_sum(table: Seq<nat>, k: int) -> nat
    decreases k,
{
    if k <= 0 {
        0
    } else {
        weighted_table_sum(table, k - 1) + if 0 <= k - 1 < table.len() {
            table[k - 1] * ((k - 1) as nat)
        } else {
            0
        }
    }
}

/// The per-count tallies weighted by their count value, summed below `k`.
spec fn weighted_tallies(entries: Seq<(Seq<Seq<char>>, nat)>, k: int) -> nat
    decreases k,
{
    if k <= 0 {
        0
    } else {
        weighted_tallies(entries, k - 1) + num_with_count(entries, (k - 1) as nat) * ((k - 1) as nat)
    }
}

/// Appending an entry whose count lies below `k` adds exactly that count to
/// the weighted tallies.
proof fn lemma_weighted_tallies_push(entries: Seq<(Seq<Seq<char>>, nat)>, e: (Seq<Seq<char>>, nat), k: int)
    requires
        e.1 < k,
    ensures
        weighted_tallies(entries.push(e), k) == weighted_tallies(entries, k) + e.1,
    decreases k,
{
    if k > 0 {
        lemma_nwc_push(entries, e, (k - 1) as nat);
        if e.1 == (k - 1) as nat {
            assert forall|c: nat| c < k - 1 implies #[trigger] num_with_count(entries.push(e), c)
                == num_with_count(entries, c) by {
                lemma_nwc_push(entries, e, c);
            };
            lemma_weighted_tallies_same(entries.push(e), entries, k - 1);
            assert((num_with_count(entries, (k - 1) as nat) + 1) * ((k - 1) as nat)
                == num_with_count(entries, (k - 1) as nat) * ((k - 1) as nat) + (k - 1) as nat)
                by (nonlinear_arith);
        } else {
            lemma_weighted_tallies_push(entries, e, k - 1);
        }
    }
}

/// Two entry sequences with the same tallies below `k` have the same
/// weighted tallies below `k`.
proof fn lemma_weighted_tallies_same(a: Seq<(Seq<Seq<char>>, nat)>, b: Seq<(Seq<Seq<char>>, nat)>, k: int)
    requires
        forall|c: nat| c < k ==> #[trigger] num_with_count(a, c) == num_with_count(b, c),
    ensures
        weighted_tallies(a, k) == weighted_tallies(b, k),
    decreases k,
{
    if k > 0 {
        lemma_weighted_tallies_same(a, b, k - 1);
        assert(num_with_count(a, (k - 1) as nat) == num_with_count(b, (k - 1) as nat));
    }
}

/// Tallying and summing count the same observations: when every entry's
/// count lies below `k`, the weighted tallies below `k` equal the sum of
/// counts.
proof fn lemma_weighted_tallies_are_sum(entries: Seq<(Seq<Seq<char>>, nat)>, k: int)
    requires
        forall|i: int| 0 <= i < entries.len() ==> (#[trigger] entries[i]).1 < k,
        k >= 0,
    ensures
        weighted_tallies(entries, k) == sum_counts(entries),
    decreases entries.len(),
{
    if entries.len() == 0 {
        lemma_weighted_tallies_same(entries, entries, k);
        lemma_weighted_tallies_zero(entries, k);
    } else {
        let dl = entries.drop_last();
        assert(entries =~= dl.push(entries.last()));
        assert(entries.last() == entries[entries.len() - 1]);
        assert(forall|i: int| 0 <= i < dl.len() ==> (#[trigger] dl[i]).1 < k);
        lemma_weighted_tallies_are_sum(dl, k);
        lemma_weighted_tallies_push(dl, entries.last(), k);
    }
}

/// The weighted tallies of an empty entry sequence vanish.
proof fn lemma_weighted_tallies_zero(entries: Seq<(Seq<Seq<char>>, nat)>, k: int)
    requires
        entries.len() == 0,
    ensures
        weighted_tallies(entries, k) == 0,
    decreases k,
{
    if k > 0 {
        lemma_weighted_tallies_zero(entries, k - 1);
        assert(num_with_count(entries, (k - 1) as nat) == 0);
        assert((0 as nat) * ((k - 1) as nat) == 0) by (nonlinear_arith);
    }
}

/// In a well-formed model the weighted table matches the weighted tallies
/// cell by cell below the table's length.
proof fn lemma_weighted_table_is_tallies(m: ModelView, k: int)
    requires
        m.wf(),
        k <= m.table.len(),
    ensures
        weighted_table_sum(m.table, k) == weighted_tallies(m.entries, k),
    decreases k,
{
    if k > 0 {
        lemma_weighted_table_is_tallies(m, k - 1);
        if k - 1 >= 1 {
            assert(m.table[k - 1] == num_with_count(m.entries, (k - 1) as nat));
        } else {
            assert(m.table[0] == 0);
            assert(num_with_count(m.entries, 0) * 0 == 0) by (nonlinear_arith);
            assert((0 as nat) * (0 as nat) == 0) by (nonlinear_arith);
        }
    }
}

/// The frequency-of-frequencies bookkeeping law: in any well-formed model
/// the table cells, each weighted by its count value, sum to the running
/// total. (Each cell is a natural, so none is negative.)
pub proof fn lemma_table_weighs_total(m: ModelView)
    requires
        m.wf(),
    ensures
        weighted_table_sum(m.table, m.table.len() as int) == m.total,
{
    lemma_weighted_table_is_tallies(m, m.table.len() as int);
    lemma_weighted_tallies_are_sum(m.entries, m.table.len() as int);
}

/// Every probability of a trained, well-formed model is finite and
/// non-negative: the denominator of the exact ratio is positive (and the
/// numerator is a natural, hence at least zero).
pub proof fn lemma_probability_finite_nonnegative(m: ModelView, key: Seq<Seq<char>>)
    requires
        m.wf(),
        m.total > 0,
    ensures
        m.prob_den(key) > 0,
        m.prob_num(key) >= 0,
{
    let r = m.count_of(key);
    if m.n_of(r) > 0 && m.n_of(r + 1) > 0 {
        vstd::arithmetic::mul::lemma_mul_strictly_positive(m.n_of(r) as int, m.total as int);
    }
}

/// With distinct keys, the entry at any index is what lookup finds.
proof fn lemma_count_at_index_distinct(entries: Seq<(Seq<Seq<char>>, nat)>, i: int)
    requires
        distinct_keys(entries),
        0 <= i < entries.len(),
    ensures
        count_in(entries, entries[i].0) == entries[i].1,
{
    lemma_count_at_first_match(entries, entries[i].0, i);
}

/// When every count is positive, there are no more entries than the sum.
proof fn lemma_len_le_sum(entries: Seq<(Seq<Seq<char>>, nat)>)
    requires
        forall|i: int| 0 <= i < entries.len() ==> (#[trigger] entries[i]).1 >= 1,
    ensures
        entries.len() <= sum_counts(entries),
    decreases entries.len(),
{
    if entries.len() > 0 {
        assert(entries.last() == entries[entries.len() - 1]);
        lemma_len_le_sum(entries.drop_last());
    }
}

/// A tally never exceeds the number of entries.
proof fn lemma_nwc_le_len(entries: Seq<(Seq<Seq<char>>, nat)>, c: nat)
    ensures
        num_with_count(entries, c) <= entries.len(),
    decreases entries.len(),
{
    if entries.len() > 0 {
        lemma_nwc_le_len(entries.drop_last(), c);
    }
}

/// Counts at or beyond every entry's count tally zero. The bound `k` must
/// dominate all entry counts.
proof fn lemma_nwc_absent_above(entries: Seq<(Seq<Seq<char>>, nat)>, k: int, c: nat)
    requires
        forall|i: int| 0 <= i < entries.len() ==> (#[trigger] entries[i]).1 < k,
        c >= k,
    ensures
        num_with_count(entries, c) == 0,
    decreases entries.len(),
{
    if entries.len() > 0 {
        assert(entries.last() == entries[entries.len() - 1]);
        lemma_nwc_absent_above(entries.drop_last(), k, c);
    }
}

/// An entry at some index makes its key present.
proof fn lemma_key_at_index(entries: Seq<(Seq<Seq<char>>, nat)>, i: int)
    requires
        0 <= i < entries.len(),
    ensures
        has_key(entries, entries[i].0),
    decreases entries.len(),
{
    if i > 0 {
        lemma_key_at_index(entries.drop_first(), i - 1);
    }
}

/// No entry's count exceeds the sum of all counts.
proof fn lemma_count_le_sum(entries: Seq<(Seq<Seq<char>>, nat)>, i: int)
    requires
        0 <= i < entries.len(),
    ensures
        entries[i].1 <= sum_counts(entries),
    decreases entries.len(),
{
    if i == entries.len() - 1 {
        assert(entries.last() == entries[i]);
    } else {
        lemma_count_le_sum(entries.drop_last(), i);
    }
}

} // verus!
