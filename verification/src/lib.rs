//! A corpus-driven sequence mixer.
//!
//! The library builds smoothed token or bigram frequency statistics from a
//! corpus (Good-Turing smoothing over a frequency-of-frequencies table),
//! ranks token sequences by perplexity under those statistics, and merges
//! several independently ordered token sequences into one low-perplexity
//! combined sequence by a randomized, budget-bounded search.

use vstd::prelude::*;

pub mod bignat;
pub mod clock;
pub mod model;
pub mod perplexity;
pub mod pos;
pub mod rng;
pub mod synth;

verus! {

/// The failure taxonomy of the library.
///
/// Everything but `CorpusUnreadable` and `ModelUntrained` is recoverable at
/// the request boundary; those two block serving until a model is built.
#[derive(Clone, Copy, Debug, PartialEq, Eq, Structural)]
pub enum Error {
    /// The corpus source could not be read; the model cannot serve without it.
    CorpusUnreadable,
    /// A probability or perplexity was queried before a successful build.
    ModelUntrained,
    /// Entropy was requested over a sequence with no scoring window.
    EmptyWindow,
    /// Zero input sequences were handed to the synthesizer.
    NothingToMix,
    /// An input sequence is shorter than its required minimum coverage.
    InvalidCoverageConfig,
    /// The search budget elapsed with no completed candidate.
    NoCandidateFound,
}

} // verus!
