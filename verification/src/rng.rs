//! The library's injectable random source.
//!
//! A multiplicative congruential generator with 128-bit state and an
//! "xorshift low, random rotation" 64-bit output — the fast multiplicative
//! member of the permuted congruential generator family. Its whole behaviour
//! is the three lines of `step_of` and `output_of`, so it is implemented and
//! verified here instead of being taken on trust; a test holds its stream
//! against an independent implementation of the same generator.
//!
//! The synthesizer draws every random choice from a value of this type, so a
//! caller that seeds two runs identically gets identical draws.

use vstd::prelude::*;

verus! {

/// The multiplier of the permuted congruential generator family for 128-bit
/// state.
pub const PCG_MULTIPLIER: u128 = 0x2360_ED05_1FC6_5DA4_4385_DF64_9FCC_F645;

/// One multiplicative state step, modulo 2^128.
pub open spec fn step_of(s: u128) -> u128 {
    ((s as nat * PCG_MULTIPLIER as nat) % 0x1_0000_0000_0000_0000_0000_0000_0000_0000nat) as u128
}

/// Rotate a 64-bit word right by `r` places, `r < 64`.
pub open spec fn rotate_right_64(x: u64, r: u64) -> u64 {
    if r == 0 {
        x
    } else {
        (x >> r) | (x << ((64 - r) as u64))
    }
}

/// The 64-bit output drawn from a 128-bit state: xor of the two state halves,
/// rotated by the top six state bits.
pub open spec fn output_of(s: u128) -> u64 {
    rotate_right_64(((s >> 64u128) as u64) ^ (s as u64), (s >> 122u128) as u64)
}

/// A seeded pseudo-random generator; the same seed always yields the same
/// stream of draws.
pub struct SeededRng {
    state: u128,
}

impl View for SeededRng {
    type V = u128;

    closed spec fn view(&self) -> u128 {
        self.state
    }
}

impl SeededRng {
    /// Start a stream from a seed. The low state bit is forced to one, as a
    /// multiplicative congruential state must be odd.
    pub fn new(seed: u128) -> (r: SeededRng)
        ensures
            r@ == seed | 1,
    {
        SeededRng { state: seed | 1 }
    }

    /// Advance the state once and emit the next 64-bit word of the stream.
    pub fn next_u64(&mut self) -> (r: u64)
        ensures
            final(self)@ == step_of(old(self)@),
            r == output_of(final(self)@),
    {
        self.state = self.state.wrapping_mul(PCG_MULTIPLIER);
        let s = self.state;
        let rot: u64 = #[verifier::truncate] ((s >> 122u128) as u64);
        let xsl: u64 = (#[verifier::truncate] ((s >> 64u128) as u64)) ^ (#[verifier::truncate] (s as u64));
        proof {
            assert(((s >> 122u128) as u64) < 64u64) by (bit_vector);
        }
        if rot == 0 {
            xsl
        } else {
            (xsl >> rot) | (xsl << (64 - rot))
        }
    }

    /// Draw a value uniformly-by-residue below `n`.
    pub fn below(&mut self, n: u64) -> (r: u64)
        requires
            n > 0,
        ensures
            final(self)@ == step_of(old(self)@),
            r == output_of(final(self)@) % n,
            r < n,
    {
        let w = self.next_u64();
        w % n
    }
}

} // verus!
