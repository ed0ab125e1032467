//! Pseudo-random draws for the jitter impulses and color texture.
//!
//! The engine itself is deterministic: every tick runs from one generator
//! seeded at the start of the tick (and re-derived per chunk, so chunks
//! stay order-independent).  Where fresh entropy is wanted, the seed is
//! drawn once per tick from the `rand` crate.

use vstd::prelude::*;

verus! {

/// Modulus of 64-bit wrapping arithmetic.
pub const WRAP64: u128 = 0x1_0000_0000_0000_0000;

/// 64-bit product modulo 2^64.
pub fn wmul(a: u64, b: u64) -> (r: u64)
    ensures
        r == (a * b) % (WRAP64 as int),
{
    assert(a * b <= 0xffff_ffff_ffff_ffff * 0xffff_ffff_ffff_ffff) by (nonlinear_arith)
        requires
            0 <= a <= 0xffff_ffff_ffff_ffff,
            0 <= b <= 0xffff_ffff_ffff_ffff,
    ;
    (((a as u128) * (b as u128)) % WRAP64) as u64
}

/// 64-bit sum modulo 2^64.
pub fn wadd(a: u64, b: u64) -> (r: u64)
    ensures
        r == (a + b) % (WRAP64 as int),
{
    (((a as u128) + (b as u128)) % WRAP64) as u64
}

/// A small deterministic generator (an xor-shift-multiply mixer over a
/// 64-bit counter).  One is seeded per tick; its draws decide jitter and
/// color texture.
pub struct SimRng {
    state: u64,
}

impl SimRng {
    pub fn seeded(seed: u64) -> (r: SimRng) {
        SimRng { state: seed }
    }

    /// The generator for one chunk's worker: derived from the tick seed and
    /// the chunk id alone, so chunks can run in any order or in parallel.
    pub fn for_chunk(seed: u64, id: u64) -> (r: SimRng) {
        let offset = wmul(wadd(id, 1), 0x9e37_79b9_7f4a_7c15);
        SimRng { state: wadd(seed, offset) }
    }

    pub fn next_u64(&mut self) -> (r: u64) {
        self.state = wadd(self.state, 0x9e37_79b9_7f4a_7c15);
        let mut z = self.state;
        z = wmul(z ^ (z >> 30), 0xbf58_476d_1ce4_e5b9);
        z = wmul(z ^ (z >> 27), 0x94d0_49bb_1331_11eb);
        z ^ (z >> 31)
    }

    /// A draw below `n`.
    pub fn below(&mut self, n: u64) -> (r: u64)
        requires
            n > 0,
        ensures
            r < n,
    {
        let x = self.next_u64();
        x % n
    }

    /// A draw from `[lo, hi)`; an empty interval yields `lo` (so a zero
    /// gravity constant yields a zero impulse rather than a fault).
    pub fn range_i64(&mut self, lo: i64, hi: i64) -> (r: i64)
        requires
            -1_000_000_000_000 <= lo <= 1_000_000_000_000,
            -1_000_000_000_000 <= hi <= 1_000_000_000_000,
        ensures
            lo < hi ==> lo <= r < hi,
            hi <= lo ==> r == lo,
    {
        if hi <= lo {
            lo
        } else {
            let span = (hi - lo) as u64;
            let d = self.below(span);
            lo + (d as i64)
        }
    }
}

/// Relies on `rand::random`: a fresh value from rand's thread-local
/// generator.  Nothing is promised of a random value.
#[verifier::external_body]
pub(crate) fn random_seed() -> u64 {
    rand::random::<u64>()
}

} // verus!
