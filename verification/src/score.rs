//! Constants that affect the score.
//!
//! Any change here that moves the timings requires raising [`SCORE_VERSION`]. Results are only
//! comparable when they share `score_version`.

use vstd::arithmetic::power2::*;
use vstd::prelude::*;

verus! {

/// Score version. Raised whenever the workload of any module changes.
pub const SCORE_VERSION: u32 = 1;

/// Radical: extra Newton iterations after the sign change.
pub const RADICAL_REFINE_ITERATIONS: u32 = 4;

/// Radical: relative tolerance of the check `x² = k`, as a power of two.
pub const RADICAL_TOLERANCE_EXPONENT: i32 = -50;

/// Radical: numbers per work block of the dynamic split.
pub const RADICAL_CHUNK: u64 = 1_000_000;

/// Pi: guard limbs carried beyond the requested digits.
pub const PI_GUARD_LIMBS: usize = 4;

/// Zeta: bytes per sieve segment (each byte covers 30 numbers); the size of an L1 data cache.
pub const ZETA_SEGMENT_BYTES: usize = 32_768;

/// Zeta: segments per work block of the dynamic queue.
pub const ZETA_CHUNK_SEGMENTS: u64 = 16;

/// Gauss–Legendre loops for `digits` decimals: each loop doubles the correct digits, so the
/// count is the least `L ≥ 1` with `digits ≤ 2^(L+1)`.
pub open spec fn loops_for(digits: u64, loops: nat) -> bool {
    &&& loops >= 1
    &&& digits <= pow2(loops + 1)
    &&& (loops == 1 || digits > pow2(loops))
}

/// Number of Gauss–Legendre loops for `digits` decimals, as SuperPi (19 loops for 1M).
pub fn pi_loops(digits: u64) -> (r: u32)
    ensures
        loops_for(digits, r as nat),
{
    let mut loops: u32 = 1;
    let mut power: u128 = 4;
    proof {
        lemma2_to64();
    }
    while power < digits as u128
        invariant
            1 <= loops <= 63,
            power == pow2(loops as nat + 1),
            loops == 1 || digits > pow2(loops as nat),
        decreases 64 - loops,
    {
        proof {
            lemma_pow2_adds(loops as nat + 1, 1);
            lemma2_to64();
            if loops >= 63 {
                lemma_pow2_strictly_increases(64, loops as nat + 1);
                lemma2_to64_rest();
            }
        }
        loops += 1;
        power = power * 2;
    }
    loops
}

} // verus!
