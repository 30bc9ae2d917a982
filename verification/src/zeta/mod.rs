//! Zeta module: counts the primes up to N with a segmented sieve of Eratosthenes.
//!
//! It is GugolPi's own module: it measures integer work, L1/L2 caches and branch prediction,
//! and is verified against π(N) and the sum of the primes up to N.

pub mod primes;
pub mod reference;
pub mod segment;
pub mod sieve;
pub mod wheel;

use vstd::prelude::*;

use crate::config::Module;
use crate::result::{VerificationStatus, Verdict};
use crate::score::ZETA_CHUNK_SEGMENTS;
use crate::zeta::sieve::SEGMENT_NUMBERS;
use crate::text::{decimal, hex16, hex16_text, push_decimal, push_str};
use crate::zeta::reference::{entry_for, entry_is_row, reference_table};

verus! {

/// Totals of a stretch: how many primes, and their sum modulo 2^64.
#[derive(Clone, Copy, Debug, Default, PartialEq, Eq, Structural)]
pub struct SieveTotals {
    /// Primes found.
    pub count: u64,
    /// Sum of those primes modulo 2^64.
    pub sum_mod_2_64: u64,
}

/// The totals of two disjoint stretches together.
pub open spec fn merged(a: SieveTotals, b: SieveTotals) -> SieveTotals {
    SieveTotals {
        count: (a.count + b.count) as u64,
        sum_mod_2_64: ((a.sum_mod_2_64 + b.sum_mod_2_64) % 0x1_0000_0000_0000_0000) as u64,
    }
}

/// Merging does not depend on the order of the stretches nor on how they are grouped, so the
/// totals of a run do not depend on how its range was shared among threads.
pub proof fn lemma_merge_order_free(a: SieveTotals, b: SieveTotals, c: SieveTotals)
    requires
        a.count + b.count + c.count <= u64::MAX,
    ensures
        merged(a, b) == merged(b, a),
        merged(merged(a, b), c) == merged(a, merged(b, c)),
{
    let m: int = 0x1_0000_0000_0000_0000;
    vstd::arithmetic::div_mod::lemma_add_mod_noop(a.sum_mod_2_64 + b.sum_mod_2_64, c.sum_mod_2_64 as int, m);
    vstd::arithmetic::div_mod::lemma_add_mod_noop(a.sum_mod_2_64 as int, b.sum_mod_2_64 + c.sum_mod_2_64, m);
    vstd::arithmetic::div_mod::lemma_mod_twice(a.sum_mod_2_64 + b.sum_mod_2_64, m);
    vstd::arithmetic::div_mod::lemma_mod_twice(b.sum_mod_2_64 + c.sum_mod_2_64, m);
    vstd::arithmetic::div_mod::lemma_small_mod(c.sum_mod_2_64 as nat, m as nat);
    vstd::arithmetic::div_mod::lemma_small_mod(a.sum_mod_2_64 as nat, m as nat);
}

impl SieveTotals {
    /// Sum of two disjoint stretches.
    pub fn merge(self, other: Self) -> (r: Self)
        requires
            self.count + other.count <= u64::MAX,
        ensures
            r == merged(self, other),
            r.count == self.count + other.count,
            r.sum_mod_2_64 == (self.sum_mod_2_64 + other.sum_mod_2_64) % 0x1_0000_0000_0000_0000,
    {
        SieveTotals {
            count: self.count + other.count,
            sum_mod_2_64: self.sum_mod_2_64.wrapping_add(other.sum_mod_2_64),
        }
    }
}

/// Detail when the totals disagree with the reference.
pub open spec fn mismatch_detail(totals: SieveTotals, count: u64, hex: Seq<char>) -> Seq<char> {
    "π(N) = "@ + decimal(totals.count as nat) + " (esperado "@ + decimal(count as nat)
        + "), suma mod 2^64 = "@ + hex16(totals.sum_mod_2_64) + " (esperada "@ + hex + ")"@
}

/// Detail when there is no reference for N.
pub open spec fn unreferenced_detail(totals: SieveTotals) -> Seq<char> {
    "π(N) = "@ + decimal(totals.count as nat) + "; no hay referencia embebida para este N"@
}

/// Verdict of a Zeta run up to `limit`: the count and the sum are checked against the table
/// when it has an entry for `limit`; otherwise the run is unverified.
pub fn verify(totals: SieveTotals, limit: u64) -> (r: Verdict)
    ensures
        r.digest matches Some(d) && d@ == hex16(totals.sum_mod_2_64),
        (forall|i: int| 0 <= i < reference_table().len() ==> reference_table()[i].0 != limit) ==> (
        r.detail matches Some(t) && t@ == unreferenced_detail(totals)
            && r.status == VerificationStatus::Unverified && r.errors == 0),
        forall|i: int|
            0 <= i < reference_table().len() && #[trigger] reference_table()[i].0 == limit ==> {
                let count_ok = reference_table()[i].1 == totals.count;
                let sum_ok = reference_table()[i].3 == hex16(totals.sum_mod_2_64);
                &&& (count_ok && sum_ok) ==> r.status == VerificationStatus::Passed && r.errors == 0
                    && r.detail is None
                &&& !(count_ok && sum_ok) ==> r.status == VerificationStatus::Failed && r.errors == (
                if count_ok {
                    0int
                } else {
                    1int
                }) + (if sum_ok {
                    0int
                } else {
                    1int
                })
                &&& !(count_ok && sum_ok) ==> (r.detail matches Some(t) && t@ == mismatch_detail(
                    totals,
                    reference_table()[i].1,
                    reference_table()[i].3,
                ))
            },
{
    let hex = hex16_text(totals.sum_mod_2_64);
    match entry_for(limit) {
        Some(expected) => {
            let ghost row = choose|i: int| entry_is_row(expected, i);
            proof {
                assert(forall|i: int|
                    0 <= i < reference_table().len() && #[trigger] reference_table()[i].0 == limit
                        ==> i == row);
            }
            let count_ok = expected.prime_count == totals.count;
            let sum_ok = expected.prime_sum_mod_2_64 == hex;
            if count_ok && sum_ok {
                Verdict {
                    status: VerificationStatus::Passed,
                    errors: 0,
                    digest: Some(hex),
                    detail: None,
                }
            } else {
                let errors: u64 = (if count_ok {
                    0
                } else {
                    1
                }) + (if sum_ok {
                    0
                } else {
                    1
                });
                let mut t = String::new();
                push_str(&mut t, "π(N) = ");
                push_decimal(&mut t, totals.count);
                push_str(&mut t, " (esperado ");
                push_decimal(&mut t, expected.prime_count);
                push_str(&mut t, "), suma mod 2^64 = ");
                push_str(&mut t, hex.as_str());
                push_str(&mut t, " (esperada ");
                push_str(&mut t, expected.prime_sum_mod_2_64.as_str());
                push_str(&mut t, ")");
                proof {
                    assert(t@ =~= mismatch_detail(
                        totals,
                        reference_table()[row].1,
                        reference_table()[row].3,
                    ));
                }
                Verdict { status: VerificationStatus::Failed, errors, digest: Some(hex), detail: Some(t) }
            }
        },
        None => {
            let mut t = String::new();
            push_str(&mut t, "π(N) = ");
            push_decimal(&mut t, totals.count);
            push_str(&mut t, "; no hay referencia embebida para este N");
            proof {
                assert(t@ =~= unreferenced_detail(totals));
            }
            Verdict {
                status: VerificationStatus::Unverified,
                errors: 0,
                digest: Some(hex),
                detail: Some(t),
            }
        },
    }
}

/// Numbers in a block of the dynamic queue.
pub const CHUNK_NUMBERS: u64 = 15_728_640;

/// The stretch `[low, high]` of block `index` of the queue up to `limit`, or `None` once the
/// blocks have passed the limit.
pub fn chunk_range(index: u64, limit: u64) -> (r: Option<(u64, u64)>)
    ensures
        index * CHUNK_NUMBERS > limit <==> r is None,
        r matches Some((low, high)) ==> {
            &&& low == index * CHUNK_NUMBERS
            &&& high == if low + CHUNK_NUMBERS - 1 < limit {
                low + CHUNK_NUMBERS - 1
            } else {
                limit as int
            }
        },
{
    proof {
        assert(CHUNK_NUMBERS == ZETA_CHUNK_SEGMENTS * SEGMENT_NUMBERS);
    }
    let low = match index.checked_mul(CHUNK_NUMBERS) {
        Some(low) => low,
        None => {
            return None;
        },
    };
    if low > limit {
        return None;
    }
    let end = low.saturating_add(CHUNK_NUMBERS - 1);
    let high = if end < limit {
        end
    } else {
        limit
    };
    Some((low, high))
}

/// The blocks tile `[0, limit]`: block `index + 1` starts right after block `index` ends, and
/// every block starts on a multiple of 30, as the sieve asks.
pub proof fn lemma_chunks_tile(index: u64, limit: u64)
    requires
        (index + 1) * CHUNK_NUMBERS <= limit,
    ensures
        (index * CHUNK_NUMBERS) % 30 == 0,
        index * CHUNK_NUMBERS + CHUNK_NUMBERS - 1 < limit,
        (index + 1) * CHUNK_NUMBERS == index * CHUNK_NUMBERS + CHUNK_NUMBERS,
{
    assert((index + 1) * CHUNK_NUMBERS == index * CHUNK_NUMBERS + CHUNK_NUMBERS) by (nonlinear_arith);
    assert(index * CHUNK_NUMBERS == 30 * (index * 524_288)) by (nonlinear_arith);
    vstd::arithmetic::div_mod::lemma_mod_multiples_basic(index * 524_288, 30);
}

/// Memory a Zeta run needs when its sieving primes go up to `root`, the square root of the
/// limit: about 48 bytes per sieving prime, and one segment per thread.
pub fn sieve_memory(root: u64) -> (r: u64)
    requires
        root <= 0x1_0000_0000,
    ensures
        r == (root / 8 + 16) * 48 + 64 * 1024 * 64 + 16 * 1024 * 1024,
{
    let sieving_primes = root / 8 + 16;
    proof {
        assert((16u64 << 20u64) == 16_777_216u64) by (bit_vector);
    }
    sieving_primes * 48 + 64 * 1024 * 64 + (16 << 20)
}

/// The Zeta module.
#[derive(Clone, Copy, Debug, Default)]
pub struct Zeta;

impl Zeta {
    /// Module it implements.
    pub fn module(&self) -> (r: Module)
        ensures
            r == Module::Zeta,
    {
        Module::Zeta
    }

    /// Estimated memory of a run. `size_root` is the square root of the size, truncated, as the
    /// run takes it in floating point (at most 2^32 for a 64-bit size).
    pub fn memory_required(&self, size_root: u64) -> (r: u64)
        requires
            size_root <= 0x1_0000_0000,
        ensures
            r == (size_root / 8 + 16) * 48 + 64 * 1024 * 64 + 16 * 1024 * 1024,
    {
        sieve_memory(size_root)
    }
}

} // verus!
