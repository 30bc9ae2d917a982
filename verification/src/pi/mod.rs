//! Pi module: decimal digits of Pi by Gauss–Legendre with FFT multiplication, as SuperPi.
//!
//! The default behaviour is SuperPi's: one thread, the classic sizes (16K–32M) and the time of
//! each loop. Multi mode runs independent instances of the same computation, one per thread
//! (the "SuperPi ×N" of overclockers). This part holds what decides about a run: the memory it
//! needs and the verdict on the digests of its instances.

pub mod reference;

use vstd::prelude::*;

use crate::config::{Module, RunConfig, Mode, resolved_threads};
use crate::pi::reference::{reference_table, sha256_for};
use crate::result::{VerificationStatus, Verdict};
use crate::score::PI_GUARD_LIMBS;
use crate::sysinfo::SystemInfo;
use crate::text::{decimal, push_decimal, push_str};

verus! {

/// The Pi module.
#[derive(Clone, Copy, Debug, Default)]
pub struct Pi;

/// The least power of two that is at least `n`.
pub open spec fn next_pow2(n: int, p: int) -> bool {
    &&& p >= 1
    &&& p >= n
    &&& exists|k: nat| p == vstd::arithmetic::power2::pow2(k)
    &&& (p == 1 || p / 2 < n)
}

/// Smallest power of two greater than or equal to `n`.
fn next_power_of_two(n: u64) -> (r: u64)
    requires
        n <= 0x8000_0000_0000_0000,
    ensures
        next_pow2(n as int, r as int),
{
    let mut p: u64 = 1;
    let ghost mut k: nat = 0;
    proof {
        vstd::arithmetic::power2::lemma2_to64();
    }
    while p < n
        invariant
            1 <= p <= 0x8000_0000_0000_0000,
            p == vstd::arithmetic::power2::pow2(k),
            k <= 63,
            p == 1 || p / 2 < n,
            n <= 0x8000_0000_0000_0000,
        decreases 63 - k,
    {
        proof {
            vstd::arithmetic::power2::lemma2_to64();
            vstd::arithmetic::power2::lemma2_to64_rest();
            vstd::arithmetic::power2::lemma_pow2_adds(k, 1);
            if k + 1 < 63 {
                vstd::arithmetic::power2::lemma_pow2_strictly_increases(k + 1, 63);
            }
        }
        p = p * 2;
        proof {
            k = k + 1;
        }
    }
    p
}

/// Limbs of the working numbers for `digits` decimals: four digits each, one for the integer
/// part and the guard limbs.
pub open spec fn pi_limbs(digits: u64) -> int {
    digits / 4 + 1 + PI_GUARD_LIMBS
}

/// Estimated memory of one instance for `digits` decimals: the complex buffer and the table of
/// twiddles (16 bytes per point each) plus the working numbers of the AGM and of Newton,
/// calibrated on the measured resident size (67 MB at 1M, 263 MB at 4M, 1.8 GB at 32M).
pub fn memory_per_instance(digits: u64) -> (r: u64)
    requires
        digits <= 0x0100_0000_0000_0000,
    ensures
        exists|points: int|
            #![trigger next_pow2(2 * pi_limbs(digits), points)]
            next_pow2(2 * pi_limbs(digits), points) && r == points * 32 + pi_limbs(digits) * 100,
{
    let limbs = digits / 4 + 1 + PI_GUARD_LIMBS as u64;
    let fft_points = next_power_of_two(2 * limbs);
    proof {
        assert(limbs == pi_limbs(digits));
        assert(fft_points <= 4 * limbs + 1);
        assert(next_pow2(2 * pi_limbs(digits), fft_points as int));
    }
    fft_points * 32 + limbs * 100
}

impl Pi {
    /// Module it implements.
    pub fn module(&self) -> (r: Module)
        ensures
            r == Module::Pi,
    {
        Module::Pi
    }

    /// Estimated memory of a run: one instance per thread (saturated at `u64::MAX`).
    pub fn memory_required(&self, config: &RunConfig, system: &SystemInfo) -> (r: u64)
        requires
            config.size.value <= 0x0100_0000_0000_0000,
        ensures
            ({
                let instances = if config.mode == Mode::Single {
                    1
                } else {
                    resolved_threads(config.threads, system.logical_cpus, system.physical_cores)
                        as int
                };
                exists|one: int|
                    #![trigger next_pow2(2 * pi_limbs(config.size.value), one)]
                    next_pow2(2 * pi_limbs(config.size.value), one) && r == if (one * 32 + pi_limbs(
                        config.size.value,
                    ) * 100) * instances > u64::MAX {
                        u64::MAX as int
                    } else {
                        (one * 32 + pi_limbs(config.size.value) * 100) * instances
                    }
            }),
    {
        let instances = config.resolve_threads(system.logical_cpus, system.physical_cores) as u64;
        let one = memory_per_instance(config.size.value);
        match one.checked_mul(instances) {
            Some(m) => m,
            None => u64::MAX,
        }
    }
}

/// Detail when some instances disagree with the reference.
pub open spec fn mismatch_detail(mismatches: nat, instances: nat) -> Seq<char> {
    decimal(mismatches) + " de "@ + decimal(instances)
        + " instancias no coinciden con los dígitos de referencia"@
}

/// Detail when there is no reference for the size.
pub open spec fn unreferenced_detail() -> Seq<char> {
    "no hay dígitos de referencia embebidos para este tamaño"@
}

/// Number of digests among the first `k` that differ from `expected`.
pub open spec fn mismatches(digests: Seq<String>, expected: Seq<char>, k: int) -> nat
    decreases k,
{
    if k <= 0 {
        0
    } else {
        mismatches(digests, expected, k - 1) + if digests[k - 1]@ != expected {
            1nat
        } else {
            0nat
        }
    }
}

/// The expected digest for `digits` decimals, if the table has one.
pub open spec fn expected_digest(digits: u64) -> Option<Seq<char>> {
    if exists|i: int| 0 <= i < reference_table().len() && reference_table()[i].1 == digits {
        let i = choose|i: int| 0 <= i < reference_table().len() && reference_table()[i].1 == digits;
        Some(reference_table()[i].2)
    } else {
        None
    }
}

/// The sizes of the table are all different.
proof fn lemma_table_sizes_distinct()
    ensures
        forall|i: int, j: int|
            0 <= i < reference_table().len() && 0 <= j < reference_table().len()
                && #[trigger] reference_table()[i].1 == #[trigger] reference_table()[j].1 ==> i
                == j,
{
}

/// Verdict of a Pi run on the digests of its instances (SHA-256 of their decimals): every
/// digest must be the reference one. `fft_failure` is the explanation when the rounding error
/// of the FFT went past its limit; such a run fails whatever its digits.
pub fn verify(digests: &Vec<String>, digits: u64, fft_failure: Option<String>) -> (r: Verdict)
    requires
        digests@.len() < u64::MAX,
    ensures
        digests@.len() > 0 ==> (r.digest matches Some(d) && d@ == digests@[0]@),
        digests@.len() == 0 ==> r.digest is None,
        ({
            let base_errors = match expected_digest(digits) {
                Some(e) => mismatches(digests@, e, digests@.len() as int) as int,
                None => 0int,
            };
            match fft_failure {
                Some(f) => r.status == VerificationStatus::Failed && r.errors == base_errors + 1
                    && (r.detail matches Some(t) && t@ == f@),
                None => match expected_digest(digits) {
                    Some(e) => if base_errors > 0 {
                        r.status == VerificationStatus::Failed && r.errors == base_errors
                            && (r.detail matches Some(t) && t@ == mismatch_detail(
                            base_errors as nat,
                            digests@.len(),
                        ))
                    } else {
                        r.status == VerificationStatus::Passed && r.errors == 0 && r.detail is None
                    },
                    None => r.status == VerificationStatus::Unverified && r.errors == 0
                        && (r.detail matches Some(t) && t@ == unreferenced_detail()),
                },
            }
        }),
{
    let digest = if digests.len() > 0 {
        Some(digests[0].clone())
    } else {
        None
    };
    let mut status = VerificationStatus::Passed;
    let mut errors: u64 = 0;
    let mut detail: Option<String> = None;
    proof {
        lemma_table_sizes_distinct();
    }
    match sha256_for(digits) {
        Some(expected) => {
            proof {
                let i = choose|i: int|
                    0 <= i < reference_table().len() && reference_table()[i].1 == digits && expected@
                        == reference_table()[i].2;
                assert(expected_digest(digits) == Some(expected@));
            }
            let mut count: u64 = 0;
            let mut k: usize = 0;
            while k < digests.len()
                invariant
                    k <= digests@.len(),
                    digests@.len() < u64::MAX,
                    count == mismatches(digests@, expected@, k as int),
                    count <= k,
                decreases digests@.len() - k,
            {
                if digests[k] != expected {
                    count += 1;
                }
                k += 1;
            }
            if count > 0 {
                status = VerificationStatus::Failed;
                errors = count;
                let mut t = String::new();
                push_decimal(&mut t, count);
                push_str(&mut t, " de ");
                push_decimal(&mut t, digests.len() as u64);
                push_str(&mut t, " instancias no coinciden con los dígitos de referencia");
                proof {
                    assert(t@ =~= mismatch_detail(count as nat, digests@.len()));
                }
                detail = Some(t);
            }
        },
        None => {
            status = VerificationStatus::Unverified;
            detail = Some(String::from_str("no hay dígitos de referencia embebidos para este tamaño"));
            proof {
                assert(expected_digest(digits) is None);
            }
        },
    }
    match fft_failure {
        Some(f) => {
            status = VerificationStatus::Failed;
            errors = errors + 1;
            detail = Some(f);
        },
        None => {},
    }
    Verdict { status, errors, digest, detail }
}

} // verus!
