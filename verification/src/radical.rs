//! Radical module: square roots of 1..N by Newton–Raphson, as wPrime.
//!
//! The floating-point iteration itself runs outside the verified core; what is verified here is
//! how `[1, N]` is split among threads (the dynamic queue of blocks and the static contiguous
//! ranges), how per-thread totals merge, and the verdict drawn from them.

use vstd::prelude::*;

use crate::config::{Module, RunConfig};
use crate::result::{VerificationStatus, Verdict};
use crate::score::RADICAL_CHUNK;
use crate::text::{decimal, hex16, hex16_text, push_decimal, push_str};

verus! {

/// Block `index` of the dynamic split of `[1, n]` into blocks of [`RADICAL_CHUNK`] numbers.
pub open spec fn chunk_spec(n: u64, index: u64) -> Option<(u64, u64)> {
    let first = index * RADICAL_CHUNK + 1;
    if first <= n {
        let last = if first + RADICAL_CHUNK - 1 <= n {
            first + RADICAL_CHUNK - 1
        } else {
            n as int
        };
        Some((first as u64, last as u64))
    } else {
        None
    }
}

/// Splits `[1, n]` into blocks of [`RADICAL_CHUNK`] and returns the range of block `index`, or
/// `None` when the block starts past `n`.
pub fn chunk_range(n: u64, index: u64) -> (r: Option<(u64, u64)>)
    ensures
        r == chunk_spec(n, index),
{
    let first = match index.checked_mul(RADICAL_CHUNK) {
        Some(x) => match x.checked_add(1) {
            Some(y) => y,
            None => return None,
        },
        None => return None,
    };
    if first > n {
        return None;
    }
    let last = match first.checked_add(RADICAL_CHUNK - 1) {
        Some(x) => if x < n {
            x
        } else {
            n
        },
        None => n,
    };
    Some((first, last))
}

/// Number of blocks of the dynamic split: `⌈n / RADICAL_CHUNK⌉`.
pub fn chunk_count(n: u64) -> (r: u64)
    ensures
        r * RADICAL_CHUNK >= n,
        r == 0 || (r - 1) * RADICAL_CHUNK < n,
{
    let q = n / RADICAL_CHUNK;
    if n % RADICAL_CHUNK == 0 {
        q
    } else {
        q + 1
    }
}

/// The blocks of the dynamic split cover `[1, n]` without gaps or overlaps: block `i` exists
/// exactly when `i < chunk_count(n)`, starts right after block `i − 1` and the last one ends at `n`.
pub proof fn lemma_chunks_cover(n: u64, count: u64, i: u64)
    requires
        count * RADICAL_CHUNK >= n,
        count == 0 || (count - 1) * RADICAL_CHUNK < n,
    ensures
        chunk_spec(n, i) is Some <==> i < count,
        i < count ==> chunk_spec(n, i).unwrap().0 == i * RADICAL_CHUNK + 1,
        i + 1 < count ==> chunk_spec(n, i).unwrap().1 + 1 == chunk_spec(n, (i + 1) as u64).unwrap().0,
        count > 0 && i + 1 == count ==> chunk_spec(n, i).unwrap().1 == n,
{
    if i < count {
        assert(i * RADICAL_CHUNK <= (count - 1) * RADICAL_CHUNK) by (nonlinear_arith)
            requires
                i <= count - 1,
        ;
    } else {
        assert(i * RADICAL_CHUNK >= count * RADICAL_CHUNK) by (nonlinear_arith)
            requires
                i >= count,
        ;
    }
    if i + 1 < count {
        assert((i + 1) * RADICAL_CHUNK <= (count - 1) * RADICAL_CHUNK) by (nonlinear_arith)
            requires
                i + 1 <= count - 1,
        ;
    }
}

/// Contiguous range of thread `i` of `threads` over `[1, n]` (static split).
pub fn static_range(n: u64, i: usize, threads: usize) -> (r: (u64, u64))
    requires
        i < threads,
        n * threads <= u64::MAX,
    ensures
        r.0 == n * i / (threads as int) + 1,
        r.1 == n * (i + 1) / (threads as int),
{
    let t = threads as u64;
    let k = i as u64;
    proof {
        assert(n * k <= n * t) by (nonlinear_arith)
            requires
                k < t,
        ;
        assert(n * (k + 1) <= n * t) by (nonlinear_arith)
            requires
                k + 1 <= t,
        ;
    }
    proof {
        if n > 0 {
            let a = n * k;
            assert(a <= n * t - n) by (nonlinear_arith)
                requires
                    a == n * k,
                    k + 1 <= t,
            ;
            vstd::arithmetic::div_mod::lemma_div_is_ordered(a, n * t - 1, t as int);
            vstd::arithmetic::div_mod::lemma_fundamental_div_mod(n * t - 1, t as int);
            assert((n * t - 1) / (t as int) < n) by (nonlinear_arith)
                requires
                    t >= 1,
                    n >= 1,
                    n * t - 1 == t * ((n * t - 1) / (t as int)) + (n * t - 1) % (t as int),
                    0 <= (n * t - 1) % (t as int),
            ;
        }
    }
    let first = n * k / t + 1;
    let last = n * (k + 1) / t;
    (first, last)
}

/// The static ranges partition `[1, n]`: the first starts at 1, each starts right after the
/// previous one ends, and the last ends at `n`.
pub proof fn lemma_static_ranges_partition(n: u64, threads: usize, i: usize)
    requires
        threads >= 1,
        i < threads,
    ensures
        i == 0 ==> n * i / (threads as int) + 1 == 1,
        i + 1 == threads ==> n * (i + 1) / (threads as int) == n,
        n * i / (threads as int) <= n * (i + 1) / (threads as int),
{
    if i + 1 == threads {
        assert(n * (i + 1) / (threads as int) == n) by (nonlinear_arith)
            requires
                i + 1 == threads,
                threads >= 1,
        ;
    }
    assert(n * i <= n * (i + 1)) by (nonlinear_arith);
    vstd::arithmetic::div_mod::lemma_div_is_ordered(n * i, n * (i + 1), threads as int);
}

/// Totals of the roots computed by one thread.
#[derive(Clone, Copy, Debug, PartialEq, Eq, Default)]
pub struct RadicalTotals {
    /// Numbers processed.
    pub numbers: u64,
    /// Roots that failed the tolerance check.
    pub errors: u64,
    /// Sum modulo 2^64 of the bit patterns of the roots.
    pub checksum: u64,
}

/// The totals of two disjoint parts together.
pub open spec fn merged(a: RadicalTotals, b: RadicalTotals) -> RadicalTotals {
    RadicalTotals {
        numbers: (a.numbers + b.numbers) as u64,
        errors: (a.errors + b.errors) as u64,
        checksum: ((a.checksum + b.checksum) % 0x1_0000_0000_0000_0000) as u64,
    }
}

/// Merging does not depend on the order of the parts nor on how they are grouped: the
/// checksum of a run is the same whatever the number of threads and the split.
pub proof fn lemma_merge_order_free(a: RadicalTotals, b: RadicalTotals, c: RadicalTotals)
    requires
        a.numbers + b.numbers + c.numbers <= u64::MAX,
        a.errors + b.errors + c.errors <= u64::MAX,
    ensures
        merged(a, b) == merged(b, a),
        merged(merged(a, b), c) == merged(a, merged(b, c)),
{
    let m: int = 0x1_0000_0000_0000_0000;
    vstd::arithmetic::div_mod::lemma_add_mod_noop(a.checksum + b.checksum, c.checksum as int, m);
    vstd::arithmetic::div_mod::lemma_add_mod_noop(a.checksum as int, b.checksum + c.checksum, m);
    vstd::arithmetic::div_mod::lemma_mod_twice(a.checksum + b.checksum, m);
    vstd::arithmetic::div_mod::lemma_mod_twice(b.checksum + c.checksum, m);
    vstd::arithmetic::div_mod::lemma_small_mod(c.checksum as nat, m as nat);
    vstd::arithmetic::div_mod::lemma_small_mod(a.checksum as nat, m as nat);
}

impl RadicalTotals {
    /// Totals of two disjoint parts. The checksum is a sum modulo 2^64, so it does not depend on
    /// the order or on how the range was split.
    pub fn merge(self, other: Self) -> (r: Self)
        requires
            self.numbers + other.numbers <= u64::MAX,
            self.errors + other.errors <= u64::MAX,
        ensures
            r == merged(self, other),
            r.numbers == self.numbers + other.numbers,
            r.errors == self.errors + other.errors,
            r.checksum == (self.checksum + other.checksum) % 0x1_0000_0000_0000_0000,
    {
        RadicalTotals {
            numbers: self.numbers + other.numbers,
            errors: self.errors + other.errors,
            checksum: self.checksum.wrapping_add(other.checksum),
        }
    }
}

/// Detail of a run that did not process every number.
pub open spec fn incomplete_detail(numbers: u64, n: u64) -> Seq<char> {
    "se procesaron "@ + decimal(numbers as nat) + " números de "@ + decimal(n as nat)
}

/// Detail of a run with roots outside the tolerance.
pub open spec fn tolerance_detail(errors: u64) -> Seq<char> {
    decimal(errors as nat) + " raíces no cumplen x² = k dentro de la tolerancia"@
}

/// Verdict of a Radical run over `[1, n]`: it passes when every number was processed and every
/// root met the tolerance; the digest is the checksum in hexadecimal.
pub fn radical_verdict(totals: RadicalTotals, n: u64) -> (r: Verdict)
    ensures
        r.errors == totals.errors,
        r.digest matches Some(d) && d@ == hex16(totals.checksum),
        totals.numbers != n ==> r.status == VerificationStatus::Failed,
        totals.numbers != n ==> (r.detail matches Some(t) && t@ == incomplete_detail(
            totals.numbers,
            n,
        )),
        totals.numbers == n && totals.errors > 0 ==> r.status == VerificationStatus::Failed,
        totals.numbers == n && totals.errors > 0 ==> (r.detail matches Some(t) && t@
            == tolerance_detail(totals.errors)),
        totals.numbers == n && totals.errors == 0 ==> r.status == VerificationStatus::Passed
            && r.detail is None,
{
    let digest = Some(hex16_text(totals.checksum));
    if totals.numbers != n {
        let mut t = String::new();
        push_str(&mut t, "se procesaron ");
        push_decimal(&mut t, totals.numbers);
        push_str(&mut t, " números de ");
        push_decimal(&mut t, n);
        proof {
            assert(t@ =~= incomplete_detail(totals.numbers, n));
        }
        Verdict { status: VerificationStatus::Failed, errors: totals.errors, digest, detail: Some(t) }
    } else if totals.errors > 0 {
        let mut t = String::new();
        push_decimal(&mut t, totals.errors);
        push_str(&mut t, " raíces no cumplen x² = k dentro de la tolerancia");
        proof {
            assert(t@ =~= tolerance_detail(totals.errors));
        }
        Verdict { status: VerificationStatus::Failed, errors: totals.errors, digest, detail: Some(t) }
    } else {
        Verdict { status: VerificationStatus::Passed, errors: 0, digest, detail: None }
    }
}

/// The Radical module.
#[derive(Clone, Copy, Debug, Default)]
pub struct Radical;

impl Radical {
    /// Module it implements.
    pub fn module(&self) -> (r: Module)
        ensures
            r == Module::Radical,
    {
        Module::Radical
    }

    /// Estimated memory of a run: thread stacks and counters only, whatever the size.
    pub fn memory_required(&self, config: &RunConfig) -> (r: u64)
        ensures
            r == 16 * 1024 * 1024,
    {
        proof {
            assert((16u64 << 20u64) == 16_777_216u64) by (bit_vector);
        }
        16 << 20
    }
}

} // verus!
