use gugolpi::config::{Module, RunConfig};
use gugolpi::result::VerificationStatus;
use gugolpi::zeta::primes::small_primes;
use gugolpi::zeta::reference::{entries, entry_for};
use gugolpi::zeta::sieve::{count_primes, isqrt, Sieve, SEGMENT_NUMBERS};
use gugolpi::zeta::{chunk_range, verify, SieveTotals, Zeta, CHUNK_NUMBERS};

fn naive(limit: u64) -> SieveTotals {
    let primes = small_primes(limit);
    SieveTotals {
        count: primes.len() as u64,
        sum_mod_2_64: primes.iter().fold(0_u64, |acc, &p| acc.wrapping_add(p)),
    }
}

#[test]
fn reference_table_covers_official_sizes() {
    for label in Module::Zeta.official_sizes() {
        let size = Module::Zeta.parse_size(label).expect("size");
        assert!(entry_for(size.value).is_some(), "falta referencia para {label}");
    }
}

#[test]
fn matches_naive_sieve_at_awkward_limits() {
    for limit in [
        0_u64, 1, 2, 3, 5, 6, 7, 29, 30, 31, 100, 997, 1_000, 30_000, 65_537, 1_000_000,
        2_000_003,
    ] {
        assert_eq!(count_primes(limit), naive(limit), "limit = {limit}");
    }
}

#[test]
fn known_pi_values() {
    assert_eq!(count_primes(1_000).count, 168);
    assert_eq!(count_primes(100_000).count, 9_592);
    assert_eq!(count_primes(100_000).sum_mod_2_64, 454_396_537);
    assert_eq!(count_primes(10_000_000).count, 664_579);
}

#[test]
fn ranges_compose() {
    // The stretches start on multiples of 30 and the cursors are placed again for each one, so
    // any partition gives the same total.
    let sieve = Sieve::new(3_000_000);
    let mut ws = sieve.workspace();
    let split = 999_990;
    let a = sieve.sieve_range(&mut ws, 0, split - 1);
    let b = sieve.sieve_range(&mut ws, split, 3_000_000);
    assert_eq!(a.merge(b), naive(3_000_000));
    let c = sieve.sieve_range(&mut ws, 2_999_970, 3_000_000);
    let d = sieve.sieve_range(&mut ws, 0, 2_999_969);
    assert_eq!(c.merge(d), naive(3_000_000));
}

#[test]
fn reference_entries_match_the_sieve_at_100m() {
    let table = entries();
    assert_eq!(table.len(), 4);
    let e = entry_for(100_000_000).expect("100M");
    let totals = count_primes(100_000_000);
    assert_eq!(totals.count, e.prime_count);
    assert_eq!(format!("{:016x}", totals.sum_mod_2_64), e.prime_sum_mod_2_64);
    let verdict = verify(totals, 100_000_000);
    assert_eq!(verdict.status, VerificationStatus::Passed);
}

#[test]
fn verdicts_of_zeta_runs() {
    let totals = count_primes(1_000_000);
    let free = verify(totals, 1_000_000);
    assert_eq!(free.status, VerificationStatus::Unverified);
    assert!(free.detail.as_deref().is_some_and(|d| d.contains("78498")));
    let wrong = verify(SieveTotals { count: 1, sum_mod_2_64: 2 }, 100_000_000);
    assert_eq!(wrong.status, VerificationStatus::Failed);
    assert_eq!(wrong.errors, 2);
    assert_eq!(
        wrong.detail.as_deref(),
        Some("π(N) = 1 (esperado 5761455), suma mod 2^64 = 0000000000000002 (esperada 0000fdf0985fb44c)")
    );
}

#[test]
fn blocks_of_the_queue_tile_the_range() {
    assert_eq!(CHUNK_NUMBERS, 16 * SEGMENT_NUMBERS);
    let limit = 40_000_000;
    let mut next = 0;
    let mut index = 0;
    while let Some((low, high)) = chunk_range(index, limit) {
        assert_eq!(low, next);
        assert_eq!(low % 30, 0);
        next = high + 1;
        index += 1;
    }
    assert_eq!(next, limit + 1);
    assert_eq!(index, 3);
}

#[test]
fn square_roots_and_memory() {
    assert_eq!(isqrt(0), 0);
    assert_eq!(isqrt(99), 9);
    assert_eq!(isqrt(100), 10);
    assert_eq!(isqrt(u64::MAX), 4_294_967_295);
    let config = RunConfig::new(Module::Zeta, "1G").expect("1G");
    let root = (config.size.value as f64).sqrt() as u64;
    assert_eq!(root, 31_622);
    assert_eq!(Zeta.memory_required(root), (31_622 / 8 + 16) * 48 + 64 * 1024 * 64 + (16 << 20));
    // Just below 2^54 the floating-point root rounds up to 2^27, one past the integer root.
    let n: u64 = (1 << 54) - 1;
    let root = (n as f64).sqrt() as u64;
    assert_eq!(root, 1 << 27);
    assert_eq!(isqrt(n), (1 << 27) - 1);
    assert_eq!(Zeta.memory_required(root), ((1u64 << 27) / 8 + 16) * 48 + 64 * 1024 * 64 + (16 << 20));
    assert_eq!(Zeta.module(), Module::Zeta);
}

#[test]
fn the_sieve_remembers_its_limit() {
    let sieve = Sieve::new(12_345);
    assert_eq!(sieve.limit(), 12_345);
    let copy = sieve.clone();
    assert_eq!(copy.limit(), 12_345);
}
