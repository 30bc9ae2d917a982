use gugolpi::config::{Module, RunConfig};
use gugolpi::radical::{chunk_count, chunk_range, radical_verdict, static_range, Radical, RadicalTotals};
use gugolpi::result::VerificationStatus;

#[test]
fn chunking_covers_the_whole_range() {
    let n = 2_500_001;
    let mut covered = 0;
    let mut index = 0;
    while let Some((first, last)) = chunk_range(n, index) {
        covered += last - first + 1;
        index += 1;
    }
    assert_eq!(covered, n);
    assert_eq!(index, chunk_count(n));
    assert!(chunk_range(n, index).is_none());
}

#[test]
fn static_ranges_partition_without_gaps() {
    let n = 10_000_007;
    let threads = 7;
    let mut expected_first = 1;
    for i in 0..threads {
        let (first, last) = static_range(n, i, threads);
        assert_eq!(first, expected_first);
        expected_first = last + 1;
    }
    assert_eq!(expected_first, n + 1);
}

#[test]
fn totals_merge_in_any_order() {
    let a = RadicalTotals { numbers: 3, errors: 1, checksum: u64::MAX };
    let b = RadicalTotals { numbers: 4, errors: 0, checksum: 2 };
    assert_eq!(a.merge(b), b.merge(a));
    assert_eq!(a.merge(b), RadicalTotals { numbers: 7, errors: 1, checksum: 1 });
}

#[test]
fn verdicts_of_radical_runs() {
    let ok = radical_verdict(RadicalTotals { numbers: 10, errors: 0, checksum: 255 }, 10);
    assert_eq!(ok.status, VerificationStatus::Passed);
    assert_eq!(ok.digest.as_deref(), Some("00000000000000ff"));
    let short = radical_verdict(RadicalTotals { numbers: 9, errors: 0, checksum: 1 }, 10);
    assert_eq!(short.status, VerificationStatus::Failed);
    assert_eq!(short.detail.as_deref(), Some("se procesaron 9 números de 10"));
    let wrong = radical_verdict(RadicalTotals { numbers: 10, errors: 2, checksum: 1 }, 10);
    assert_eq!(wrong.status, VerificationStatus::Failed);
    assert_eq!(wrong.errors, 2);
    assert_eq!(
        wrong.detail.as_deref(),
        Some("2 raíces no cumplen x² = k dentro de la tolerancia")
    );
}

#[test]
fn radical_needs_little_memory() {
    let config = RunConfig::new(Module::Radical, "32M").expect("32M");
    assert_eq!(Radical.memory_required(&config), 16 << 20);
    assert_eq!(Radical.module(), Module::Radical);
}
