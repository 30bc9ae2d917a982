use gugolpi::config::{Mode, Module, RunConfig, ThreadCount, Threads};
use gugolpi::hash::sha256_hex;
use gugolpi::pi::reference::{entries, sha256_for};
use gugolpi::pi::{memory_per_instance, verify, Pi};
use gugolpi::result::VerificationStatus;
use gugolpi::score::pi_loops;
use gugolpi::sysinfo::SystemInfo;

#[test]
fn loop_count_matches_superpi() {
    assert_eq!(pi_loops(1 << 20), 19);
    assert_eq!(pi_loops(1 << 25), 24);
    assert_eq!(pi_loops(1 << 14), 13);
}

#[test]
fn table_covers_official_sizes() {
    for label in Module::Pi.official_sizes() {
        let size = Module::Pi.parse_size(label).expect("size");
        assert!(sha256_for(size.value).is_some(), "falta referencia para {label}");
    }
}

#[test]
fn table_is_in_increasing_order() {
    let table = entries();
    assert_eq!(table.len(), 12);
    assert_eq!(table[0].label, "16K");
    assert_eq!(table[0].digits, 16_384);
    assert_eq!(table[11].label, "32M");
    assert!(table.windows(2).all(|w| w[0].digits < w[1].digits));
    assert!(table.iter().all(|e| e.sha256.len() == 64 && e.last_digits.len() == 20));
    assert!(sha256_for(12_345).is_none());
}

#[test]
fn memory_grows_with_the_digits() {
    // 16K digits: 4101 limbs, 8202 → 16384 FFT points.
    assert_eq!(memory_per_instance(16_384), 16_384 * 32 + 4_101 * 100);
    assert!(memory_per_instance(1 << 20) < memory_per_instance(1 << 25));
    let mut config = RunConfig::new(Module::Pi, "16K").expect("16K");
    let system = SystemInfo::placeholder();
    assert_eq!(Pi.memory_required(&config, &system), memory_per_instance(16_384));
    config.mode = Mode::Multi;
    config.threads = Threads::Count(ThreadCount::new(3).expect("3"));
    assert_eq!(Pi.memory_required(&config, &system), 3 * memory_per_instance(16_384));
    assert_eq!(Pi.module(), Module::Pi);
}

#[test]
fn digests_are_checked_against_the_reference() {
    let good = sha256_for(16_384).expect("16K");
    let ok = verify(&vec![good.clone(), good.clone()], 16_384, None);
    assert_eq!(ok.status, VerificationStatus::Passed);
    assert_eq!(ok.errors, 0);
    assert_eq!(ok.digest.as_deref(), Some(good.as_str()));
    assert!(ok.detail.is_none());

    let bad = sha256_hex(b"1415");
    let failed = verify(&vec![good.clone(), bad.clone(), bad], 16_384, None);
    assert_eq!(failed.status, VerificationStatus::Failed);
    assert_eq!(failed.errors, 2);
    assert_eq!(
        failed.detail.as_deref(),
        Some("2 de 3 instancias no coinciden con los dígitos de referencia")
    );

    let free = verify(&vec![good.clone()], 1_000, None);
    assert_eq!(free.status, VerificationStatus::Unverified);
    assert_eq!(
        free.detail.as_deref(),
        Some("no hay dígitos de referencia embebidos para este tamaño")
    );

    let unstable = verify(&vec![good], 16_384, Some("error de redondeo de la FFT".to_string()));
    assert_eq!(unstable.status, VerificationStatus::Failed);
    assert_eq!(unstable.errors, 1);
    assert_eq!(unstable.detail.as_deref(), Some("error de redondeo de la FFT"));
}
