use gugolpi::benchmark::{preflight, CancelToken};
use gugolpi::config::{Module, RunConfig};
use gugolpi::error::Error;
use gugolpi::hash::sha256_hex;
use gugolpi::result::{
    integrity_matches, is_official_result, seal_digest, throughput_unit, ToolInfo,
    VerificationStatus, Verdict,
};
use gugolpi::sysinfo::{available_memory, simd_level, CpuFeatures, SystemInfo};

fn verdict(status: VerificationStatus) -> Verdict {
    Verdict { status, errors: 0, digest: None, detail: None }
}

#[test]
fn sha256_of_known_texts() {
    assert_eq!(
        sha256_hex(b"abc"),
        "ba7816bf8f01cfea414140de5dae2223b00361a396177a9cb410ff61f20015ad"
    );
    assert_eq!(
        sha256_hex(b""),
        "e3b0c44298fc1c149afbf4c8996fb92427ae41e4649b934ca495991b7852b855"
    );
}

#[test]
fn official_requires_passing_verification() {
    let config = RunConfig::new(Module::Radical, "32M").expect("32M");
    assert!(is_official_result(&config, &verdict(VerificationStatus::Passed)));
    assert!(!is_official_result(&config, &verdict(VerificationStatus::Failed)));
    assert!(!is_official_result(&config, &verdict(VerificationStatus::Unverified)));
    let free = RunConfig::new(Module::Radical, "500000").expect("free");
    assert!(!is_official_result(&free, &verdict(VerificationStatus::Passed)));
}

/// A stored result reduced to what the seal covers: its timing and the seal itself.
fn stored_result(total_seconds: f64, integrity: Option<String>) -> serde_json::Value {
    let mut timing = serde_json::Map::new();
    timing.insert("total_seconds".to_string(), serde_json::Value::from(total_seconds));
    let mut result = serde_json::Map::new();
    result.insert("module".to_string(), serde_json::Value::from("radical"));
    result.insert("timing".to_string(), serde_json::Value::Object(timing));
    result.insert(
        "integrity".to_string(),
        match integrity {
            Some(seal) => serde_json::Value::from(seal),
            None => serde_json::Value::Null,
        },
    );
    serde_json::Value::Object(result)
}

/// The bytes the seal is computed over: the result with its seal left out.
fn canonical(result: &serde_json::Value) -> Vec<u8> {
    let mut unsealed = result.clone();
    unsealed["integrity"] = serde_json::Value::Null;
    serde_json::to_vec(&unsealed).expect("json")
}

#[test]
fn tampering_breaks_integrity() {
    let unsealed = stored_result(2.5, None);
    let seal = seal_digest(&canonical(&unsealed));
    let mut result = stored_result(2.5, Some(seal.clone()));
    assert!(integrity_matches(&Some(seal.clone()), &canonical(&result)));
    result["timing"]["total_seconds"] = serde_json::Value::from(0.1);
    assert!(!integrity_matches(&Some(seal), &canonical(&result)));
    assert!(!integrity_matches(&None, &canonical(&unsealed)));
}

#[test]
fn wrong_module_is_rejected() {
    let config = RunConfig::new(Module::Pi, "1M").expect("1M");
    let system = SystemInfo::placeholder();
    match preflight(Module::Radical, 1, &config, &system) {
        Err(Error::InvalidConfig(m)) => {
            assert_eq!(m, "la configuración es del módulo pi pero se ejecuta radical")
        }
        other => panic!("unexpected {other:?}"),
    }
    match preflight(Module::Pi, u64::MAX, &config, &system) {
        Err(Error::InsufficientMemory { required, available }) => {
            assert_eq!(required, u64::MAX);
            assert_eq!(available, system.available_memory_bytes);
        }
        other => panic!("unexpected {other:?}"),
    }
    assert!(preflight(Module::Pi, 1024, &config, &system).is_ok());
}

#[test]
fn build_information() {
    let tool = ToolInfo::current("avx2", "3f9c2e1");
    assert_eq!(tool.name, "gugolpi");
    assert_eq!(tool.commit, "3f9c2e1");
    assert_eq!(ToolInfo::current("none", "unknown").commit, "unknown");
    assert_eq!(tool.simd_level, "avx2");
    assert_eq!(throughput_unit(Module::Pi), "digits/s");
    assert_eq!(throughput_unit(Module::Zeta), "numbers/s");
}

#[test]
fn cancellation_is_shared_between_clones() {
    let token = CancelToken::new();
    let other = token.clone();
    assert!(!other.is_cancelled());
    token.cancel();
    assert!(other.is_cancelled());
}

#[test]
fn simd_levels() {
    let none = CpuFeatures { x86_64: false, aarch64: false, avx512f: false, avx2: false, fma: false, avx: false };
    assert_eq!(simd_level(none), "scalar");
    assert_eq!(simd_level(CpuFeatures { aarch64: true, ..none }), "neon");
    let x86 = CpuFeatures { x86_64: true, ..none };
    assert_eq!(simd_level(x86), "sse2");
    assert_eq!(simd_level(CpuFeatures { avx: true, ..x86 }), "avx");
    assert_eq!(simd_level(CpuFeatures { avx2: true, fma: true, ..x86 }), "avx2+fma");
    assert_eq!(simd_level(CpuFeatures { avx2: true, ..x86 }), "sse2");
    assert_eq!(simd_level(CpuFeatures { avx512f: true, ..x86 }), "avx512");
}

#[test]
fn available_memory_falls_back_on_total_minus_used() {
    assert_eq!(available_memory(100, 40, 10), 40);
    assert_eq!(available_memory(100, 0, 30), 70);
    assert_eq!(available_memory(100, 0, 0), 100);
    assert_eq!(available_memory(100, 0, 200), 100);
}
