use gugolpi::config::{Mode, Module, RadicalOptions, RunConfig, ThreadCount, Threads};
use gugolpi::error::Error;

#[test]
fn pi_sizes_use_binary_units() {
    let size = Module::Pi.parse_size("1M").unwrap_or_else(|e| panic!("{}", e.message()));
    assert_eq!(size.value, 1_048_576);
    assert!(size.official);
    let size = Module::Pi.parse_size("16k").unwrap_or_else(|e| panic!("{}", e.message()));
    assert_eq!(size.value, 16_384);
    assert_eq!(size.label, "16K");
}

#[test]
fn pi_rejects_unlisted_sizes() {
    assert!(Module::Pi.parse_size("3M").is_err());
    assert!(Module::Pi.parse_size("12345").is_err());
}

#[test]
fn pi_extended_sizes_are_unofficial() {
    let size = Module::Pi.parse_size("1G").unwrap_or_else(|e| panic!("{}", e.message()));
    assert_eq!(size.value, 1 << 30);
    assert!(!size.official);
}

#[test]
fn radical_sizes_use_decimal_units() {
    let size = Module::Radical.parse_size("32M").unwrap_or_else(|e| panic!("{}", e.message()));
    assert_eq!(size.value, 32_000_000);
    assert!(size.official);
    let size = Module::Radical.parse_size("1024M").unwrap_or_else(|e| panic!("{}", e.message()));
    assert_eq!(size.value, 1_024_000_000);
    assert!(size.official);
    let free = Module::Radical.parse_size("500000").unwrap_or_else(|e| panic!("{}", e.message()));
    assert_eq!(free.value, 500_000);
    assert_eq!(free.label, "500000");
    assert!(!free.official);
}

#[test]
fn zeta_sizes() {
    let size = Module::Zeta.parse_size("1G").unwrap_or_else(|e| panic!("{}", e.message()));
    assert_eq!(size.value, 1_000_000_000);
    assert!(size.official);
    let size = Module::Zeta.parse_size("100G").unwrap_or_else(|e| panic!("{}", e.message()));
    assert!(!size.official);
}

#[test]
fn zero_and_garbage_are_rejected() {
    assert!(Module::Radical.parse_size("0").is_err());
    assert!(Module::Zeta.parse_size("abc").is_err());
    assert!(Module::Radical.parse_size("").is_err());
}

#[test]
fn single_mode_always_one_thread() {
    let mut cfg = RunConfig::new(Module::Radical, "32M").unwrap_or_else(|e| panic!("{}", e.message()));
    cfg.threads = Threads::Auto;
    assert_eq!(cfg.resolve_threads(16, 8), 1);
    cfg.mode = Mode::Multi;
    assert_eq!(cfg.resolve_threads(16, 8), 16);
    cfg.threads = Threads::Physical;
    assert_eq!(cfg.resolve_threads(16, 8), 8);
}

#[test]
fn unknown_size_names_text_and_module() {
    match Module::Pi.parse_size("3M") {
        Err(Error::UnknownSize { text, module }) => {
            assert_eq!(text, "3M");
            assert_eq!(module, Module::Pi);
        }
        other => panic!("unexpected {other:?}"),
    }
}

#[test]
fn names_parse_ignoring_case_and_spaces() {
    assert_eq!(Module::parse("  ZeTa ").expect("zeta"), Module::Zeta);
    assert_eq!(Mode::parse("MULTI").expect("multi"), Mode::Multi);
    assert_eq!(Threads::parse("physical").expect("physical"), Threads::Physical);
    match Threads::parse(" 8 ").expect("8") {
        Threads::Count(c) => assert_eq!(c.get(), 8),
        other => panic!("unexpected {other:?}"),
    }
    assert!(Threads::parse("0").is_err());
    assert!(Module::parse("gugol").is_err());
    let e = Mode::parse("doble").expect_err("mode");
    assert_eq!(e.message(), "configuración no válida: modo desconocido «doble»");
}

#[test]
fn thread_requests_resolve_on_a_machine() {
    assert_eq!(Threads::Auto.resolve(12, 6), 12);
    assert_eq!(Threads::Physical.resolve(12, 6), 6);
    assert_eq!(Threads::Auto.resolve(0, 0), 1);
    let three = Threads::Count(ThreadCount::new(3).expect("3"));
    assert_eq!(three.resolve(12, 6), 3);
    assert_eq!(three.text(), "3");
    assert_eq!(Threads::Auto.text(), "auto");
}

#[test]
fn official_configurations() {
    let mut cfg = RunConfig::new(Module::Radical, "32M").expect("32M");
    assert!(cfg.is_official());
    cfg.radical.static_split = true;
    assert!(!cfg.is_official());
    assert!(!RunConfig::new(Module::Zeta, "1000000").expect("free").is_official());
}

#[test]
fn zeta_quick_size_is_extended() {
    let size = Module::Zeta.parse_size("100M").unwrap_or_else(|e| panic!("{}", e.message()));
    assert_eq!(size.value, 100_000_000);
    assert_eq!(size.label, "100M");
    assert!(!size.official);
    let size = Module::Zeta.parse_size("10g").unwrap_or_else(|e| panic!("{}", e.message()));
    assert_eq!(size.value, 10_000_000_000);
    assert!(size.official);
}

#[test]
fn size_lists_of_each_module() {
    assert_eq!(Module::Radical.official_sizes(), vec!["32M", "1024M"]);
    assert_eq!(Module::Zeta.official_sizes(), vec!["1G", "10G"]);
    assert_eq!(Module::Zeta.extended_sizes(), vec!["100M", "100G"]);
    assert_eq!(Module::Pi.official_sizes().len(), 12);
    assert_eq!(Module::all(), vec![Module::Pi, Module::Radical, Module::Zeta]);
}

#[test]
fn error_messages() {
    let e = Error::InsufficientMemory { required: 10, available: 3 };
    assert_eq!(e.message(), "memoria insuficiente: se necesitan 10 bytes y hay 3 disponibles");
    assert_eq!(Error::Cancelled.message(), "ejecución cancelada");
    assert_eq!(
        Error::Unavailable(Module::Pi).message(),
        "el módulo pi no está disponible en esta build"
    );
    let e = Module::Zeta.parse_size("x").expect_err("size");
    assert_eq!(e.message(), "tamaño desconocido «x» para el módulo zeta");
}

#[test]
fn defaults_of_a_run() {
    assert_eq!(Mode::default_mode(), Mode::Single);
    assert_eq!(Threads::default_threads(), Threads::Auto);
    assert_eq!(RadicalOptions::default_options(), RadicalOptions { static_split: false });
}

#[test]
fn listed_sizes_parse_to_themselves() {
    for m in Module::all() {
        let mut previous = 0u64;
        for label in m.official_sizes() {
            let size = m.parse_size(label).unwrap_or_else(|e| panic!("{}", e.message()));
            assert_eq!(size.label, label);
            assert!(size.official);
            assert!(size.value > previous);
            previous = size.value;
        }
        for label in m.extended_sizes() {
            let size = m.parse_size(label).unwrap_or_else(|e| panic!("{}", e.message()));
            assert_eq!(size.label, label);
            assert!(!size.official);
            assert!(!m.official_sizes().contains(&label));
        }
    }
    assert_eq!(Module::Pi.parse_size("1G").expect("1G").value, 1 << 30);
}
