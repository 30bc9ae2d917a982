use gugolpi::config::{Mode, Module, RunConfig, ThreadCount, Threads};
use gugolpi::error::Error;
use gugolpi::suite::{preset_names, scaling_jobs, Job, SuiteFile, SuiteMeta, SuiteTest};
use gugolpi::sysinfo::SystemInfo;

fn test(module: &str, size: &str) -> SuiteTest {
    SuiteTest {
        module: module.to_string(),
        size: size.to_string(),
        mode: None,
        threads: None,
        affinity: false,
        static_split: false,
        scaling: false,
        label: None,
    }
}

fn suite(tests: Vec<SuiteTest>) -> SuiteFile {
    SuiteFile { suite: SuiteMeta { name: "x".to_string(), repeat: 1 }, tests }
}

#[test]
fn presets_parse_and_expand() {
    let system = SystemInfo::placeholder();
    for name in preset_names() {
        let suite = SuiteFile::preset(name)
            .expect("preset")
            .unwrap_or_else(|e| panic!("{name}: {}", e.message()));
        let jobs = suite.jobs(&system).unwrap_or_else(|e| panic!("{name}: {}", e.message()));
        assert!(!jobs.is_empty(), "{name}");
        assert!(SuiteFile::preset(name).is_some());
    }
    assert!(SuiteFile::preset("nope").is_none());
}

#[test]
fn empty_suite_is_rejected() {
    match suite(Vec::new()).require_tests() {
        Err(Error::InvalidConfig(m)) => assert_eq!(m, "la suite «x» no tiene ningún [[test]]"),
        other => panic!("unexpected {:?}", other.map(|s| s.tests.len())),
    }
}

#[test]
fn scaling_covers_powers_of_two_and_max() {
    let system = SystemInfo::placeholder(); // 4 logical CPUs
    let base = RunConfig::new(Module::Radical, "32M").expect("size");
    let jobs = scaling_jobs(&base, &system);
    let threads: Vec<String> = jobs.iter().map(|j| j.config.threads.text()).collect();
    assert_eq!(threads, vec!["1", "2", "4"]);
    assert!(jobs.iter().all(|j| j.config.mode == Mode::Multi));
}

#[test]
fn scaling_ends_on_the_cpu_count() {
    let mut system = SystemInfo::placeholder();
    system.logical_cpus = 6;
    let base = RunConfig::new(Module::Zeta, "1G").expect("size");
    let threads: Vec<String> =
        scaling_jobs(&base, &system).iter().map(|j| j.config.threads.text()).collect();
    assert_eq!(threads, vec!["1", "2", "4", "6"]);
    system.logical_cpus = 0;
    assert_eq!(scaling_jobs(&base, &system).len(), 1);
}

#[test]
fn labels_name_module_size_and_threads() {
    let mut config = RunConfig::new(Module::Pi, "1m").expect("1M");
    assert_eq!(Job::label_for(&config), "pi 1M single");
    config.mode = Mode::Multi;
    config.threads = Threads::Count(ThreadCount::new(8).expect("8"));
    assert_eq!(Job::label_for(&config), "pi 1M multi ×8");
    let job = Job::from_config(config.clone());
    assert_eq!(job.label, "pi 1M multi ×8");
    assert_eq!(job.config, config);
}

#[test]
fn jobs_follow_the_tests() {
    let system = SystemInfo::placeholder();
    let mut labelled = test("zeta", "100M");
    labelled.label = Some("criba".to_string());
    let mut multi = test("radical", "32M");
    multi.mode = Some("multi".to_string());
    multi.threads = Some("physical".to_string());
    let mut sweep = test("pi", "16K");
    sweep.scaling = true;
    let jobs = suite(vec![labelled, multi, sweep]).jobs(&system).expect("jobs");
    let labels: Vec<&str> = jobs.iter().map(|j| j.label.as_str()).collect();
    assert_eq!(
        labels,
        vec![
            "criba",
            "radical 32M multi ×physical",
            "pi 16K multi ×1",
            "pi 16K multi ×2",
            "pi 16K multi ×4"
        ]
    );
}

#[test]
fn bad_tests_say_which_and_what() {
    let system = SystemInfo::placeholder();
    let cases = [
        (test("gugol", "1M"), "test 2: módulo: configuración no válida: módulo desconocido «gugol»"),
        (test("pi", "3M"), "test 2: tamaño: tamaño desconocido «3M» para el módulo pi"),
    ];
    for (bad, message) in cases {
        match suite(vec![test("pi", "1M"), bad]).jobs(&system) {
            Err(Error::InvalidConfig(m)) => assert_eq!(m, message),
            other => panic!("unexpected {:?}", other.map(|j| j.len())),
        }
    }
    let mut bad_mode = test("pi", "1M");
    bad_mode.mode = Some("doble".to_string());
    match suite(vec![bad_mode]).jobs(&system) {
        Err(Error::InvalidConfig(m)) => {
            assert_eq!(m, "test 1: modo: configuración no válida: modo desconocido «doble»")
        }
        other => panic!("unexpected {:?}", other.map(|j| j.len())),
    }
    let mut bad_threads = test("pi", "1M");
    bad_threads.threads = Some("muchos".to_string());
    match suite(vec![bad_threads]).jobs(&system) {
        Err(Error::InvalidConfig(m)) => {
            assert_eq!(m, "test 1: hilos: configuración no válida: hilos no válidos «muchos»")
        }
        other => panic!("unexpected {:?}", other.map(|j| j.len())),
    }
}

#[test]
fn unknown_sources_list_the_presets() {
    match SuiteFile::unknown_source("mia.toml") {
        Error::InvalidConfig(m) => {
            assert_eq!(m, "«mia.toml» no es un preset (classic, trio, full) ni un fichero existente")
        }
        other => panic!("unexpected {other:?}"),
    }
}
