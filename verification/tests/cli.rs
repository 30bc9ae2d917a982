use gugolpi::cli::{
    apply_run_args, exit_code_for, parse_mode_arg, parse_threads_arg, pi_config, planned_jobs,
    radical_config, zeta_config, ExitCode, PiArgs, RadicalArgs, RunArgs, ZetaArgs,
};
use gugolpi::config::{Mode, Module, RunConfig, Threads};
use gugolpi::error::Error;
use gugolpi::result::VerificationStatus;
use gugolpi::sysinfo::SystemInfo;

fn run_args(mode: Mode, scaling: bool) -> RunArgs {
    RunArgs { mode, threads: Threads::Physical, affinity: true, repeat: 1, scaling }
}

#[test]
fn exit_codes_are_fixed() {
    assert_eq!(ExitCode::Success.code(), 0);
    assert_eq!(ExitCode::Usage.code(), 1);
    assert_eq!(ExitCode::VerificationFailed.code(), 2);
    assert_eq!(ExitCode::InsufficientResources.code(), 3);
}

#[test]
fn exit_code_of_each_failure() {
    let memory = Error::InsufficientMemory { required: 2, available: 1 };
    assert_eq!(ExitCode::from_error(Some(&memory)), ExitCode::InsufficientResources);
    let verification = Error::Verification("x".to_string());
    assert_eq!(ExitCode::from_error(Some(&verification)), ExitCode::VerificationFailed);
    assert_eq!(ExitCode::from_error(Some(&Error::Cancelled)), ExitCode::Usage);
    assert_eq!(ExitCode::from_error(None), ExitCode::Usage);
}

#[test]
fn a_failed_verification_sets_the_exit_code() {
    let (passed, failed, unverified) =
        (VerificationStatus::Passed, VerificationStatus::Failed, VerificationStatus::Unverified);
    assert_eq!(exit_code_for(&vec![passed, unverified]), ExitCode::Success);
    assert_eq!(exit_code_for(&vec![passed, failed, passed]), ExitCode::VerificationFailed);
    assert_eq!(exit_code_for(&vec![]), ExitCode::Success);
}

#[test]
fn module_commands_build_their_configuration() {
    let pi = pi_config(&PiArgs {
        size: "32m".to_string(),
        save_digits: None,
        run: run_args(Mode::Multi, false),
    })
    .expect("pi");
    assert_eq!(pi.module, Module::Pi);
    assert_eq!(pi.size.value, 1 << 25);
    assert_eq!(pi.mode, Mode::Multi);
    assert_eq!(pi.threads, Threads::Physical);
    assert!(pi.affinity);

    let radical = radical_config(&RadicalArgs {
        size: "32M".to_string(),
        static_split: true,
        run: run_args(Mode::Single, false),
    })
    .expect("radical");
    assert!(radical.radical.static_split);
    assert!(!radical.is_official());

    match zeta_config(&ZetaArgs { size: "cien".to_string(), run: run_args(Mode::Single, false) }) {
        Err(Error::UnknownSize { text, module }) => {
            assert_eq!(text, "cien");
            assert_eq!(module, Module::Zeta);
        }
        other => panic!("unexpected {other:?}"),
    }
}

#[test]
fn run_options_apply_to_a_configuration() {
    let mut config = RunConfig::new(Module::Radical, "32M").expect("32M");
    apply_run_args(&mut config, &run_args(Mode::Multi, false));
    assert_eq!(config.mode, Mode::Multi);
    assert_eq!(config.threads, Threads::Physical);
    assert!(config.affinity);
    assert_eq!(config.size.value, 32_000_000);
}

#[test]
fn a_sweep_or_one_run() {
    let system = SystemInfo::placeholder();
    let config = RunConfig::new(Module::Radical, "32M").expect("32M");
    assert_eq!(planned_jobs(config.clone(), &run_args(Mode::Single, true), &system).len(), 3);
    let one = planned_jobs(config, &run_args(Mode::Single, false), &system);
    assert_eq!(one.len(), 1);
    assert_eq!(one[0].label, "radical 32M single");
}

#[test]
fn argument_values_parse_with_core_messages() {
    assert_eq!(parse_mode_arg("single"), Ok(Mode::Single));
    assert_eq!(
        parse_mode_arg("triple"),
        Err("configuración no válida: modo desconocido «triple»".to_string())
    );
    assert_eq!(parse_threads_arg("auto"), Ok(Threads::Auto));
    assert_eq!(
        parse_threads_arg("-1"),
        Err("configuración no válida: hilos no válidos «-1»".to_string())
    );
}
