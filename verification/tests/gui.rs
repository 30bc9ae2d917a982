use gugolpi::gui::{
    catalog, session_gate, session_next, session_start, system_summary, AppState, RunOutcome,
    RunRequest, SessionStep,
};
use gugolpi::sysinfo::SystemInfo;

fn request(module: &str, size: &str) -> RunRequest {
    RunRequest {
        module: module.to_string(),
        size: size.to_string(),
        mode: None,
        threads: None,
        affinity: false,
        repeat: 1,
        static_split: false,
        scaling: false,
    }
}

#[test]
fn one_session_at_a_time() {
    let mut state = AppState::new("/tmp/results".to_string(), SystemInfo::placeholder());
    let token = state.begin_session().expect("first");
    assert!(!token.is_cancelled());
    assert_eq!(state.begin_session().err().as_deref(), Some("ya hay una ejecución en curso"));
    state.cancel_session();
    assert!(token.is_cancelled());
    state.end_session();
    assert!(state.begin_session().is_ok());
}

#[test]
fn requests_become_configurations() {
    let mut r = request("zeta", "1G");
    r.mode = Some("multi".to_string());
    r.threads = Some("2".to_string());
    let config = r.config().expect("config");
    assert_eq!(config.size.value, 1_000_000_000);
    assert_eq!(config.threads.text(), "2");
    assert_eq!(
        request("zeta", "1X").config().err().as_deref(),
        Some("tamaño desconocido «1X» para el módulo zeta")
    );
    assert_eq!(
        request("omega", "1G").config().err().as_deref(),
        Some("configuración no válida: módulo desconocido «omega»")
    );
    let mut sweep = request("radical", "32M");
    sweep.scaling = true;
    assert_eq!(sweep.jobs(&SystemInfo::placeholder()).expect("jobs").len(), 3);
}

#[test]
fn catalog_lists_modules_and_presets() {
    let state = AppState::new("/tmp/results".to_string(), SystemInfo::placeholder());
    let catalog = catalog(&state).expect("catalog");
    let names: Vec<&str> = catalog.modules.iter().map(|m| m.name.as_str()).collect();
    assert_eq!(names, vec!["pi", "radical", "zeta"]);
    assert_eq!(catalog.modules[1].compatible_with, "wPrime");
    assert_eq!(catalog.modules[2].default_size, "10G");
    assert_eq!(catalog.modules[0].official_sizes.len(), 12);
    let suites: Vec<&str> = catalog.suites.iter().map(|s| s.name.as_str()).collect();
    assert_eq!(suites, vec!["classic", "trio", "full"]);
    assert!(catalog.suites.iter().all(|s| !s.jobs.is_empty()));
    assert_eq!(
        catalog.suites[1].jobs,
        vec!["pi 1M single", "radical 32M single", "zeta 10G single"]
    );
    assert_eq!(catalog.suites[0].repeat, 1);
    let summary = system_summary(&state, "3f9c2e1");
    assert_eq!(summary.results_dir, "/tmp/results");
    assert_eq!(summary.tool.commit, "3f9c2e1");
    assert_eq!(summary.tool.name, "gugolpi");
}

#[test]
fn sessions_move_run_by_run() {
    assert_eq!(session_start(0), SessionStep::Done { cancelled: false });
    let first = session_start(2);
    assert_eq!(first, SessionStep::Next { job: 0, run: 1 });
    assert_eq!(session_next(0, 1, 2, 2, RunOutcome::Saved), SessionStep::Next { job: 0, run: 2 });
    assert_eq!(session_next(0, 2, 2, 2, RunOutcome::NotSaved), SessionStep::Next { job: 1, run: 1 });
    assert_eq!(session_next(0, 1, 2, 2, RunOutcome::Failed), SessionStep::Next { job: 1, run: 1 });
    assert_eq!(session_next(1, 2, 2, 2, RunOutcome::Saved), SessionStep::Done { cancelled: false });
    assert_eq!(session_next(0, 1, 2, 2, RunOutcome::Cancelled), SessionStep::Done { cancelled: true });
    assert_eq!(session_gate(first, true), SessionStep::Done { cancelled: true });
    assert_eq!(session_gate(first, false), first);
}
