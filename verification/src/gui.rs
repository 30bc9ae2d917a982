//! What the desktop interface decides: its session state, the run requests it receives, the
//! catalog of modules and suites it shows, and how a session moves from one run to the next.

use vstd::prelude::*;

use crate::benchmark::CancelToken;
use crate::config::{
    extended_labels, module_name, official_labels, Mode, Module, RadicalOptions, RunConfig, Threads,
};
use crate::result::{ToolInfo, TOOL_VERSION};
use crate::score::SCORE_VERSION;
use crate::suite::{
    is_sweep_job, job_label, jobs_of, lemma_preset_tests_valid, mode_named, module_named, plain_test,
    preset_list, preset_rows, scaling_counts, scaling_jobs, test_config, test_problem,
    threads_valid, word, Job, SuiteFile, SuiteTest,
};
use crate::config::size_spec;
use crate::sysinfo::SystemInfo;
use crate::text::push_str;

verus! {

/// Global state of the application.
pub struct AppState {
    /// System card, collected at start.
    pub system: SystemInfo,
    /// Directory where the results are saved.
    pub results_dir: String,
    /// Token of the session in progress, if there is one.
    cancel: Option<CancelToken>,
}

impl AppState {
    /// `true` while a session is in progress.
    pub closed spec fn in_session(&self) -> bool {
        self.cancel is Some
    }

    /// The system card held.
    pub closed spec fn system_card(&self) -> SystemInfo {
        self.system
    }

    /// The results directory held.
    pub closed spec fn results_path(&self) -> String {
        self.results_dir
    }

    /// Initial state, with no session.
    pub fn new(results_dir: String, system: SystemInfo) -> (r: AppState)
        ensures
            r.system_card() == system,
            r.results_path() == results_dir,
            !r.in_session(),
    {
        AppState { system, results_dir, cancel: None }
    }

    /// Takes the session: fails when one is already in progress, and then leaves the state,
    /// the token of the session in progress included, as it was.
    pub fn begin_session(&mut self) -> (r: Result<CancelToken, String>)
        ensures
            old(self).in_session() ==> (r matches Err(m) && m@ == "ya hay una ejecución en curso"@
                && final(self).in_session()),
            !old(self).in_session() ==> (r is Ok && final(self).in_session()),
            r is Err ==> *final(self) == *old(self),
            final(self).system_card() == old(self).system_card(),
            final(self).results_path() == old(self).results_path(),
    {
        if self.cancel.is_some() {
            return Err(String::from_str("ya hay una ejecución en curso"));
        }
        let token = CancelToken::new();
        self.cancel = Some(token.clone());
        Ok(token)
    }

    /// Asks the session in progress, if any, to cancel.
    pub fn cancel_session(&self) {
        match &self.cancel {
            Some(token) => token.cancel(),
            None => {},
        }
    }

    /// Releases the session.
    pub fn end_session(&mut self)
        ensures
            !final(self).in_session(),
            final(self).system_card() == old(self).system_card(),
            final(self).results_path() == old(self).results_path(),
    {
        self.cancel = None;
    }
}

/// A run request from the interface.
#[derive(Clone, Debug)]
pub struct RunRequest {
    /// Module.
    pub module: String,
    /// Size.
    pub size: String,
    /// `single` or `multi`.
    pub mode: Option<String>,
    /// `auto`, `physical` or a number.
    pub threads: Option<String>,
    /// Affinity.
    pub affinity: bool,
    /// Repetitions.
    pub repeat: u32,
    /// Radical: static split.
    pub static_split: bool,
    /// Scaling sweep.
    pub scaling: bool,
}

/// The request read as a suite test.
pub open spec fn request_test(r: RunRequest) -> SuiteTest {
    SuiteTest {
        module: r.module,
        size: r.size,
        mode: r.mode,
        threads: r.threads,
        affinity: r.affinity,
        static_split: r.static_split,
        scaling: r.scaling,
        label: None,
    }
}

/// What is wrong with a request, as the message of the core error, or `None`.
pub open spec fn request_problem(r: RunRequest) -> Option<Seq<char>> {
    match module_named(r.module@) {
        None => Some("configuración no válida: "@ + "módulo desconocido «"@ + word(r.module@)
            + "»"@),
        Some(m) => if size_spec(m, r.size@) is None {
            Some("tamaño desconocido «"@ + r.size@ + "» para el módulo "@ + module_name(m))
        } else if r.mode matches Some(t) && mode_named(t@) is None {
            Some("configuración no válida: "@ + "modo desconocido «"@ + word(r.mode->0@) + "»"@)
        } else if r.threads matches Some(t) && !threads_valid(t@) {
            Some("configuración no válida: "@ + "hilos no válidos «"@ + word(r.threads->0@)
                + "»"@)
        } else {
            None
        },
    }
}

impl RunRequest {
    /// The configuration the request asks for, or the message of what is wrong with it.
    pub fn config(&self) -> (r: Result<RunConfig, String>)
        ensures
            request_problem(*self) is None ==> (r matches Ok(c) && test_config(
                request_test(*self),
                c,
            )),
            request_problem(*self) matches Some(p) ==> (r matches Err(m) && m@ == p),
    {
        let module = match Module::parse(self.module.as_str()) {
            Ok(m) => m,
            Err(e) => {
                return Err(e.message());
            },
        };
        let mut config = match RunConfig::new(module, self.size.as_str()) {
            Ok(c) => c,
            Err(e) => {
                return Err(e.message());
            },
        };
        config.mode = match &self.mode {
            Some(m) => match Mode::parse(m.as_str()) {
                Ok(mode) => mode,
                Err(e) => {
                    return Err(e.message());
                },
            },
            None => Mode::Single,
        };
        config.threads = match &self.threads {
            Some(t) => match Threads::parse(t.as_str()) {
                Ok(th) => th,
                Err(e) => {
                    return Err(e.message());
                },
            },
            None => Threads::Auto,
        };
        config.affinity = self.affinity;
        config.radical = RadicalOptions { static_split: self.static_split };
        Ok(config)
    }

    /// The jobs the request starts: the scaling sweep when asked, else the one run.
    pub fn jobs(&self, system: &SystemInfo) -> (r: Result<Vec<Job>, String>)
        requires
            system.logical_cpus <= usize::MAX / 2 + 1,
        ensures
            request_problem(*self) matches Some(p) ==> (r matches Err(m) && m@ == p),
            request_problem(*self) is None && self.scaling ==> (r matches Ok(v) && exists|c: RunConfig|
                test_config(request_test(*self), c) && v@.len() == scaling_counts(
                    system.logical_cpus,
                ).len() && forall|i: int|
                    0 <= i < v@.len() ==> #[trigger] is_sweep_job(
                        c,
                        v@[i],
                        scaling_counts(system.logical_cpus)[i],
                    )),
            request_problem(*self) is None && !self.scaling ==> (r matches Ok(v) && v@.len() == 1
                && test_config(request_test(*self), v@[0].config) && v@[0].label@ == job_label(
                v@[0].config,
            )),
    {
        let config = self.config()?;
        if self.scaling {
            let v = scaling_jobs(&config, system);
            proof {
                assert(test_config(request_test(*self), config));
            }
            Ok(v)
        } else {
            let mut v: Vec<Job> = Vec::new();
            v.push(Job::from_config(config));
            Ok(v)
        }
    }
}

/// Card of the system and of the build.
#[derive(Clone, Debug)]
pub struct SystemSummary {
    /// Machine.
    pub system: SystemInfo,
    /// Build.
    pub tool: ToolInfo,
    /// Results directory.
    pub results_dir: String,
}

/// The card that the interface shows; `commit` is the git commit that the build recorded.
pub fn system_summary(state: &AppState, commit: &str) -> (r: SystemSummary)
    ensures
        r.system == state.system_card(),
        r.tool.simd_level@ == state.system_card().simd_level@,
        r.tool.name@ == "gugolpi"@,
        r.tool.version@ == TOOL_VERSION@,
        r.tool.score_version == SCORE_VERSION,
        r.tool.commit@ == commit@,
        r.results_dir@ == state.results_path()@,
{
    SystemSummary {
        system: state.system.clone(),
        tool: ToolInfo::current(state.system.simd_level.as_str(), commit),
        results_dir: state.results_dir.clone(),
    }
}

/// Description of a module for the interface.
#[derive(Clone, Debug)]
pub struct ModuleInfo {
    /// `pi`, `radical`, `zeta`.
    pub name: String,
    /// Title to show.
    pub title: String,
    /// One-line description.
    pub description: String,
    /// Official sizes.
    pub official_sizes: Vec<String>,
    /// Extended sizes (they do not score).
    pub extended_sizes: Vec<String>,
    /// Default size.
    pub default_size: String,
    /// Program it is compatible with.
    pub compatible_with: String,
}

/// Description of a suite.
#[derive(Clone, Debug)]
pub struct SuiteInfo {
    /// Name of the preset.
    pub name: String,
    /// Default repetitions.
    pub repeat: u32,
    /// Labels of the jobs expanded for this machine.
    pub jobs: Vec<String>,
}

/// Catalog of modules and suites.
#[derive(Clone, Debug)]
pub struct Catalog {
    /// Modules.
    pub modules: Vec<ModuleInfo>,
    /// Suites.
    pub suites: Vec<SuiteInfo>,
}

/// `(title, description, compatible with, default size)` of each module.
pub open spec fn module_texts(m: Module) -> (Seq<char>, Seq<char>, Seq<char>, Seq<char>) {
    match m {
        Module::Pi => ("Pi"@, "Dígitos de Pi por Gauss–Legendre con multiplicación FFT."@,
            "SuperPi"@, "1M"@),
        Module::Radical => ("Radical"@, "Raíces cuadradas de 1..N por Newton–Raphson."@,
            "wPrime"@, "32M"@),
        Module::Zeta => ("Zeta"@, "Primos hasta N con criba de Eratóstenes segmentada."@,
            "propio de GugolPi"@, "10G"@),
    }
}

fn strings_of(v: &Vec<&'static str>) -> (r: Vec<String>)
    ensures
        r@.len() == v@.len(),
        forall|i: int| 0 <= i < r@.len() ==> (#[trigger] r@[i])@ == v@[i]@,
{
    let mut out: Vec<String> = Vec::new();
    let mut i: usize = 0;
    while i < v.len()
        invariant
            i <= v@.len(),
            out@.len() == i,
            forall|k: int| 0 <= k < i ==> (#[trigger] out@[k])@ == v@[k]@,
        decreases v@.len() - i,
    {
        out.push(String::from_str(v[i]));
        i += 1;
    }
    out
}

fn module_info(m: Module) -> (r: ModuleInfo)
    ensures
        r.name@ == module_name(m),
        r.title@ == module_texts(m).0,
        r.description@ == module_texts(m).1,
        r.compatible_with@ == module_texts(m).2,
        r.default_size@ == module_texts(m).3,
        describes_module(r, m),
{
    let (title, description, compatible_with, default_size) = match m {
        Module::Pi => (
            "Pi",
            "Dígitos de Pi por Gauss–Legendre con multiplicación FFT.",
            "SuperPi",
            "1M",
        ),
        Module::Radical => (
            "Radical",
            "Raíces cuadradas de 1..N por Newton–Raphson.",
            "wPrime",
            "32M",
        ),
        Module::Zeta => (
            "Zeta",
            "Primos hasta N con criba de Eratóstenes segmentada.",
            "propio de GugolPi",
            "10G",
        ),
    };
    let official = m.official_sizes();
    let extended = m.extended_sizes();
    let info = ModuleInfo {
        name: String::from_str(m.name()),
        title: String::from_str(title),
        description: String::from_str(description),
        official_sizes: strings_of(&official),
        extended_sizes: strings_of(&extended),
        default_size: String::from_str(default_size),
        compatible_with: String::from_str(compatible_with),
    };
    proof {
        assert(info.official_sizes@.map_values(|t: String| t@) =~= official@.map_values(
            |s: &str| s@,
        ));
        assert(info.extended_sizes@.map_values(|t: String| t@) =~= extended@.map_values(
            |s: &str| s@,
        ));
    }
    info
}

/// `info` describes module `m`: its name, texts and sizes.
pub open spec fn describes_module(info: ModuleInfo, m: Module) -> bool {
    &&& info.name@ == module_name(m)
    &&& info.title@ == module_texts(m).0
    &&& info.description@ == module_texts(m).1
    &&& info.compatible_with@ == module_texts(m).2
    &&& info.default_size@ == module_texts(m).3
    &&& info.official_sizes@.map_values(|t: String| t@) == official_labels(m)
    &&& info.extended_sizes@.map_values(|t: String| t@) == extended_labels(m)
}

/// `info` describes the embedded preset `name`: its name, its repetitions and the labels of the
/// jobs that its tests expand to on `system`, in order.
pub open spec fn describes_suite(info: SuiteInfo, name: Seq<char>, system: SystemInfo) -> bool {
    &&& info.name@ == name
    &&& info.repeat == 1
    &&& exists|tests: Seq<SuiteTest>, js: Seq<Job>|
        {
            &&& tests.len() == preset_rows(name).len()
            &&& (forall|i: int|
                0 <= i < tests.len() ==> plain_test(
                    #[trigger] tests[i],
                    preset_rows(name)[i].0,
                    preset_rows(name)[i].1,
                    preset_rows(name)[i].2,
                    preset_rows(name)[i].3,
                ))
            &&& jobs_of(tests, tests.len() as int, system, js)
            &&& info.jobs@.map_values(|t: String| t@) == js.map_values(|j: Job| j.label@)
        }
}

/// Catalog of modules and suites for this machine. Every embedded preset expands, so the
/// catalog is always built.
pub fn catalog(state: &AppState) -> (r: Result<Catalog, String>)
    requires
        state.system_card().logical_cpus <= usize::MAX / 2 + 1,
    ensures
        r matches Ok(c) && {
            &&& c.modules@.len() == 3
            &&& forall|i: int|
                0 <= i < 3 ==> describes_module(
                    #[trigger] c.modules@[i],
                    seq![Module::Pi, Module::Radical, Module::Zeta][i],
                )
            &&& c.suites@.len() == preset_list().len()
            &&& forall|k: int|
                0 <= k < c.suites@.len() ==> describes_suite(
                    #[trigger] c.suites@[k],
                    preset_list()[k],
                    state.system_card(),
                )
        },
{
    let all = Module::all();
    let mut modules: Vec<ModuleInfo> = Vec::new();
    let mut i: usize = 0;
    while i < all.len()
        invariant
            all@ == seq![Module::Pi, Module::Radical, Module::Zeta],
            i <= 3,
            modules@.len() == i,
            forall|k: int| 0 <= k < i ==> describes_module(#[trigger] modules@[k], all@[k]),
        decreases 3 - i,
    {
        modules.push(module_info(all[i]));
        i += 1;
    }
    let names = crate::suite::preset_names();
    let mut suites: Vec<SuiteInfo> = Vec::new();
    let mut k: usize = 0;
    while k < names.len()
        invariant
            k <= names@.len(),
            names@.len() == preset_list().len(),
            forall|i: int| 0 <= i < names@.len() ==> (#[trigger] names@[i])@ == preset_list()[i],
            suites@.len() == k,
            state.system_card().logical_cpus <= usize::MAX / 2 + 1,
            forall|q: int|
                0 <= q < k ==> describes_suite(
                    #[trigger] suites@[q],
                    preset_list()[q],
                    state.system_card(),
                ),
        decreases names@.len() - k,
    {
        let name = names[k];
        proof {
            assert(preset_list()[k as int] == name@);
            assert(preset_list().contains(name@));
        }
        let suite = match SuiteFile::preset(name) {
            Some(Ok(s)) => s,
            Some(Err(e)) => {
                return Err(e.message());
            },
            None => {
                let mut m = String::new();
                push_str(&mut m, "preset ");
                push_str(&mut m, name);
                push_str(&mut m, " ausente");
                return Err(m);
            },
        };
        proof {
            assert forall|q: int| 0 <= q < suite.tests@.len() implies #[trigger] test_problem(
                suite.tests@[q],
            ) is None by {
                lemma_preset_tests_valid(name@, q, suite.tests@[q]);
            }
        }
        let jobs = match suite.jobs(&state.system) {
            Ok(j) => j,
            Err(e) => {
                return Err(e.message());
            },
        };
        let mut labels: Vec<String> = Vec::new();
        let mut j: usize = 0;
        while j < jobs.len()
            invariant
                j <= jobs@.len(),
                labels@.len() == j,
                forall|t: int| 0 <= t < j ==> (#[trigger] labels@[t])@ == jobs@[t].label@,
            decreases jobs@.len() - j,
        {
            labels.push(jobs[j].label.clone());
            j += 1;
        }
        let info = SuiteInfo { name: String::from_str(name), repeat: suite.suite.repeat, jobs: labels };
        proof {
            assert(info.jobs@.map_values(|t: String| t@) =~= jobs@.map_values(|j: Job| j.label@));
            assert(describes_suite(info, preset_list()[k as int], state.system_card()));
        }
        suites.push(info);
        k += 1;
    }
    Ok(Catalog { modules, suites })
}

/// How a run of a session ended.
#[derive(Clone, Copy, Debug, PartialEq, Eq, Structural)]
pub enum RunOutcome {
    /// The run finished and its result was saved.
    Saved,
    /// The run finished but its result could not be saved.
    NotSaved,
    /// The run was cancelled.
    Cancelled,
    /// The run failed with another error.
    Failed,
}

/// Where a session stands: the job and the run (from 1) to do next, or its end.
#[derive(Clone, Copy, Debug, PartialEq, Eq, Structural)]
pub enum SessionStep {
    /// Run `run` of job `job` comes next.
    Next {
        /// Index of the job.
        job: usize,
        /// Run of that job, from 1.
        run: u32,
    },
    /// The session is over; `cancelled` says whether it was cancelled.
    Done {
        /// The session was cancelled.
        cancelled: bool,
    },
}

/// The first step of a session of `jobs` jobs.
pub fn session_start(jobs: usize) -> (r: SessionStep)
    ensures
        jobs == 0 ==> r == (SessionStep::Done { cancelled: false }),
        jobs > 0 ==> r == (SessionStep::Next { job: 0, run: 1 }),
{
    if jobs == 0 {
        SessionStep::Done { cancelled: false }
    } else {
        SessionStep::Next { job: 0, run: 1 }
    }
}

/// The step after run `run` of job `job` ended with `outcome`: a cancellation ends the session,
/// another failure moves on to the next job, and otherwise the next run of the same job comes,
/// or the next job once the `repeat` runs are done.
pub fn session_next(job: usize, run: u32, jobs: usize, repeat: u32, outcome: RunOutcome) -> (r:
    SessionStep)
    requires
        job < jobs,
        1 <= run <= repeat,
    ensures
        outcome == RunOutcome::Cancelled ==> r == (SessionStep::Done { cancelled: true }),
        outcome == RunOutcome::Failed ==> r == if job + 1 < jobs {
            (SessionStep::Next { job: (job + 1) as usize, run: 1 })
        } else {
            (SessionStep::Done { cancelled: false })
        },
        (outcome == RunOutcome::Saved || outcome == RunOutcome::NotSaved) ==> r == if run < repeat {
            (SessionStep::Next { job, run: (run + 1) as u32 })
        } else if job + 1 < jobs {
            (SessionStep::Next { job: (job + 1) as usize, run: 1 })
        } else {
            (SessionStep::Done { cancelled: false })
        },
{
    match outcome {
        RunOutcome::Cancelled => SessionStep::Done { cancelled: true },
        RunOutcome::Failed => {
            if job + 1 < jobs {
                SessionStep::Next { job: job + 1, run: 1 }
            } else {
                SessionStep::Done { cancelled: false }
            }
        },
        _ => {
            if run < repeat {
                SessionStep::Next { job, run: run + 1 }
            } else if job + 1 < jobs {
                SessionStep::Next { job: job + 1, run: 1 }
            } else {
                SessionStep::Done { cancelled: false }
            }
        },
    }
}

/// Before each run the session looks at the cancellation token: a cancellation asked for ends
/// the session instead of the run.
pub fn session_gate(step: SessionStep, cancel_requested: bool) -> (r: SessionStep)
    ensures
        cancel_requested && (step is Next) ==> r == (SessionStep::Done { cancelled: true }),
        !(cancel_requested && (step is Next)) ==> r == step,
{
    match step {
        SessionStep::Next { .. } => if cancel_requested {
            SessionStep::Done { cancelled: true }
        } else {
            step
        },
        SessionStep::Done { .. } => step,
    }
}

} // verus!
