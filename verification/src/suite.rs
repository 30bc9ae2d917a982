//! Suites: lists of tests, the embedded presets and their expansion into concrete jobs.
//!
//! The command line and the GUI use this module so that a suite means the same in both.

use vstd::prelude::*;
use vstd::arithmetic::power2::{
    lemma_pow2_pos, lemma_pow2_strictly_increases, lemma_pow2_unfold, pow2,
};

use crate::config::{
    chars_equal, module_name, official_labels, size_spec, threads_count_of, threads_text, Mode, Module, RadicalOptions,
    RunConfig, ThreadCount, Threads,
};
use crate::error::{error_message, Error};
use crate::sysinfo::SystemInfo;
use crate::text::{ascii_lower, chars_of, decimal, is_white, push_decimal, push_str, trim};

verus! {

/// A planned run: readable label and complete configuration.
#[derive(Clone, Debug, PartialEq, Eq)]
pub struct Job {
    /// Label (`pi 1M single`, `radical 32M multi ×8`).
    pub label: String,
    /// Complete configuration.
    pub config: RunConfig,
}

/// Canonical label of a configuration.
pub open spec fn job_label(config: RunConfig) -> Seq<char> {
    match config.mode {
        Mode::Single => module_name(config.module) + " "@ + config.size.label@ + " single"@,
        Mode::Multi => module_name(config.module) + " "@ + config.size.label@ + " multi ×"@
            + threads_text(config.threads),
    }
}

impl Job {
    /// Canonical label of a configuration.
    pub fn label_for(config: &RunConfig) -> (r: String)
        ensures
            r@ == job_label(*config),
    {
        let mut t = String::new();
        push_str(&mut t, config.module.name());
        push_str(&mut t, " ");
        push_str(&mut t, config.size.label.as_str());
        match config.mode {
            Mode::Single => {
                push_str(&mut t, " single");
            },
            Mode::Multi => {
                push_str(&mut t, " multi ×");
                let threads = config.threads.text();
                push_str(&mut t, threads.as_str());
            },
        }
        proof {
            assert(t@ =~= job_label(*config));
        }
        t
    }

    /// A job from a configuration, with its canonical label.
    pub fn from_config(config: RunConfig) -> (r: Job)
        ensures
            r.config == config,
            r.label@ == job_label(config),
    {
        let label = Job::label_for(&config);
        Job { label, config }
    }
}

/// The powers of two from `p` on that stay below `max`.
pub open spec fn powers_below(p: nat, max: nat) -> Seq<nat>
    decreases (if p < max {
        max - p
    } else {
        0
    }),
{
    if p == 0 || p >= max {
        Seq::empty()
    } else {
        seq![p].add(powers_below(2 * p, max))
    }
}

/// Thread counts of the scaling sweep on `logical` CPUs: 1, 2, 4 … below the CPU count, then
/// the CPU count itself.
pub open spec fn scaling_counts(logical: usize) -> Seq<nat> {
    let max: nat = if logical >= 1 {
        logical as nat
    } else {
        1
    };
    powers_below(1, max).push(max)
}

/// `job` is the sweep job of `base` with `count` threads.
pub open spec fn is_sweep_job(base: RunConfig, job: Job, count: nat) -> bool {
    &&& job.config.module == base.module
    &&& job.config.size == base.size
    &&& job.config.affinity == base.affinity
    &&& job.config.radical == base.radical
    &&& job.config.mode == Mode::Multi
    &&& job.config.threads matches Threads::Count(c) && c.value() == count
    &&& job.label@ == job_label(job.config)
}

/// Configurations of the scaling sweep: 1, 2, 4 … threads up to the logical CPUs (included).
pub fn scaling_jobs(base: &RunConfig, system: &SystemInfo) -> (r: Vec<Job>)
    requires
        system.logical_cpus <= usize::MAX / 2 + 1,
    ensures
        r@.len() == scaling_counts(system.logical_cpus).len(),
        forall|i: int|
            0 <= i < r@.len() ==> is_sweep_job(*base, #[trigger] r@[i], scaling_counts(
                system.logical_cpus,
            )[i]),
{
    let max: usize = if system.logical_cpus >= 1 {
        system.logical_cpus
    } else {
        1
    };
    let ghost counts = scaling_counts(system.logical_cpus);
    let mut jobs: Vec<Job> = Vec::new();
    let mut n: usize = 1;
    while n < max
        invariant
            max >= 1,
            max <= usize::MAX / 2 + 1,
            max == (if system.logical_cpus >= 1 {
                system.logical_cpus as nat
            } else {
                1nat
            }),
            counts == scaling_counts(system.logical_cpus),
            1 <= n,
            n < max ==> 2 * n <= usize::MAX,
            powers_below(1, max as nat) == Seq::new(jobs@.len() as nat, |i: int| counts[i]).add(
                powers_below(n as nat, max as nat),
            ),
            jobs@.len() < counts.len(),
            forall|i: int|
                0 <= i < jobs@.len() ==> is_sweep_job(*base, #[trigger] jobs@[i], counts[i]),
        decreases (if n < max {
            max - n
        } else {
            0
        }),
    {
        let ghost before = jobs@;
        let job = sweep_job(base, n);
        jobs.push(job);
        proof {
            assert(powers_below(n as nat, max as nat) == seq![n as nat].add(
                powers_below(2 * n as nat, max as nat),
            ));
            assert(Seq::new(jobs@.len() as nat, |i: int| counts[i]) =~= Seq::new(
                before.len() as nat,
                |i: int| counts[i],
            ).push(n as nat));
            assert(powers_below(1, max as nat) =~= Seq::new(jobs@.len() as nat, |i: int| counts[i]).add(
                powers_below(2 * n as nat, max as nat),
            ));
            assert(counts[before.len() as int] == n) by {
                assert(powers_below(1, max as nat)[before.len() as int] == n);
            }
            assert(jobs@.len() < counts.len()) by {
                assert(powers_below(1, max as nat).len() >= jobs@.len());
            }
        }
        n = n * 2;
    }
    proof {
        assert(powers_below(n as nat, max as nat) == Seq::<nat>::empty());
        assert(powers_below(1, max as nat) =~= Seq::new(jobs@.len() as nat, |i: int| counts[i]));
        assert(counts.len() == jobs@.len() + 1);
        assert(counts[jobs@.len() as int] == max);
    }
    let job = sweep_job(base, max);
    jobs.push(job);
    jobs
}

/// The sweep job of `base` with `n` threads.
fn sweep_job(base: &RunConfig, n: usize) -> (r: Job)
    requires
        n >= 1,
    ensures
        is_sweep_job(*base, r, n as nat),
{
    let count = ThreadCount::new(n).unwrap();
    let config = RunConfig {
        module: base.module,
        size: base.size.clone(),
        mode: Mode::Multi,
        threads: Threads::Count(count),
        affinity: base.affinity,
        radical: base.radical,
    };
    Job::from_config(config)
}

/// Suite file.
#[derive(Clone, Debug)]
pub struct SuiteFile {
    /// Header.
    pub suite: SuiteMeta,
    /// Tests, in order.
    pub tests: Vec<SuiteTest>,
}

/// The `[suite]` header.
#[derive(Clone, Debug)]
pub struct SuiteMeta {
    /// Name.
    pub name: String,
    /// Default repetitions of each test.
    pub repeat: u32,
}

/// One `[[test]]` entry.
#[derive(Clone, Debug)]
pub struct SuiteTest {
    /// `pi`, `radical` or `zeta`.
    pub module: String,
    /// Size with the units of the module.
    pub size: String,
    /// `single` (default) or `multi`.
    pub mode: Option<String>,
    /// `auto`, `physical` or a number.
    pub threads: Option<String>,
    /// Pin threads to cores.
    pub affinity: bool,
    /// Radical: static split.
    pub static_split: bool,
    /// A scaling sweep in place of one run.
    pub scaling: bool,
    /// Optional label for the summary.
    pub label: Option<String>,
}

/// A word as the parsers read it: trimmed and in ASCII lower case.
pub open spec fn word(s: Seq<char>) -> Seq<char> {
    ascii_lower(trim(s))
}

/// The module a text names.
pub open spec fn module_named(s: Seq<char>) -> Option<Module> {
    if word(s) == "pi"@ {
        Some(Module::Pi)
    } else if word(s) == "radical"@ {
        Some(Module::Radical)
    } else if word(s) == "zeta"@ {
        Some(Module::Zeta)
    } else {
        None
    }
}

/// The mode a text names.
pub open spec fn mode_named(s: Seq<char>) -> Option<Mode> {
    if word(s) == "single"@ {
        Some(Mode::Single)
    } else if word(s) == "multi"@ {
        Some(Mode::Multi)
    } else {
        None
    }
}

/// `true` when a text names a thread request.
pub open spec fn threads_valid(s: Seq<char>) -> bool {
    word(s) == "auto"@ || word(s) == "physical"@ || threads_count_of(word(s)) is Some
}

/// `t` is the thread request that the text names.
pub open spec fn threads_named(t: Threads, s: Seq<char>) -> bool {
    if word(s) == "auto"@ {
        t == Threads::Auto
    } else if word(s) == "physical"@ {
        t == Threads::Physical
    } else {
        t matches Threads::Count(c) && threads_count_of(word(s)) == Some(c.value())
    }
}

/// What is wrong with a test, as `what: message`, or `None` when it is valid.
pub open spec fn test_problem(test: SuiteTest) -> Option<Seq<char>> {
    match module_named(test.module@) {
        None => Some("módulo"@ + ": "@ + "configuración no válida: "@ + "módulo desconocido «"@
            + word(test.module@) + "»"@),
        Some(m) => if size_spec(m, test.size@) is None {
            Some("tamaño"@ + ": "@ + "tamaño desconocido «"@ + test.size@ + "» para el módulo "@
                + module_name(m))
        } else if test.mode matches Some(t) && mode_named(t@) is None {
            Some("modo"@ + ": "@ + "configuración no válida: "@ + "modo desconocido «"@ + word(
                test.mode->0@,
            ) + "»"@)
        } else if test.threads matches Some(t) && !threads_valid(t@) {
            Some("hilos"@ + ": "@ + "configuración no válida: "@ + "hilos no válidos «"@ + word(
                test.threads->0@,
            ) + "»"@)
        } else {
            None
        },
    }
}

/// `config` holds what `test` asks for, but for the mode and the threads.
pub open spec fn test_base(test: SuiteTest, config: RunConfig) -> bool {
    &&& module_named(test.module@) == Some(config.module)
    &&& size_spec(config.module, test.size@) matches Some((label, value, official))
        && config.size.label@ == label && config.size.value == value && config.size.official
        == official
    &&& config.affinity == test.affinity
    &&& config.radical.static_split == test.static_split
}

/// `config` holds everything that `test` asks for.
pub open spec fn test_config(test: SuiteTest, config: RunConfig) -> bool {
    &&& test_base(test, config)
    &&& match test.mode {
        Some(m) => mode_named(m@) == Some(config.mode),
        None => config.mode == Mode::Single,
    }
    &&& match test.threads {
        Some(t) => threads_named(config.threads, t@),
        None => config.threads == Threads::Auto,
    }
}

/// `js` are the jobs that `test` expands to on `system`.
pub open spec fn expands(test: SuiteTest, system: SystemInfo, js: Seq<Job>) -> bool {
    if test.scaling {
        let counts = scaling_counts(system.logical_cpus);
        &&& js.len() == counts.len()
        &&& forall|i: int|
            0 <= i < js.len() ==> test_base(test, (#[trigger] js[i]).config) && is_sweep_job(
                js[i].config,
                js[i],
                counts[i],
            )
    } else {
        &&& js.len() == 1
        &&& test_config(test, js[0].config)
        &&& js[0].label@ == match test.label {
            Some(l) => l@,
            None => job_label(js[0].config),
        }
    }
}

/// `js` are the jobs of the first `k` tests, in order.
pub open spec fn jobs_of(tests: Seq<SuiteTest>, k: int, system: SystemInfo, js: Seq<Job>) -> bool
    decreases k,
{
    if k <= 0 {
        js.len() == 0
    } else {
        exists|cut: int|
            0 <= cut <= js.len() && jobs_of(tests, k - 1, system, js.take(cut)) && expands(
                tests[k - 1],
                system,
                js.skip(cut),
            )
    }
}

/// Message when a suite has no test.
pub open spec fn empty_suite_message(name: Seq<char>) -> Seq<char> {
    "la suite «"@ + name + "» no tiene ningún [[test]]"@
}

impl SuiteFile {
    /// Accepts the suite when it has at least one test.
    pub fn require_tests(self) -> (r: Result<SuiteFile, Error>)
        ensures
            self.tests@.len() > 0 ==> (r matches Ok(s) && s.tests@ == self.tests@ && s.suite.name@
                == self.suite.name@ && s.suite.repeat == self.suite.repeat),
            self.tests@.len() == 0 ==> (r matches Err(Error::InvalidConfig(m)) && m@
                == empty_suite_message(self.suite.name@)),
    {
        if self.tests.len() == 0 {
            let mut m = String::new();
            push_str(&mut m, "la suite «");
            push_str(&mut m, self.suite.name.as_str());
            push_str(&mut m, "» no tiene ningún [[test]]");
            proof {
                assert(m@ =~= empty_suite_message(self.suite.name@));
            }
            return Err(Error::InvalidConfig(m));
        }
        Ok(self)
    }

    /// Expands the tests into concrete jobs for this machine. A test that names an unknown
    /// module, size, mode or thread request stops the expansion with an error that says which
    /// test and what.
    pub fn jobs(&self, system: &SystemInfo) -> (r: Result<Vec<Job>, Error>)
        requires
            system.logical_cpus <= usize::MAX / 2 + 1,
        ensures
            (forall|k: int| 0 <= k < self.tests@.len() ==> #[trigger] test_problem(self.tests@[k])
                is None) ==> (r matches Ok(v) && jobs_of(
                self.tests@,
                self.tests@.len() as int,
                *system,
                v@,
            )),
            forall|k: int|
                0 <= k < self.tests@.len() && #[trigger] test_problem(self.tests@[k]) is Some && (
                forall|j: int| 0 <= j < k ==> test_problem(self.tests@[j]) is None) ==> (
                r matches Err(Error::InvalidConfig(m)) && m@ == "test "@ + decimal((k + 1) as nat)
                    + ": "@ + test_problem(self.tests@[k])->0),
    {
        let mut jobs: Vec<Job> = Vec::new();
        let mut index: usize = 0;
        while index < self.tests.len()
            invariant
                index <= self.tests@.len(),
                system.logical_cpus <= usize::MAX / 2 + 1,
                forall|j: int| 0 <= j < index ==> #[trigger] test_problem(self.tests@[j]) is None,
                jobs_of(self.tests@, index as int, *system, jobs@),
            decreases self.tests@.len() - index,
        {
            let test = &self.tests[index];
            let position = (index + 1) as u64;
            match expand_test(test, system) {
                Ok(expanded) => {
                    let mut expanded = expanded;
                    let ghost before = jobs@;
                    let ghost added = expanded@;
                    jobs.append(&mut expanded);
                    proof {
                        assert(jobs@.take(before.len() as int) =~= before);
                        assert(jobs@.skip(before.len() as int) =~= added);
                        assert(jobs_of(self.tests@, index + 1, *system, jobs@));
                    }
                },
                Err(what) => {
                    let mut m = String::new();
                    push_str(&mut m, "test ");
                    push_decimal(&mut m, position);
                    push_str(&mut m, ": ");
                    push_str(&mut m, what.as_str());
                    proof {
                        assert(m@ =~= "test "@ + decimal((index + 1) as nat) + ": "@ + test_problem(
                            self.tests@[index as int],
                        )->0);
                    }
                    return Err(Error::InvalidConfig(m));
                },
            }
            index += 1;
        }
        Ok(jobs)
    }
}

/// `what: message` for a failure in the part `what` of a test.
fn problem(what: &str, e: Error) -> (r: String)
    ensures
        r@ == what@ + ": "@ + error_message(e),
{
    let mut t = String::new();
    push_str(&mut t, what);
    push_str(&mut t, ": ");
    let m = e.message();
    push_str(&mut t, m.as_str());
    t
}

/// The jobs of one test, or what is wrong with it.
fn expand_test(test: &SuiteTest, system: &SystemInfo) -> (r: Result<Vec<Job>, String>)
    requires
        system.logical_cpus <= usize::MAX / 2 + 1,
    ensures
        test_problem(*test) is None ==> (r matches Ok(v) && expands(*test, *system, v@)),
        test_problem(*test) matches Some(p) ==> (r matches Err(w) && w@ == p),
{
    let module = match Module::parse(test.module.as_str()) {
        Ok(m) => m,
        Err(e) => {
            let p = problem("módulo", e);
            proof {
                assert(p@ =~= test_problem(*test)->0);
            }
            return Err(p);
        },
    };
    let mut config = match RunConfig::new(module, test.size.as_str()) {
        Ok(c) => c,
        Err(e) => {
            let p = problem("tamaño", e);
            proof {
                assert(p@ =~= test_problem(*test)->0);
            }
            return Err(p);
        },
    };
    config.mode = match &test.mode {
        Some(mode) => match Mode::parse(mode.as_str()) {
            Ok(m) => m,
            Err(e) => {
                let p = problem("modo", e);
                proof {
                    assert(p@ =~= test_problem(*test)->0);
                }
                return Err(p);
            },
        },
        None => Mode::Single,
    };
    config.threads = match &test.threads {
        Some(t) => match Threads::parse(t.as_str()) {
            Ok(th) => th,
            Err(e) => {
                let p = problem("hilos", e);
                proof {
                    assert(p@ =~= test_problem(*test)->0);
                }
                return Err(p);
            },
        },
        None => Threads::Auto,
    };
    config.affinity = test.affinity;
    config.radical = RadicalOptions { static_split: test.static_split };
    proof {
        assert(test_problem(*test) is None);
        assert(test_config(*test, config));
    }
    if test.scaling {
        let v = scaling_jobs(&config, system);
        proof {
            assert forall|i: int| 0 <= i < v@.len() implies test_base(*test, (#[trigger] v@[i]).config)
                && is_sweep_job(v@[i].config, v@[i], scaling_counts(system.logical_cpus)[i]) by {
                assert(is_sweep_job(config, v@[i], scaling_counts(system.logical_cpus)[i]));
            }
        }
        Ok(v)
    } else {
        let mut job = Job::from_config(config);
        match &test.label {
            Some(label) => {
                job.label = label.clone();
            },
            None => {},
        }
        let mut v: Vec<Job> = Vec::new();
        v.push(job);
        Ok(v)
    }
}

/// `t` is the plain test `module size` in `mode` (single when `None`), as a sweep when
/// `scaling`, with every other field at its default.
pub open spec fn plain_test(
    t: SuiteTest,
    module: Seq<char>,
    size: Seq<char>,
    mode: Option<Seq<char>>,
    scaling: bool,
) -> bool {
    &&& t.module@ == module
    &&& t.size@ == size
    &&& match mode {
        Some(m) => t.mode matches Some(tm) && tm@ == m,
        None => t.mode is None,
    }
    &&& t.threads is None
    &&& !t.affinity
    &&& !t.static_split
    &&& t.scaling == scaling
    &&& t.label is None
}

/// Names of the embedded presets.
pub open spec fn preset_list() -> Seq<Seq<char>> {
    seq!["classic"@, "trio"@, "full"@]
}

/// Tests of each embedded preset: `(module, size, mode, scaling)`.
pub open spec fn preset_rows(name: Seq<char>) -> Seq<(Seq<char>, Seq<char>, Option<Seq<char>>, bool)> {
    if name == "classic"@ {
        seq![
            ("pi"@, "1M"@, None, false),
            ("pi"@, "32M"@, None, false),
            ("radical"@, "32M"@, None, false),
            ("radical"@, "1024M"@, None, false),
        ]
    } else if name == "trio"@ {
        seq![("pi"@, "1M"@, None, false), ("radical"@, "32M"@, None, false), ("zeta"@, "10G"@, None, false)]
    } else {
        seq![
            ("pi"@, "1M"@, None, false),
            ("pi"@, "1M"@, Some("multi"@), false),
            ("radical"@, "32M"@, None, false),
            ("radical"@, "32M"@, Some("multi"@), false),
            ("zeta"@, "1G"@, None, false),
            ("zeta"@, "1G"@, Some("multi"@), false),
            ("radical"@, "32M"@, None, true),
        ]
    }
}

fn plain(module: &str, size: &str, mode: Option<&str>, scaling: bool) -> (r: SuiteTest)
    ensures
        plain_test(
            r,
            module@,
            size@,
            match mode {
                Some(m) => Some(m@),
                None => None,
            },
            scaling,
        ),
{
    SuiteTest {
        module: String::from_str(module),
        size: String::from_str(size),
        mode: match mode {
            Some(m) => Some(String::from_str(m)),
            None => None,
        },
        threads: None,
        affinity: false,
        static_split: false,
        scaling,
        label: None,
    }
}

/// Names of the embedded presets, in order.
pub fn preset_names() -> (r: Vec<&'static str>)
    ensures
        r@.len() == preset_list().len(),
        forall|i: int| 0 <= i < r@.len() ==> (#[trigger] r@[i])@ == preset_list()[i],
{
    let mut v: Vec<&'static str> = Vec::new();
    v.push("classic");
    v.push("trio");
    v.push("full");
    v
}

/// Message when a name is neither a preset nor a file.
pub open spec fn unknown_source_message(name: Seq<char>) -> Seq<char> {
    "«"@ + name + "» no es un preset (classic, trio, full) ni un fichero existente"@
}

impl SuiteFile {
    /// An embedded preset, by name.
    pub fn preset(name: &str) -> (r: Option<Result<SuiteFile, Error>>)
        ensures
            !preset_list().contains(name@) ==> r is None,
            preset_list().contains(name@) ==> (r matches Some(Ok(f)) && f.suite.name@ == name@
                && f.suite.repeat == 1 && f.tests@.len() == preset_rows(name@).len() && forall|
                i: int,
            |
                0 <= i < f.tests@.len() ==> plain_test(
                    #[trigger] f.tests@[i],
                    preset_rows(name@)[i].0,
                    preset_rows(name@)[i].1,
                    preset_rows(name@)[i].2,
                    preset_rows(name@)[i].3,
                )),
    {
        proof {
            reveal_strlit("classic");
            reveal_strlit("trio");
            reveal_strlit("full");
            assert("classic"@.len() == 7 && "trio"@.len() == 4 && "full"@.len() == 4);
            assert("trio"@[0] == 't' && "full"@[0] == 'f');
            assert("classic"@ != "trio"@ && "classic"@ != "full"@ && "trio"@ != "full"@);
            assert(preset_list().contains(name@) <==> (name@ == "classic"@ || name@ == "trio"@
                || name@ == "full"@)) by {
                if name@ == "classic"@ {
                    assert(preset_list()[0] == name@);
                }
                if name@ == "trio"@ {
                    assert(preset_list()[1] == name@);
                }
                if name@ == "full"@ {
                    assert(preset_list()[2] == name@);
                }
            }
        }
        let mut tests: Vec<SuiteTest> = Vec::new();
        let given = chars_of(name);
        if chars_equal(&given, "classic") {
            tests.push(plain("pi", "1M", None, false));
            tests.push(plain("pi", "32M", None, false));
            tests.push(plain("radical", "32M", None, false));
            tests.push(plain("radical", "1024M", None, false));
        } else if chars_equal(&given, "trio") {
            tests.push(plain("pi", "1M", None, false));
            tests.push(plain("radical", "32M", None, false));
            tests.push(plain("zeta", "10G", None, false));
        } else if chars_equal(&given, "full") {
            tests.push(plain("pi", "1M", None, false));
            tests.push(plain("pi", "1M", Some("multi"), false));
            tests.push(plain("radical", "32M", None, false));
            tests.push(plain("radical", "32M", Some("multi"), false));
            tests.push(plain("zeta", "1G", None, false));
            tests.push(plain("zeta", "1G", Some("multi"), false));
            tests.push(plain("radical", "32M", None, true));
        } else {
            return None;
        }
        let suite = SuiteFile {
            suite: SuiteMeta { name: String::from_str(name), repeat: 1 },
            tests,
        };
        Some(suite.require_tests())
    }

    /// The error when `name` is neither a preset nor an existing file.
    pub fn unknown_source(name: &str) -> (r: Error)
        ensures
            r matches Error::InvalidConfig(m) && m@ == unknown_source_message(name@),
    {
        let mut m = String::new();
        push_str(&mut m, "«");
        push_str(&mut m, name);
        push_str(&mut m, "» no es un preset (");
        let names = preset_names();
        let mut i: usize = 0;
        while i < names.len()
            invariant
                i <= names@.len(),
                names@.len() == 3,
                forall|k: int| 0 <= k < names@.len() ==> (#[trigger] names@[k])@ == preset_list()[k],
                m@ == "«"@ + name@ + "» no es un preset ("@ + joined(preset_list(), i as int),
            decreases names@.len() - i,
        {
            if i > 0 {
                push_str(&mut m, ", ");
            }
            push_str(&mut m, names[i]);
            proof {
                assert(joined(preset_list(), i + 1) =~= joined(preset_list(), i as int) + (if i > 0 {
                    ", "@
                } else {
                    Seq::empty()
                }) + preset_list()[i as int]);
            }
            i += 1;
        }
        push_str(&mut m, ") ni un fichero existente");
        proof {
            reveal_strlit("classic");
            reveal_strlit("trio");
            reveal_strlit("full");
            reveal_strlit(", ");
            reveal_strlit("» no es un preset (");
            reveal_strlit(") ni un fichero existente");
            reveal_strlit("» no es un preset (classic, trio, full) ni un fichero existente");
            assert(joined(preset_list(), 1) =~= "classic"@);
            assert(joined(preset_list(), 2) =~= "classic"@ + ", "@ + "trio"@);
            assert(joined(preset_list(), 3) =~= "classic"@ + ", "@ + "trio"@ + ", "@ + "full"@);
            assert(m@ =~= unknown_source_message(name@));
        }
        Error::InvalidConfig(m)
    }
}

/// The first `k` words joined by `, `.
pub open spec fn joined(words: Seq<Seq<char>>, k: int) -> Seq<char>
    decreases k,
{
    if k <= 0 {
        Seq::empty()
    } else if k == 1 {
        words[0]
    } else {
        joined(words, k - 1) + ", "@ + words[k - 1]
    }
}

/// A thread request reads back from its text: `auto`, `physical` and every positive count
/// parse to the request that printed them.
pub proof fn lemma_threads_text_round_trip(t: Threads)
    requires
        t matches Threads::Count(c) ==> c.value() >= 1,
    ensures
        threads_valid(threads_text(t)),
        threads_named(t, threads_text(t)),
{
    reveal_strlit("auto");
    reveal_strlit("physical");
    match t {
        Threads::Auto => {
            let s = "auto"@;
            assert(forall|i: int| 0 <= i < s.len() ==> !is_white(#[trigger] s[i]));
            crate::text::lemma_trim_keeps(s);
            assert(ascii_lower(s) =~= s);
            assert(word(s) == s);
        },
        Threads::Physical => {
            let s = "physical"@;
            assert(forall|i: int| 0 <= i < s.len() ==> !is_white(#[trigger] s[i]));
            crate::text::lemma_trim_keeps(s);
            assert(ascii_lower(s) =~= s);
            assert(word(s) == s);
        },
        Threads::Count(c) => {
            c.lemma_value_fits();
            let n = c.value();
            crate::text::lemma_decimal_word(n);
            crate::text::lemma_decimal_reads_back(n);
            assert(decimal(n)[0] != "auto"@[0]);
            assert(decimal(n)[0] != "physical"@[0]);
            assert(word(decimal(n)) == decimal(n));
        },
    }
}


/// A word of lower-case ASCII letters reads as itself.
proof fn lemma_word_of_letters(s: Seq<char>)
    requires
        forall|i: int| 0 <= i < s.len() ==> 97 <= #[trigger] s[i] as int <= 122,
    ensures
        word(s) == s,
{
    assert(forall|i: int| 0 <= i < s.len() ==> !is_white(#[trigger] s[i]));
    crate::text::lemma_trim_keeps(s);
    assert(ascii_lower(s) =~= s);
}

/// An official size is accepted by its module.
proof fn lemma_official_accepted(m: Module, k: int)
    requires
        0 <= k < official_labels(m).len(),
    ensures
        size_spec(m, official_labels(m)[k]) is Some,
{
    crate::config::lemma_listed_sizes(m);
    assert(size_spec(m, official_labels(m)[k]) is Some);
}

/// Every test of every embedded preset is valid: it names a known module, a size that the
/// module accepts and, where it has one, a known mode.
pub proof fn lemma_preset_tests_valid(name: Seq<char>, i: int, t: SuiteTest)
    requires
        preset_list().contains(name),
        0 <= i < preset_rows(name).len(),
        plain_test(
            t,
            preset_rows(name)[i].0,
            preset_rows(name)[i].1,
            preset_rows(name)[i].2,
            preset_rows(name)[i].3,
        ),
    ensures
        test_problem(t) is None,
{
    reveal_strlit("pi");
    reveal_strlit("radical");
    reveal_strlit("zeta");
    reveal_strlit("multi");
    reveal_strlit("single");
    reveal_strlit("1M");
    reveal_strlit("32M");
    reveal_strlit("1024M");
    reveal_strlit("1G");
    reveal_strlit("10G");
    lemma_word_of_letters("pi"@);
    lemma_word_of_letters("radical"@);
    lemma_word_of_letters("zeta"@);
    lemma_word_of_letters("multi"@);
    assert("pi"@ != "radical"@ && "pi"@ != "zeta"@ && "radical"@ != "zeta"@);
    assert("multi"@ != "single"@);
    assert(official_labels(Module::Pi)[6] == "1M"@);
    assert(official_labels(Module::Pi)[11] == "32M"@);
    assert(official_labels(Module::Radical)[0] == "32M"@);
    assert(official_labels(Module::Radical)[1] == "1024M"@);
    assert(official_labels(Module::Zeta)[0] == "1G"@);
    assert(official_labels(Module::Zeta)[1] == "10G"@);
    lemma_official_accepted(Module::Pi, 6);
    lemma_official_accepted(Module::Pi, 11);
    lemma_official_accepted(Module::Radical, 0);
    lemma_official_accepted(Module::Radical, 1);
    lemma_official_accepted(Module::Zeta, 0);
    lemma_official_accepted(Module::Zeta, 1);
    assert(preset_list().contains(name) ==> (name == "classic"@ || name == "trio"@ || name
        == "full"@));
}

/// From `2^j` on, the powers of two below `max` are `2^j, 2^(j+1), …`, each below `max`, and
/// none of them is left out.
proof fn lemma_powers_below(j: nat, max: nat)
    ensures
        forall|i: int|
            0 <= i < powers_below(pow2(j), max).len() ==> #[trigger] powers_below(pow2(j), max)[i]
                == pow2((j + i) as nat) && pow2((j + i) as nat) < max,
        forall|k: nat|
            k >= j && #[trigger] pow2(k) < max ==> k - j < powers_below(pow2(j), max).len(),
    decreases (if pow2(j) < max {
        max - pow2(j)
    } else {
        0
    }),
{
    lemma_pow2_pos(j);
    lemma_pow2_unfold(j + 1);
    assert(pow2(j + 1) == 2 * pow2(j));
    if pow2(j) >= max {
        assert forall|k: nat| k >= j && #[trigger] pow2(k) < max implies k - j < powers_below(
            pow2(j),
            max,
        ).len() by {
            if k > j {
                lemma_pow2_strictly_increases(j, k);
            }
        }
    } else {
        lemma_powers_below(j + 1, max);
        let whole = powers_below(pow2(j), max);
        let rest = powers_below(pow2(j + 1), max);
        assert(whole == seq![pow2(j)].add(rest));
        assert forall|i: int| 0 <= i < whole.len() implies #[trigger] whole[i] == pow2(
            (j + i) as nat,
        ) && pow2((j + i) as nat) < max by {
            if i > 0 {
                assert(whole[i] == rest[i - 1]);
                assert((j + 1 + (i - 1)) as nat == (j + i) as nat);
            }
        }
        assert forall|k: nat| k >= j && #[trigger] pow2(k) < max implies k - j < whole.len() by {
            if k > j {
                assert(k >= j + 1);
            }
        }
    }
}

/// The scaling sweep on `logical` CPUs runs with 1, 2, 4 … threads, every power of two below
/// the CPU count (at least one) in increasing order with none left out, and then with the CPU
/// count itself.
pub proof fn lemma_scaling_counts(logical: usize)
    ensures
        ({
            let c = scaling_counts(logical);
            let m: nat = if logical >= 1 {
                logical as nat
            } else {
                1
            };
            &&& c.len() >= 1
            &&& c.last() == m
            &&& forall|i: int| 0 <= i < c.len() - 1 ==> #[trigger] c[i] == pow2(i as nat) && c[i] < m
            &&& forall|k: nat| #[trigger] pow2(k) < m ==> (k as int) < c.len() - 1 && c[k as int]
                == pow2(k) && c.contains(pow2(k))
            &&& forall|i: int, j: int| 0 <= i < j < c.len() ==> c[i] < c[j]
        }),
{
    let m: nat = if logical >= 1 {
        logical as nat
    } else {
        1
    };
    let c = scaling_counts(logical);
    let p = powers_below(1, m);
    assert(pow2(0) == 1) by {
        vstd::arithmetic::power2::lemma2_to64();
    }
    lemma_powers_below(0, m);
    assert(c == p.push(m));
    assert forall|i: int| 0 <= i < c.len() - 1 implies #[trigger] c[i] == pow2(i as nat) && c[i]
        < m by {
        assert(c[i] == p[i]);
        assert((0 + i) as nat == i as nat);
    }
    assert forall|k: nat| #[trigger] pow2(k) < m implies (k as int) < c.len() - 1 && c[k as int]
        == pow2(k) && c.contains(pow2(k)) by {
        assert(k - 0 < p.len());
        assert(c[k as int] == p[k as int]);
        assert((0 + k) as nat == k);
    }
    assert forall|i: int, j: int| 0 <= i < j < c.len() implies c[i] < c[j] by {
        if j < c.len() - 1 {
            assert(c[i] == pow2(i as nat) && c[j] == pow2(j as nat));
            lemma_pow2_strictly_increases(i as nat, j as nat);
        } else {
            assert(c[i] == pow2(i as nat) && c[i] < m);
        }
    }
}

} // verus!
