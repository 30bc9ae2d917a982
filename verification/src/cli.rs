//! The command line: its arguments as plain values, how they become configurations and jobs,
//! and the exit codes of the process.

use vstd::prelude::*;

use crate::config::{size_spec, Mode, Module, RadicalOptions, RunConfig, Threads};
use crate::error::{error_message, Error};
use crate::result::VerificationStatus;
use crate::suite::{
    is_sweep_job, job_label, mode_named, scaling_counts, scaling_jobs, threads_named, threads_valid,
    word, Job,
};
use crate::sysinfo::SystemInfo;

verus! {

/// The whole command line.
#[derive(Clone, Debug)]
pub struct Cli {
    /// Options common to every command.
    pub global: GlobalArgs,
    /// Command to run.
    pub command: Command,
}

/// Common options.
#[derive(Clone, Debug)]
pub struct GlobalArgs {
    /// Print the result as JSON on stdout instead of the readable summary.
    pub json: bool,
    /// Show neither progress nor summary (useful with `--json` or `--out`).
    pub quiet: bool,
    /// Directory where to save one JSON file per run.
    pub out: Option<String>,
}

/// Subcommands.
#[derive(Clone, Debug)]
pub enum Command {
    /// Digits of Pi by Gauss–Legendre (compatible with SuperPi 16K–32M).
    Pi(PiArgs),
    /// Square roots of 1..N by Newton (compatible with wPrime 32M / 1024M).
    Radical(RadicalArgs),
    /// Primes up to N by a segmented sieve (GugolPi's own: 1G, 10G official).
    Zeta(ZetaArgs),
    /// Runs a suite: a preset (classic, trio, full) or a TOML file.
    Suite(SuiteArgs),
    /// System card.
    Sysinfo(SysinfoArgs),
    /// Compares result files.
    Compare(CompareArgs),
}

/// Options shared by the benchmark modules.
#[derive(Clone, Copy, Debug)]
pub struct RunArgs {
    /// Execution mode.
    pub mode: Mode,
    /// Threads in multi mode: `auto` (logical CPUs), `physical` (physical cores) or a number.
    pub threads: Threads,
    /// Pin each thread to a core.
    pub affinity: bool,
    /// Repeat each run N times and report best, mean and deviation.
    pub repeat: u32,
    /// Scaling sweep: runs with 1, 2, 4 … threads up to the logical CPUs and shows the speedup.
    /// Ignores `--mode` and `--threads`.
    pub scaling: bool,
}

/// Arguments of `gugolpi pi`.
#[derive(Clone, Debug)]
pub struct PiArgs {
    /// Size: `16K`, `32K`, … `1M`, … `32M` (official, as SuperPi).
    pub size: String,
    /// Save the computed digits to this file (outside the measured time).
    pub save_digits: Option<String>,
    /// Common run options. In multi mode each thread is an independent instance.
    pub run: RunArgs,
}

/// Arguments of `gugolpi radical`.
#[derive(Clone, Debug)]
pub struct RadicalArgs {
    /// Size: `32M`, `1024M` (official), `128M`, `4096M` or a free N.
    pub size: String,
    /// Static split (a contiguous range per thread) instead of the dynamic queue. Does not score.
    pub static_split: bool,
    /// Common run options.
    pub run: RunArgs,
}

/// Arguments of `gugolpi zeta`.
#[derive(Clone, Debug)]
pub struct ZetaArgs {
    /// Size: `1G`, `10G` (official), `100M`, `100G` (extended) or a free N.
    pub size: String,
    /// Common run options.
    pub run: RunArgs,
}

/// Arguments of `gugolpi suite`.
#[derive(Clone, Debug)]
pub struct SuiteArgs {
    /// Name of a preset (`classic`, `trio`, `full`) or path of a TOML file.
    pub suite: String,
    /// Repetitions of each test (overrides the value of the file).
    pub repeat: Option<u32>,
    /// Only show the plan of the suite, without running anything.
    pub dry_run: bool,
}

/// Arguments of `gugolpi sysinfo`.
#[derive(Clone, Debug)]
pub struct SysinfoArgs {}

/// Arguments of `gugolpi compare`.
#[derive(Clone, Debug)]
pub struct CompareArgs {
    /// Result JSON files or directories that hold them.
    pub inputs: Vec<String>,
    /// CSV output.
    pub csv: bool,
    /// Include unofficial runs (free sizes, options that alter the load).
    pub include_unofficial: bool,
}

/// Parses the value of `--mode`; the error is the message of the core error.
pub fn parse_mode_arg(text: &str) -> (r: Result<Mode, String>)
    ensures
        match mode_named(text@) {
            Some(m) => r == Ok::<Mode, String>(m),
            None => r matches Err(t) && t@ == "configuración no válida: "@ + "modo desconocido «"@
                + word(text@) + "»"@,
        },
{
    match Mode::parse(text) {
        Ok(m) => Ok(m),
        Err(e) => Err(e.message()),
    }
}

/// Parses the value of `--threads`; the error is the message of the core error.
pub fn parse_threads_arg(text: &str) -> (r: Result<Threads, String>)
    ensures
        threads_valid(text@) ==> (r matches Ok(t) && threads_named(t, text@)),
        !threads_valid(text@) ==> (r matches Err(t) && t@ == "configuración no válida: "@
            + "hilos no válidos «"@ + word(text@) + "»"@),
{
    match Threads::parse(text) {
        Ok(t) => Ok(t),
        Err(e) => Err(e.message()),
    }
}

/// Applies the common run options to a configuration.
pub fn apply_run_args(config: &mut RunConfig, args: &RunArgs)
    ensures
        final(config).mode == args.mode,
        final(config).threads == args.threads,
        final(config).affinity == args.affinity,
        final(config).module == old(config).module,
        final(config).size == old(config).size,
        final(config).radical == old(config).radical,
{
    config.mode = args.mode;
    config.threads = args.threads;
    config.affinity = args.affinity;
}

/// `config` is the configuration of a module run: the size of `size` for `module`, the run
/// options of `run`, and the Radical option `static_split`.
pub open spec fn command_config(
    module: Module,
    size: Seq<char>,
    run: RunArgs,
    static_split: bool,
    config: RunConfig,
) -> bool {
    &&& config.module == module
    &&& size_spec(module, size) matches Some((label, value, official)) && config.size.label@
        == label && config.size.value == value && config.size.official == official
    &&& config.mode == run.mode
    &&& config.threads == run.threads
    &&& config.affinity == run.affinity
    &&& config.radical.static_split == static_split
}

/// The configuration of `module` with `size` and the run options; the error is the one of the
/// size, which the command line reports with its context.
fn module_config(module: Module, size: &str, run: &RunArgs, static_split: bool) -> (r: Result<
    RunConfig,
    Error,
>)
    ensures
        size_spec(module, size@) is Some ==> (r matches Ok(c) && command_config(
            module,
            size@,
            *run,
            static_split,
            c,
        )),
        size_spec(module, size@) is None ==> (r matches Err(Error::UnknownSize { text, module: m })
            && text@ == size@ && m == module),
{
    let mut config = RunConfig::new(module, size)?;
    apply_run_args(&mut config, run);
    config.radical = RadicalOptions { static_split };
    Ok(config)
}

/// Configuration of `gugolpi pi`.
pub fn pi_config(args: &PiArgs) -> (r: Result<RunConfig, Error>)
    ensures
        size_spec(Module::Pi, args.size@) is Some ==> (r matches Ok(c) && command_config(
            Module::Pi,
            args.size@,
            args.run,
            false,
            c,
        )),
        size_spec(Module::Pi, args.size@) is None ==> (r matches Err(Error::UnknownSize {
            text,
            module: m,
        }) && text@ == args.size@ && m == Module::Pi),
{
    module_config(Module::Pi, args.size.as_str(), &args.run, false)
}

/// Configuration of `gugolpi radical`.
pub fn radical_config(args: &RadicalArgs) -> (r: Result<RunConfig, Error>)
    ensures
        size_spec(Module::Radical, args.size@) is Some ==> (r matches Ok(c) && command_config(
            Module::Radical,
            args.size@,
            args.run,
            args.static_split,
            c,
        )),
        size_spec(Module::Radical, args.size@) is None ==> (r matches Err(Error::UnknownSize {
            text,
            module: m,
        }) && text@ == args.size@ && m == Module::Radical),
{
    module_config(Module::Radical, args.size.as_str(), &args.run, args.static_split)
}

/// Configuration of `gugolpi zeta`.
pub fn zeta_config(args: &ZetaArgs) -> (r: Result<RunConfig, Error>)
    ensures
        size_spec(Module::Zeta, args.size@) is Some ==> (r matches Ok(c) && command_config(
            Module::Zeta,
            args.size@,
            args.run,
            false,
            c,
        )),
        size_spec(Module::Zeta, args.size@) is None ==> (r matches Err(Error::UnknownSize {
            text,
            module: m,
        }) && text@ == args.size@ && m == Module::Zeta),
{
    module_config(Module::Zeta, args.size.as_str(), &args.run, false)
}

/// The jobs of a module command: the scaling sweep when asked, else the one run.
pub fn planned_jobs(config: RunConfig, args: &RunArgs, system: &SystemInfo) -> (r: Vec<Job>)
    requires
        system.logical_cpus <= usize::MAX / 2 + 1,
    ensures
        args.scaling ==> r@.len() == scaling_counts(system.logical_cpus).len() && forall|i: int|
            0 <= i < r@.len() ==> is_sweep_job(config, #[trigger] r@[i], scaling_counts(
                system.logical_cpus,
            )[i]),
        !args.scaling ==> r@.len() == 1 && r@[0].config == config && r@[0].label@ == job_label(
            config,
        ),
{
    if args.scaling {
        scaling_jobs(&config, system)
    } else {
        let mut v: Vec<Job> = Vec::new();
        v.push(Job::from_config(config));
        v
    }
}

/// Exit code of the process.
#[derive(Clone, Copy, Debug, PartialEq, Eq, Structural)]
pub enum ExitCode {
    /// Everything went well.
    Success,
    /// Usage or configuration error.
    Usage,
    /// The mathematical verification failed (unstable CPU or a bug).
    VerificationFailed,
    /// Not enough resources (memory).
    InsufficientResources,
}

impl ExitCode {
    /// Numeric value for the process exit.
    pub fn code(self) -> (r: i32)
        ensures
            self == ExitCode::Success ==> r == 0,
            self == ExitCode::Usage ==> r == 1,
            self == ExitCode::VerificationFailed ==> r == 2,
            self == ExitCode::InsufficientResources ==> r == 3,
    {
        match self {
            ExitCode::Success => 0,
            ExitCode::Usage => 1,
            ExitCode::VerificationFailed => 2,
            ExitCode::InsufficientResources => 3,
        }
    }

    /// The code for a failure, from the core error found in its chain, if any.
    pub fn from_error(core: Option<&Error>) -> (r: ExitCode)
        ensures
            r == match core {
                Some(Error::InsufficientMemory { .. }) => ExitCode::InsufficientResources,
                Some(Error::Verification(_)) => ExitCode::VerificationFailed,
                _ => ExitCode::Usage,
            },
    {
        match core {
            Some(Error::InsufficientMemory { .. }) => ExitCode::InsufficientResources,
            Some(Error::Verification(_)) => ExitCode::VerificationFailed,
            _ => ExitCode::Usage,
        }
    }
}

/// Exit code from the statuses of the results: verification failed as soon as one failed.
pub fn exit_code_for(statuses: &Vec<VerificationStatus>) -> (r: ExitCode)
    ensures
        (exists|i: int| 0 <= i < statuses@.len() && statuses@[i] == VerificationStatus::Failed)
            ==> r == ExitCode::VerificationFailed,
        (forall|i: int| 0 <= i < statuses@.len() ==> statuses@[i] != VerificationStatus::Failed)
            ==> r == ExitCode::Success,
{
    let mut any_failed = false;
    let mut i: usize = 0;
    while i < statuses.len()
        invariant
            i <= statuses@.len(),
            any_failed == exists|j: int| 0 <= j < i && statuses@[j] == VerificationStatus::Failed,
        decreases statuses@.len() - i,
    {
        if statuses[i] == VerificationStatus::Failed {
            any_failed = true;
        }
        i += 1;
    }
    if any_failed {
        ExitCode::VerificationFailed
    } else {
        ExitCode::Success
    }
}

} // verus!
