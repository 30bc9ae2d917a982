//! Parts of a run result that do not involve measured times: the build that produced it, the
//! verdict of the mathematical verification, whether it scores, and its integrity seal.

use vstd::prelude::*;

use crate::config::{Module, RunConfig};
use crate::hash::{hex_of, sha256_hex, sha256_spec};
use crate::score::SCORE_VERSION;

verus! {

/// Version of the result file schema. Raised only with incompatible changes.
pub const SCHEMA_VERSION: u32 = 1;

/// Version of this build.
pub const TOOL_VERSION: &'static str = "0.1.0";

/// Build that produced a result.
#[derive(Clone, Debug, PartialEq, Eq)]
pub struct ToolInfo {
    /// Always `gugolpi`.
    pub name: String,
    /// Semantic version of the build.
    pub version: String,
    /// Score version ([`SCORE_VERSION`]).
    pub score_version: u32,
    /// Git commit of the build, or `unknown`.
    pub commit: String,
    /// SIMD level detected at run time.
    pub simd_level: String,
}

impl ToolInfo {
    /// Information about this build, with the SIMD level detected on this machine and the git
    /// commit that the build recorded (`unknown` when it recorded none).
    pub fn current(simd_level: &str, commit: &str) -> (r: ToolInfo)
        ensures
            r.name@ == "gugolpi"@,
            r.version@ == TOOL_VERSION@,
            r.score_version == SCORE_VERSION,
            r.commit@ == commit@,
            r.simd_level@ == simd_level@,
    {
        ToolInfo {
            name: String::from_str("gugolpi"),
            version: String::from_str(TOOL_VERSION),
            score_version: SCORE_VERSION,
            commit: String::from_str(commit),
            simd_level: String::from_str(simd_level),
        }
    }
}

/// What was run.
#[derive(Clone, Debug, PartialEq, Eq)]
pub struct TestInfo {
    /// Complete configuration of the run.
    pub config: RunConfig,
    /// Threads actually used.
    pub threads_used: usize,
}

/// State of the mathematical verification.
#[derive(Clone, Copy, Debug, PartialEq, Eq, Structural)]
pub enum VerificationStatus {
    /// The result matches the reference.
    Passed,
    /// The result does not match: unstable CPU or a bug.
    Failed,
    /// There is no reference for this size.
    Unverified,
}

/// Verdict of the verification: status, errors, digest and explanation.
#[derive(Clone, Debug, PartialEq, Eq)]
pub struct Verdict {
    /// Overall status.
    pub status: VerificationStatus,
    /// Values that failed (Radical) or discrepancies counted.
    pub errors: u64,
    /// Digit hash (Pi) or checksum (Radical, Zeta) in hexadecimal.
    pub digest: Option<String>,
    /// Readable explanation when it fails or cannot be checked.
    pub detail: Option<String>,
}

impl Verdict {
    /// `true` if the verification passed.
    pub fn passed(&self) -> (r: bool)
        ensures
            r == (self.status == VerificationStatus::Passed),
    {
        match self.status {
            VerificationStatus::Passed => true,
            _ => false,
        }
    }
}

/// A run scores officially when its configuration does and its verification passed.
pub fn is_official_result(config: &RunConfig, verdict: &Verdict) -> (r: bool)
    ensures
        r == (config.size.official && !config.radical.static_split && verdict.status
            == VerificationStatus::Passed),
{
    config.is_official() && verdict.passed()
}

/// Unit of the throughput of each module.
pub fn throughput_unit(module: Module) -> (r: &'static str)
    ensures
        module == Module::Pi ==> r@ == "digits/s"@,
        module != Module::Pi ==> r@ == "numbers/s"@,
{
    match module {
        Module::Pi => "digits/s",
        _ => "numbers/s",
    }
}

/// The integrity seal of a result: SHA-256 of its canonical serialisation, in hexadecimal.
pub fn seal_digest(canonical: &[u8]) -> (r: String)
    ensures
        r@ == hex_of(sha256_spec(canonical@)),
{
    sha256_hex(canonical)
}

/// `true` if a stored seal is present and matches the canonical serialisation.
pub fn integrity_matches(stored: &Option<String>, canonical: &[u8]) -> (r: bool)
    ensures
        r == (stored matches Some(s) && s@ == hex_of(sha256_spec(canonical@))),
{
    match stored {
        None => false,
        Some(s) => {
            let expected = seal_digest(canonical);
            *s == expected
        },
    }
}

} // verus!
