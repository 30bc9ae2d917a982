//! System card attached to every result, and the choice of the SIMD level.

use vstd::prelude::*;

verus! {

/// System card.
#[derive(Debug, PartialEq, Eq)]
pub struct SystemInfo {
    /// CPU model as the system reports it.
    pub cpu_model: String,
    /// Physical cores.
    pub physical_cores: usize,
    /// Logical CPUs (hardware threads).
    pub logical_cpus: usize,
    /// Reported frequency in MHz, if the system exposes it.
    pub cpu_frequency_mhz: Option<u64>,
    /// Total memory in bytes.
    pub total_memory_bytes: u64,
    /// Available memory in bytes when the card was collected.
    pub available_memory_bytes: u64,
    /// Operating system name.
    pub os_name: String,
    /// Operating system version.
    pub os_version: String,
    /// Architecture of the build (`x86_64`, `aarch64`).
    pub arch: String,
    /// SIMD level detected at run time.
    pub simd_level: String,
}

impl Clone for SystemInfo {
    fn clone(&self) -> (r: Self)
        ensures
            r == *self,
    {
        SystemInfo {
            cpu_model: self.cpu_model.clone(),
            physical_cores: self.physical_cores,
            logical_cpus: self.logical_cpus,
            cpu_frequency_mhz: self.cpu_frequency_mhz,
            total_memory_bytes: self.total_memory_bytes,
            available_memory_bytes: self.available_memory_bytes,
            os_name: self.os_name.clone(),
            os_version: self.os_version.clone(),
            arch: self.arch.clone(),
            simd_level: self.simd_level.clone(),
        }
    }
}

impl SystemInfo {
    /// Placeholder card for tests: two cores, four logical CPUs and plenty of memory.
    pub fn placeholder() -> (r: SystemInfo)
        ensures
            r.cpu_model@ == "Test CPU"@,
            r.physical_cores == 2,
            r.logical_cpus == 4,
            r.cpu_frequency_mhz == Some(3_000u64),
            r.total_memory_bytes == 16 * 1024 * 1024 * 1024,
            r.available_memory_bytes == 8 * 1024 * 1024 * 1024,
            r.os_name@ == "TestOS"@,
            r.os_version@ == "1.0"@,
            r.arch@ == "test"@,
            r.simd_level@ == "scalar"@,
    {
        SystemInfo {
            cpu_model: String::from_str("Test CPU"),
            physical_cores: 2,
            logical_cpus: 4,
            cpu_frequency_mhz: Some(3_000),
            total_memory_bytes: 16 * 1024 * 1024 * 1024,
            available_memory_bytes: 8 * 1024 * 1024 * 1024,
            os_name: String::from_str("TestOS"),
            os_version: String::from_str("1.0"),
            arch: String::from_str("test"),
            simd_level: String::from_str("scalar"),
        }
    }
}

/// Available memory with fallbacks: some systems do not expose "available" and report 0.
///
/// Then total − used is used, and as a last resort the total memory, so that the memory
/// pre-check does not reject runs because of a missing figure.
pub fn available_memory(total: u64, available: u64, used: u64) -> (r: u64)
    ensures
        available > 0 ==> r == available,
        available == 0 && 0 < used < total ==> r == total - used,
        available == 0 && !(0 < used < total) ==> r == total,
{
    if available > 0 {
        return available;
    }
    if used > 0 && used < total {
        return total - used;
    }
    total
}

/// CPU features that decide the SIMD level.
#[derive(Clone, Copy, Debug, PartialEq, Eq)]
pub struct CpuFeatures {
    /// The build targets x86-64.
    pub x86_64: bool,
    /// The build targets AArch64 (NEON is mandatory there).
    pub aarch64: bool,
    /// AVX-512 foundation.
    pub avx512f: bool,
    /// AVX2.
    pub avx2: bool,
    /// Fused multiply-add.
    pub fma: bool,
    /// AVX.
    pub avx: bool,
}

/// Highest SIMD level available with the given features.
pub open spec fn simd_label(f: CpuFeatures) -> Seq<char> {
    if f.x86_64 {
        if f.avx512f {
            "avx512"@
        } else if f.avx2 && f.fma {
            "avx2+fma"@
        } else if f.avx {
            "avx"@
        } else {
            "sse2"@
        }
    } else if f.aarch64 {
        "neon"@
    } else {
        "scalar"@
    }
}

/// Highest SIMD level available with the given features. It is stored in every result because
/// the dispatch at run time picks the computation path by it.
pub fn simd_level(features: CpuFeatures) -> (r: &'static str)
    ensures
        r@ == simd_label(features),
{
    if features.x86_64 {
        if features.avx512f {
            "avx512"
        } else if features.avx2 && features.fma {
            "avx2+fma"
        } else if features.avx {
            "avx"
        } else {
            "sse2"
        }
    } else if features.aarch64 {
        "neon"
    } else {
        "scalar"
    }
}

/// `label` names a SIMD path that a CPU with features `f` can run.
pub open spec fn simd_runs_on(label: Seq<char>, f: CpuFeatures) -> bool {
    if label == "avx512"@ {
        f.x86_64 && f.avx512f
    } else if label == "avx2+fma"@ {
        f.x86_64 && f.avx2 && f.fma
    } else if label == "avx"@ {
        f.x86_64 && f.avx
    } else if label == "sse2"@ {
        f.x86_64
    } else if label == "neon"@ {
        f.aarch64
    } else {
        label == "scalar"@
    }
}

/// How wide a SIMD path is: plain code, then the 128-bit paths (SSE2, NEON), then AVX,
/// AVX2 with FMA and AVX-512.
pub open spec fn simd_rank(label: Seq<char>) -> int {
    if label == "avx512"@ {
        4
    } else if label == "avx2+fma"@ {
        3
    } else if label == "avx"@ {
        2
    } else if label == "sse2"@ || label == "neon"@ {
        1
    } else {
        0
    }
}

/// The SIMD level is the widest path that the CPU can run: the CPU runs it, and no path that
/// it runs is wider.
pub proof fn lemma_simd_level_is_widest(f: CpuFeatures)
    ensures
        simd_runs_on(simd_label(f), f),
        forall|label: Seq<char>| #[trigger] simd_runs_on(label, f) ==> simd_rank(label) <= simd_rank(
            simd_label(f),
        ),
{
    reveal_strlit("avx512");
    reveal_strlit("avx2+fma");
    reveal_strlit("avx");
    reveal_strlit("sse2");
    reveal_strlit("neon");
    reveal_strlit("scalar");
    assert("avx512"@.len() == 6 && "avx2+fma"@.len() == 8 && "avx"@.len() == 3);
    assert("sse2"@.len() == 4 && "neon"@.len() == 4 && "scalar"@.len() == 6);
    assert("avx512"@[0] != "scalar"@[0] && "sse2"@[0] != "neon"@[0]);
}

} // verus!
