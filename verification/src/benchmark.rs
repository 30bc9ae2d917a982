//! What every benchmark shares: the cancellation token and the checks before a run.

use std::sync::atomic::{AtomicBool, Ordering};
use std::sync::Arc;

use vstd::prelude::*;

use crate::config::{module_name, Module, RunConfig};
use crate::error::Error;
use crate::sysinfo::SystemInfo;
use crate::text::push_str;

verus! {

/// Cancellation token that threads can share.
#[derive(Clone, Debug, Default)]
pub struct CancelToken {
    flag: Arc<AtomicBool>,
}

impl CancelToken {
    /// New token, not cancelled. The flag is a shared atomic and no contract here models its
    /// value, so that it starts cleared is shown by the tests, not stated.
    pub fn new() -> (r: CancelToken) {
        CancelToken { flag: Arc::new(AtomicBool::new(false)) }
    }

    /// Asks for cancellation. The benchmarks check it between blocks of work.
    pub fn cancel(&self) {
        self.flag.store(true, Ordering::Release);
    }

    /// `true` if someone asked to cancel. Another thread may cancel at any moment, so nothing
    /// is promised of the answer.
    pub fn is_cancelled(&self) -> (r: bool) {
        self.flag.load(Ordering::Acquire)
    }
}

/// Message when a configuration reaches the implementation of another module.
pub open spec fn wrong_module_message(configured: Module, running: Module) -> Seq<char> {
    "la configuración es del módulo "@ + module_name(configured) + " pero se ejecuta "@
        + module_name(running)
}

/// Checks before any run: the configuration is of the module that runs, and the memory that
/// the run needs (`required`) is available.
pub fn preflight(module: Module, required: u64, config: &RunConfig, system: &SystemInfo) -> (r:
    Result<(), Error>)
    ensures
        config.module != module ==> (r matches Err(Error::InvalidConfig(m)) && m@
            == wrong_module_message(config.module, module)),
        config.module == module && required > system.available_memory_bytes ==> r == Err::<
            (),
            Error,
        >(
            Error::InsufficientMemory {
                required,
                available: system.available_memory_bytes,
            },
        ),
        config.module == module && required <= system.available_memory_bytes ==> r is Ok,
{
    if config.module != module {
        let mut m = String::new();
        push_str(&mut m, "la configuración es del módulo ");
        push_str(&mut m, config.module.name());
        push_str(&mut m, " pero se ejecuta ");
        push_str(&mut m, module.name());
        proof {
            assert(m@ =~= wrong_module_message(config.module, module));
        }
        return Err(Error::InvalidConfig(m));
    }
    if required > system.available_memory_bytes {
        return Err(
            Error::InsufficientMemory { required, available: system.available_memory_bytes },
        );
    }
    Ok(())
}

} // verus!
