//! Configuration of the optimisation layer.

use vstd::prelude::*;

verus! {

/// `num_cpus::get`: the number of logical CPUs available to this process.
/// Its documentation promises a result of at least 1; nothing else is
/// stated (it depends on the machine).
#[verifier::external_body]
fn available_cpus() -> (r: usize)
    ensures
        r >= 1,
{
    num_cpus::get()
}

/// Optimisation configuration.
#[derive(Debug, Clone)]
pub struct AlloyStackConfig {
    /// Enable on-demand loading for WASM modules.
    pub enable_lazy_loading: bool,
    /// Enable reference passing for inter-agent data transfer.
    pub enable_reference_passing: bool,
    /// Enable parallel workflow execution.
    pub enable_parallel_execution: bool,
    /// Maximum number of cached WASM modules.
    pub max_cached_modules: usize,
    /// Maximum shared buffer size in bytes.
    pub max_shared_buffer_size: usize,
    /// Maximum parallel execution threads.
    pub max_parallel_threads: usize,
}

impl Default for AlloyStackConfig {
    /// Everything enabled, 64 cached modules, 256 MiB of shared buffers and
    /// one thread per available CPU.
    fn default() -> (r: Self)
        ensures
            r.enable_lazy_loading,
            r.enable_reference_passing,
            r.enable_parallel_execution,
            r.max_cached_modules == 64,
            r.max_shared_buffer_size == 256 * 1024 * 1024,
            r.max_parallel_threads >= 1,
    {
        AlloyStackConfig {
            enable_lazy_loading: true,
            enable_reference_passing: true,
            enable_parallel_execution: true,
            max_cached_modules: 64,
            max_shared_buffer_size: 256 * 1024 * 1024,
            max_parallel_threads: available_cpus(),
        }
    }
}

} // verus!
