//! Verified core of the AlloyStack-style optimisation layer: a zero-copy
//! shared buffer pool, a lazily compiling module cache, dependency-aware
//! workflow scheduling, and the benchmark helpers built on them.

pub mod shared_bytes;
pub mod slot_map;
pub mod buffer_model;
pub mod reference_passing;
pub mod parallel_executor;
pub mod bench_config;
pub mod clock;
pub mod decimal;
pub mod mock_tools;
pub mod config;
pub mod wasm_engine;
pub mod compiled_cache;
pub mod lazy_loader;
pub mod metrics;
pub mod mock_llm;
pub mod proc_status;
