//! The WebAssembly engine (`wasmtime`) that compiles registered modules.

use vstd::prelude::*;
use std::sync::Arc;
use wasmtime::{Engine, Module};

verus! {

/// `wasmtime::Engine` is carried through opaquely.
#[verifier::external_type_specification]
#[verifier::external_body]
pub struct ExEngine(Engine);

/// `wasmtime::Module` (a compiled module) is carried through opaquely.
#[verifier::external_type_specification]
#[verifier::external_body]
pub struct ExModule(Module);

/// `wasmtime::Error` is carried through opaquely.
#[verifier::external_type_specification]
#[verifier::external_body]
pub struct ExWasmError(wasmtime::Error);

/// `Engine::default`: an engine with the default configuration.
#[verifier::external_body]
pub(crate) fn default_engine() -> Engine {
    Engine::default()
}

/// `Module::new`: decode, validate and compile WebAssembly bytes for an
/// engine.  Whether it succeeds depends on the bytes, on the engine's
/// configuration and on the host, so nothing is stated of the outcome;
/// beside it come ghost copies of the bytes and of the engine that were
/// handed to the compiler.
#[verifier::external_body]
pub(crate) fn compile_module(engine: &Engine, bytes: &[u8]) -> (r: (
    Result<Module, wasmtime::Error>,
    Ghost<Seq<u8>>,
    Ghost<Engine>,
))
    ensures
        r.1@ == bytes@,
        r.2@ == *engine,
{
    (Module::new(engine, bytes), Ghost(bytes@), Ghost(*engine))
}

/// `<Arc<Module> as Clone>::clone`: another pointer to the same compiled module.
#[verifier::external_body]
pub(crate) fn share_module(m: &Arc<Module>) -> (r: Arc<Module>)
    ensures
        r == *m,
{
    Arc::clone(m)
}

} // verus!
