use alloyfang::lazy_loader::{LazyWasmLoader, LoaderError};
use std::sync::Arc;

// Minimal valid WASM module (binary encoding of an empty module).
fn empty_wasm() -> Vec<u8> {
    vec![
        0x00, 0x61, 0x73, 0x6D, // magic: \0asm
        0x01, 0x00, 0x00, 0x00, // version: 1
    ]
}

#[test]
fn test_register_and_compile() {
    let mut loader = LazyWasmLoader::new(4);
    loader.register_module("test", empty_wasm());

    assert_eq!(loader.registered_count(), 1);
    assert_eq!(loader.cached_count(), 0);

    let module = loader.get_or_compile("test");
    assert!(module.is_ok());
    assert_eq!(loader.cached_count(), 1);
    assert_eq!(loader.stats().cache_misses, 1);
}

#[test]
fn test_cache_hit() {
    let mut loader = LazyWasmLoader::new(4);
    loader.register_module("test", empty_wasm());

    let _ = loader.get_or_compile("test").unwrap();
    let _ = loader.get_or_compile("test").unwrap();

    let stats = loader.stats();
    assert_eq!(stats.cache_misses, 1);
    assert_eq!(stats.cache_hits, 1);
}

#[test]
fn test_unregistered_module_error() {
    let mut loader = LazyWasmLoader::new(4);
    let result = loader.get_or_compile("nonexistent");
    assert!(result.is_err());
}

#[test]
fn test_lru_eviction() {
    let mut loader = LazyWasmLoader::new(2); // Cache capacity = 2
    loader.register_module("a", empty_wasm());
    loader.register_module("b", empty_wasm());
    loader.register_module("c", empty_wasm());

    let _ = loader.get_or_compile("a").unwrap();
    let _ = loader.get_or_compile("b").unwrap();
    assert_eq!(loader.cached_count(), 2);

    // This should evict "a" (least recently used).
    let _ = loader.get_or_compile("c").unwrap();
    assert_eq!(loader.cached_count(), 2);
    assert!(loader.stats().evictions >= 1);
}

#[test]
fn cached_module_is_the_same_module() {
    let mut loader = LazyWasmLoader::new(2);
    loader.register_module("m", empty_wasm());
    let first = loader.get_or_compile("m").unwrap();
    let second = loader.get_or_compile("m").unwrap();
    assert!(Arc::ptr_eq(&first, &second));
}

#[test]
fn least_recently_used_module_is_dropped() {
    let mut loader = LazyWasmLoader::new(2);
    for id in ["a", "b", "c"] {
        loader.register_module(id, empty_wasm());
    }
    loader.preload("a").unwrap();
    loader.preload("b").unwrap();
    // Using "a" makes "b" the least recently used.
    loader.get_or_compile("a").unwrap();
    loader.preload("c").unwrap();
    let stats = loader.stats();
    assert_eq!(stats.evictions, 1);
    // "a" is still cached (hit), "b" is compiled again (miss).
    loader.get_or_compile("a").unwrap();
    assert_eq!(loader.stats().cache_hits, stats.cache_hits + 1);
    loader.get_or_compile("b").unwrap();
    assert_eq!(loader.stats().cache_misses, stats.cache_misses + 1);
    assert_eq!(loader.stats().modules_compiled, 4);
}

#[test]
fn invalid_bytes_fail_to_compile() {
    let mut loader = LazyWasmLoader::new(2);
    loader.register_module("bad", vec![1, 2, 3]);
    match loader.get_or_compile("bad") {
        Err(LoaderError::Compile(_)) => {}
        other => panic!("unexpected: {:?}", other.map(|_| ())),
    }
    assert_eq!(loader.cached_count(), 0);
    assert_eq!(loader.stats().cache_misses, 1);
    assert_eq!(loader.stats().modules_compiled, 0);
}

#[test]
fn unregister_and_evict() {
    let mut loader = LazyWasmLoader::new(3);
    loader.register_module("a", empty_wasm());
    loader.register_module("b", empty_wasm());
    loader.register_module("a", empty_wasm());
    assert_eq!(loader.registered_count(), 2);
    assert_eq!(loader.stats().modules_registered, 3);
    loader.preload("a").unwrap();
    loader.preload("b").unwrap();
    loader.evict("b");
    loader.evict("b");
    assert_eq!(loader.stats().evictions, 1);
    assert_eq!(loader.cached_count(), 1);
    // The bytes stay registered after eviction.
    loader.preload("b").unwrap();
    loader.unregister_module("a");
    assert_eq!(loader.registered_count(), 1);
    assert_eq!(loader.cached_count(), 1);
    match loader.get_or_compile("a") {
        Err(LoaderError::NotRegistered(id)) => assert_eq!(id, "a"),
        other => panic!("unexpected: {:?}", other.map(|_| ())),
    }
}

#[test]
fn full_cache_of_one_replaces_its_module() {
    let mut loader = LazyWasmLoader::new(1);
    loader.register_module("m", empty_wasm());
    loader.register_module("n", empty_wasm());
    let first = loader.get_or_compile("m").unwrap();
    assert_eq!(loader.stats().modules_compiled, 1);
    assert_eq!(loader.stats().evictions, 0);
    let again = loader.get_or_compile("m").unwrap();
    assert!(Arc::ptr_eq(&first, &again));
    loader.get_or_compile("n").unwrap();
    assert_eq!(loader.cached_count(), 1);
    assert_eq!(loader.stats().evictions, 1);
    loader.get_or_compile("m").unwrap();
    assert_eq!(loader.stats().cache_misses, 3);
    assert_eq!(loader.stats().modules_compiled, 3);
}

#[test]
fn each_id_compiles_its_own_bytes() {
    let mut loader = LazyWasmLoader::new(4);
    loader.register_module("good", empty_wasm());
    loader.register_module("bad", vec![0x00, 0x61, 0x73]);
    assert!(loader.get_or_compile("good").is_ok());
    assert!(matches!(loader.get_or_compile("bad"), Err(LoaderError::Compile(_))));
    assert!(matches!(loader.preload("bad"), Err(LoaderError::Compile(_))));
    assert!(loader.preload("good").is_ok());
    assert_eq!(loader.cached_count(), 1);
}

#[test]
fn modules_are_compiled_with_the_loaders_engine() {
    let engine = wasmtime::Engine::default();
    let mut loader = LazyWasmLoader::with_engine(engine.clone(), 2);
    loader.register_module("m", empty_wasm());
    let module = loader.get_or_compile("m").unwrap();
    assert!(wasmtime::Engine::same(module.engine(), &engine));
    assert!(wasmtime::Engine::same(module.engine(), loader.engine()));
    assert!(!wasmtime::Engine::same(module.engine(), &wasmtime::Engine::default()));
}
