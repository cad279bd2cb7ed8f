//! The bounded least-recently-used cache (`lru::LruCache`) of compiled modules.
//!
//! The verified code sees the cache through `cache_entries`, its entries from
//! the least recently used to the most recently used, each as the characters
//! of its key and its value, and through `cache_capacity`, the bound it was
//! created with.

use vstd::prelude::*;
use std::sync::Arc;
use std::time::{Duration, Instant};
use lru::LruCache;
use wasmtime::{Engine, Module};

verus! {

/// `lru::LruCache`, declared so that it can be held in a field.
#[verifier::external_type_specification]
#[verifier::external_body]
#[verifier::reject_recursive_types(K)]
#[verifier::reject_recursive_types(V)]
#[verifier::reject_recursive_types(S)]
pub struct ExLruCache<K, V, S>(LruCache<K, V, S>);

/// The hasher that `lru::LruCache` uses by default.
#[verifier::external_type_specification]
#[verifier::external_body]
pub struct ExLruHasher(lru::DefaultHasher);

/// A compiled module together with when and how fast it was compiled, and
/// (as ghost state) how long compiling took, the bytes it was compiled from
/// and the engine that compiled it.
pub struct ModuleEntry {
    pub module: Arc<Module>,
    pub compiled_at: Instant,
    pub compile_time_us: u64,
    pub compile_duration: Ghost<Duration>,
    pub source: Ghost<Seq<u8>>,
    pub engine: Ghost<Engine>,
}

/// The cache of compiled modules, keyed by module id.
pub type ModuleCache = LruCache<String, ModuleEntry>;

/// The cache's entries, least recently used first.
pub uninterp spec fn cache_entries(c: ModuleCache) -> Seq<(Seq<char>, ModuleEntry)>;

/// The number of entries the cache was created to hold.
pub uninterp spec fn cache_capacity(c: ModuleCache) -> nat;

/// No entries at all.
pub open spec fn no_entries() -> Seq<(Seq<char>, ModuleEntry)> {
    Seq::empty()
}

/// Position of the entry with key `k`, if any.
pub open spec fn entry_index(s: Seq<(Seq<char>, ModuleEntry)>, k: Seq<char>) -> int {
    choose|i: int| 0 <= i < s.len() && s[i].0 == k
}

/// Some entry has key `k`.
pub open spec fn has_key(s: Seq<(Seq<char>, ModuleEntry)>, k: Seq<char>) -> bool {
    exists|i: int| 0 <= i < s.len() && s[i].0 == k
}

/// The entries after using the entry at `i`: it moves to the most recently
/// used end.
pub open spec fn touch(s: Seq<(Seq<char>, ModuleEntry)>, i: int) -> Seq<(Seq<char>, ModuleEntry)> {
    s.remove(i).push(s[i])
}

/// `LruCache::new`: an empty cache for `cap` entries (the `NonZeroUsize` that
/// `new` takes is built from `cap`, which `requires` keeps non-zero).
#[verifier::external_body]
pub(crate) fn cache_new(cap: usize) -> (r: ModuleCache)
    requires
        cap > 0,
    ensures
        cache_entries(r) == no_entries(),
        cache_capacity(r) == cap,
{
    LruCache::new(std::num::NonZeroUsize::new(cap).unwrap())
}

/// `LruCache::get`, handing out another pointer to the cached module: a hit
/// makes the entry the most recently used one, a miss changes nothing.
#[verifier::external_body]
pub(crate) fn cache_get_module(c: &mut ModuleCache, key: &str) -> (r: Option<Arc<Module>>)
    ensures
        cache_capacity(*final(c)) == cache_capacity(*old(c)),
        r is Some <==> has_key(cache_entries(*old(c)), key@),
        r is Some ==> cache_entries(*final(c)) == touch(cache_entries(*old(c)),
            entry_index(cache_entries(*old(c)), key@))
            && r == Some(cache_entries(*old(c))[entry_index(cache_entries(*old(c)), key@)].1.module),
        r is None ==> cache_entries(*final(c)) == cache_entries(*old(c)),
{
    c.get(key).map(|e| Arc::clone(&e.module))
}

/// `LruCache::put`: an entry with the same key is replaced and becomes the
/// most recently used; otherwise, when the cache is full, the least recently
/// used entry is dropped, and the new entry becomes the most recently used.
#[verifier::external_body]
pub(crate) fn cache_put(c: &mut ModuleCache, key: String, value: ModuleEntry)
    ensures
        cache_capacity(*final(c)) == cache_capacity(*old(c)),
        has_key(cache_entries(*old(c)), key@) ==> cache_entries(*final(c)) == cache_entries(*old(c)).remove(
            entry_index(cache_entries(*old(c)), key@)).push((key@, value)),
        !has_key(cache_entries(*old(c)), key@) && cache_entries(*old(c)).len() == cache_capacity(*old(c))
            ==> cache_entries(*final(c)) == cache_entries(*old(c)).drop_first().push((key@, value)),
        !has_key(cache_entries(*old(c)), key@) && cache_entries(*old(c)).len() != cache_capacity(*old(c))
            ==> cache_entries(*final(c)) == cache_entries(*old(c)).push((key@, value)),
{
    c.put(key, value);
}

/// `LruCache::pop`: removes the entry with the key, if any, and hands it back.
#[verifier::external_body]
pub(crate) fn cache_pop(c: &mut ModuleCache, key: &str) -> (r: Option<ModuleEntry>)
    ensures
        cache_capacity(*final(c)) == cache_capacity(*old(c)),
        r is Some <==> has_key(cache_entries(*old(c)), key@),
        r is Some ==> cache_entries(*final(c)) == cache_entries(*old(c)).remove(
            entry_index(cache_entries(*old(c)), key@)),
        r matches Some(e) ==> e == cache_entries(*old(c))[entry_index(cache_entries(*old(c)), key@)].1,
        r is None ==> cache_entries(*final(c)) == cache_entries(*old(c)),
{
    c.pop(key)
}

/// `LruCache::len`: the number of entries.
#[verifier::external_body]
pub(crate) fn cache_len(c: &ModuleCache) -> (r: usize)
    ensures
        r == cache_entries(*c).len(),
{
    c.len()
}

/// `LruCache::cap`: the number of entries the cache holds at most.
#[verifier::external_body]
pub(crate) fn cache_cap(c: &ModuleCache) -> (r: usize)
    ensures
        r == cache_capacity(*c),
{
    c.cap().get()
}

} // verus!
