//! On-demand WASM module loading with LRU caching.
//!
//! Module bytes are registered eagerly but compiled only on first access;
//! compiled modules live in a bounded cache that drops the least recently
//! used module when it is full.

use vstd::prelude::*;
use std::sync::Arc;
use wasmtime::{Engine, Module};
use crate::buffer_model::{wrap_add, lemma_wrapping_add_is_wrap};
use crate::clock::{instant_now, instant_elapsed, duration_as_micros, whole_micros};
use std::time::Duration;
use crate::wasm_engine::{default_engine, compile_module, share_module};
use crate::compiled_cache::{
    ModuleEntry, ModuleCache, cache_entries, cache_capacity, has_key, entry_index, touch, no_entries,
    cache_new, cache_get_module, cache_put, cache_pop, cache_len, cache_cap,
};

verus! {

/// Statistics for the lazy loader.
///
/// Each counter wraps around on overflow.
#[derive(Debug, Clone, Copy, PartialEq, Eq)]
pub struct LoaderStats {
    pub cache_hits: u64,
    pub cache_misses: u64,
    pub total_compile_time_us: u64,
    pub modules_registered: u64,
    pub modules_compiled: u64,
    pub evictions: u64,
}

impl Default for LoaderStats {
    fn default() -> (r: Self)
        ensures
            r == (LoaderStats {
                cache_hits: 0, cache_misses: 0, total_compile_time_us: 0,
                modules_registered: 0, modules_compiled: 0, evictions: 0,
            }),
    {
        LoaderStats {
            cache_hits: 0,
            cache_misses: 0,
            total_compile_time_us: 0,
            modules_registered: 0,
            modules_compiled: 0,
            evictions: 0,
        }
    }
}

/// Why a module could not be handed out.
#[derive(Debug)]
pub enum LoaderError {
    /// No module is registered under this id.
    NotRegistered(String),
    /// The engine rejected the registered bytes.
    Compile(wasmtime::Error),
}

/// The registered module sources, by id.
pub open spec fn registry_map(r: Seq<(String, Vec<u8>)>) -> Map<Seq<char>, Seq<u8>> {
    Map::new(
        |k: Seq<char>| exists|i: int| 0 <= i < r.len() && r[i].0@ == k,
        |k: Seq<char>| r[choose|i: int| 0 <= i < r.len() && r[i].0@ == k].1@,
    )
}

/// No two registered sources share an id.
pub open spec fn ids_distinct(r: Seq<(String, Vec<u8>)>) -> bool {
    forall|i: int, j: int| 0 <= i < j < r.len() ==> r[i].0@ != r[j].0@
}

/// No two cache entries share a key.
pub open spec fn keys_distinct(s: Seq<(Seq<char>, ModuleEntry)>) -> bool {
    forall|i: int, j: int| 0 <= i < j < s.len() ==> s[i].0 != s[j].0
}

proof fn lemma_registry_at(r: Seq<(String, Vec<u8>)>, i: int)
    requires
        ids_distinct(r),
        0 <= i < r.len(),
    ensures
        registry_map(r).contains_key(r[i].0@),
        registry_map(r)[r[i].0@] == r[i].1@,
{
    let k = r[i].0@;
    assert(exists|j: int| 0 <= j < r.len() && r[j].0@ == k);
    let j = choose|j: int| 0 <= j < r.len() && r[j].0@ == k;
    if j != i {
        if j < i {
            assert(r[j].0@ != r[i].0@);
        } else {
            assert(r[i].0@ != r[j].0@);
        }
    }
}

/// With distinct ids, there are as many registered ids as sources.
proof fn lemma_registry_len(r: Seq<(String, Vec<u8>)>)
    requires
        ids_distinct(r),
    ensures
        registry_map(r).dom().finite(),
        registry_map(r).len() == r.len(),
    decreases r.len(),
{
    if r.len() == 0 {
        assert(registry_map(r).dom() =~= Set::<Seq<char>>::empty());
    } else {
        let init = r.drop_last();
        lemma_registry_len(init);
        let k = r.last().0@;
        assert forall|q: Seq<char>| registry_map(r).dom().contains(q)
            <==> registry_map(init).dom().insert(k).contains(q) by {
            if registry_map(r).dom().contains(q) {
                let j = choose|j: int| 0 <= j < r.len() && r[j].0@ == q;
                if j < init.len() {
                    assert(init[j].0@ == q);
                }
            }
            if registry_map(init).dom().contains(q) {
                let j = choose|j: int| 0 <= j < init.len() && init[j].0@ == q;
                assert(r[j].0@ == q);
            }
            if q == k {
                assert(r[r.len() - 1].0@ == q);
            }
        }
        assert(registry_map(r).dom() =~= registry_map(init).dom().insert(k));
        assert(!registry_map(init).dom().contains(k)) by {
            if registry_map(init).dom().contains(k) {
                let j = choose|j: int| 0 <= j < init.len() && init[j].0@ == k;
                assert(r[j].0@ != r[r.len() - 1].0@);
            }
        }
    }
}

/// On-demand WASM module loader with LRU caching.
pub struct LazyWasmLoader {
    /// Engine shared by all modules.
    engine: Engine,
    /// Raw WASM bytes by module id, kept until explicitly removed.
    registered: Vec<(String, Vec<u8>)>,
    /// Least-recently-used cache of compiled modules.
    cache: ModuleCache,
    /// Cumulative statistics.
    stats: LoaderStats,
}

impl LazyWasmLoader {
    /// The registered module sources.
    pub closed spec fn registered(&self) -> Map<Seq<char>, Seq<u8>> {
        registry_map(self.registered@)
    }

    /// The cached compiled modules, least recently used first.
    pub closed spec fn cached(&self) -> Seq<(Seq<char>, ModuleEntry)> {
        cache_entries(self.cache)
    }

    /// How many compiled modules the cache holds at most.
    pub closed spec fn capacity(&self) -> nat {
        cache_capacity(self.cache)
    }

    /// The statistics counters.
    pub closed spec fn counters(&self) -> LoaderStats {
        self.stats
    }

    /// The engine.
    pub closed spec fn engine_spec(&self) -> Engine {
        self.engine
    }

    /// The loader's invariant.
    pub closed spec fn wf(&self) -> bool {
        &&& ids_distinct(self.registered@)
        &&& keys_distinct(self.cached())
        &&& self.cached().len() <= self.capacity()
        &&& self.capacity() > 0
    }

    /// Create a new loader with the default engine, caching at most
    /// `max_cached` compiled modules (at least one).
    pub fn new(max_cached: usize) -> (r: Self)
        ensures
            r.wf(),
            r.registered() == Map::<Seq<char>, Seq<u8>>::empty(),
            r.cached() == no_entries(),
            r.capacity() == if max_cached == 0 { 1 } else { max_cached },
            r.counters() == LoaderStats::default_spec(),
    {
        Self::with_engine(default_engine(), max_cached)
    }

    /// Create a new loader with a custom engine.
    pub fn with_engine(engine: Engine, max_cached: usize) -> (r: Self)
        ensures
            r.wf(),
            r.engine_spec() == engine,
            r.registered() == Map::<Seq<char>, Seq<u8>>::empty(),
            r.cached() == no_entries(),
            r.capacity() == if max_cached == 0 { 1 } else { max_cached },
            r.counters() == LoaderStats::default_spec(),
    {
        let cap = if max_cached < 1 { 1 } else { max_cached };
        let r = LazyWasmLoader {
            engine,
            registered: Vec::new(),
            cache: cache_new(cap),
            stats: LoaderStats::default(),
        };
        assert(r.registered() =~= Map::<Seq<char>, Seq<u8>>::empty());
        r
    }


    /// Register a WASM module's bytes without compiling it.  A source already
    /// registered under the id is replaced; a module already compiled for
    /// the id stays cached.
    pub fn register_module(&mut self, id: &str, wasm_bytes: Vec<u8>)
        requires
            old(self).wf(),
        ensures
            final(self).wf(),
            final(self).registered() == old(self).registered().insert(id@, wasm_bytes@),
            final(self).cached() == old(self).cached(),
            final(self).capacity() == old(self).capacity(),
            final(self).counters() == (LoaderStats {
                modules_registered: wrap_add(old(self).counters().modules_registered, 1),
                ..old(self).counters()
            }),
    {
        let ghost r0 = self.registered@;
        let ghost bytes = wasm_bytes@;
        match self.find_registered(id) {
            Some(i) => {
                self.registered.set(i, (id.to_owned(), wasm_bytes));
                proof {
                    let r1 = self.registered@;
                    assert(ids_distinct(r1)) by {
                        assert forall|a: int, b: int| 0 <= a < b < r1.len() implies r1[a].0@ != r1[b].0@ by {
                            assert(r0[a].0@ != r0[b].0@);
                        }
                    }
                    assert forall|k: Seq<char>| #[trigger] registry_map(r1).contains_key(k)
                        == registry_map(r0).insert(id@, bytes).contains_key(k) by {
                        if registry_map(r0).insert(id@, bytes).contains_key(k) && k != id@ {
                            let j = choose|j: int| 0 <= j < r0.len() && r0[j].0@ == k;
                            assert(r1[j].0@ == k);
                        }
                        if k == id@ {
                            assert(r1[i as int].0@ == k);
                        }
                        if registry_map(r1).contains_key(k) {
                            let j = choose|j: int| 0 <= j < r1.len() && r1[j].0@ == k;
                            if j != i {
                                assert(r0[j].0@ == k);
                            }
                        }
                    }
                    assert forall|k: Seq<char>| #[trigger] registry_map(r1).contains_key(k)
                        implies registry_map(r1)[k] == registry_map(r0).insert(id@, bytes)[k] by {
                        let j = choose|j: int| 0 <= j < r1.len() && r1[j].0@ == k;
                        lemma_registry_at(r1, j);
                        if j != i as int {
                            assert(r0[j] == r1[j]);
                            lemma_registry_at(r0, j);
                        }
                    }
                    assert(registry_map(r1) =~= registry_map(r0).insert(id@, bytes));
                }
            },
            None => {
                self.registered.push((id.to_owned(), wasm_bytes));
                proof {
                    let r1 = self.registered@;
                    assert(ids_distinct(r1)) by {
                        assert forall|a: int, b: int| 0 <= a < b < r1.len() implies r1[a].0@ != r1[b].0@ by {
                            if b == r1.len() - 1 {
                                assert(r0[a].0@ != id@) by {
                                    if r0[a].0@ == id@ {
                                        assert(registry_map(r0).contains_key(id@));
                                    }
                                }
                            } else {
                                assert(r0[a].0@ != r0[b].0@);
                            }
                        }
                    }
                    assert forall|k: Seq<char>| #[trigger] registry_map(r1).contains_key(k)
                        == registry_map(r0).insert(id@, bytes).contains_key(k) by {
                        if registry_map(r0).insert(id@, bytes).contains_key(k) {
                            if k == id@ {
                                assert(r1[r1.len() - 1].0@ == k);
                            } else {
                                let j = choose|j: int| 0 <= j < r0.len() && r0[j].0@ == k;
                                assert(r1[j].0@ == k);
                            }
                        }
                        if registry_map(r1).contains_key(k) {
                            let j = choose|j: int| 0 <= j < r1.len() && r1[j].0@ == k;
                            if j < r0.len() {
                                assert(r0[j].0@ == k);
                            }
                        }
                    }
                    assert forall|k: Seq<char>| #[trigger] registry_map(r1).contains_key(k)
                        implies registry_map(r1)[k] == registry_map(r0).insert(id@, bytes)[k] by {
                        let j = choose|j: int| 0 <= j < r1.len() && r1[j].0@ == k;
                        lemma_registry_at(r1, j);
                        if j < r0.len() {
                            assert(r0[j] == r1[j]);
                            lemma_registry_at(r0, j);
                        }
                    }
                    assert(registry_map(r1) =~= registry_map(r0).insert(id@, bytes));
                }
            },
        }
        proof {
            lemma_wrapping_add_is_wrap(self.stats.modules_registered, 1);
        }
        self.stats.modules_registered = self.stats.modules_registered.wrapping_add(1);
    }

    /// Remove a registered module and its cached compilation.
    pub fn unregister_module(&mut self, id: &str)
        requires
            old(self).wf(),
        ensures
            final(self).wf(),
            final(self).registered() == old(self).registered().remove(id@),
            has_key(old(self).cached(), id@) ==> final(self).cached() == old(self).cached().remove(
                entry_index(old(self).cached(), id@)),
            !has_key(old(self).cached(), id@) ==> final(self).cached() == old(self).cached(),
            final(self).capacity() == old(self).capacity(),
            final(self).counters() == old(self).counters(),
    {
        let ghost r0 = self.registered@;
        match self.find_registered(id) {
            Some(i) => {
                self.registered.remove(i);
                proof {
                    let r1 = self.registered@;
                    assert(ids_distinct(r1)) by {
                        assert forall|a: int, b: int| 0 <= a < b < r1.len() implies r1[a].0@ != r1[b].0@ by {
                            let a0 = if a < i { a } else { a + 1 };
                            let b0 = if b < i { b } else { b + 1 };
                            assert(r1[a] == r0[a0] && r1[b] == r0[b0]);
                            assert(r0[a0].0@ != r0[b0].0@);
                        }
                    }
                    assert forall|k: Seq<char>| #[trigger] registry_map(r1).contains_key(k)
                        == registry_map(r0).remove(id@).contains_key(k) by {
                        if registry_map(r0).remove(id@).contains_key(k) {
                            let j = choose|j: int| 0 <= j < r0.len() && r0[j].0@ == k;
                            assert(j != i);
                            if j < i {
                                assert(r1[j].0@ == k);
                            } else {
                                assert(r1[j - 1].0@ == k);
                            }
                        }
                        if registry_map(r1).contains_key(k) {
                            let j = choose|j: int| 0 <= j < r1.len() && r1[j].0@ == k;
                            let j0 = if j < i { j } else { j + 1 };
                            assert(r1[j] == r0[j0]);
                            assert(r0[j0].0@ != r0[i as int].0@) by {
                                if j0 < i { } else { }
                            }
                        }
                    }
                    assert forall|k: Seq<char>| #[trigger] registry_map(r1).contains_key(k)
                        implies registry_map(r1)[k] == registry_map(r0).remove(id@)[k] by {
                        let j = choose|j: int| 0 <= j < r1.len() && r1[j].0@ == k;
                        lemma_registry_at(r1, j);
                        let j0 = if j < i { j } else { j + 1 };
                        assert(r1[j] == r0[j0]);
                        lemma_registry_at(r0, j0);
                    }
                    assert(registry_map(r1) =~= registry_map(r0).remove(id@));
                }
            },
            None => {
                assert(registry_map(r0).remove(id@) =~= registry_map(r0));
            },
        }
        let ghost c0 = self.cached();
        let popped = cache_pop(&mut self.cache, id);
        proof {
            if popped is Some {
                let i = entry_index(c0, id@);
                let c1 = self.cached();
                assert forall|a: int, b: int| 0 <= a < b < c1.len() implies c1[a].0 != c1[b].0 by {
                    let a0 = if a < i { a } else { a + 1 };
                    let b0 = if b < i { b } else { b + 1 };
                    assert(c1[a] == c0[a0] && c1[b] == c0[b0]);
                }
            }
        }
    }

    /// Get a compiled module, compiling it on first access.
    ///
    /// A cached module is handed out (and becomes the most recently used);
    /// otherwise the registered bytes are compiled and the module cached,
    /// dropping the least recently used module when the cache is full.
    pub fn get_or_compile(&mut self, id: &str) -> (r: Result<Arc<Module>, LoaderError>)
        requires
            old(self).wf(),
        ensures
            final(self).wf(),
            final(self).registered() == old(self).registered(),
            final(self).capacity() == old(self).capacity(),
            final(self).engine_spec() == old(self).engine_spec(),
            has_key(old(self).cached(), id@) ==> ({
                let i = entry_index(old(self).cached(), id@);
                &&& r == Ok::<Arc<Module>, LoaderError>(old(self).cached()[i].1.module)
                &&& final(self).cached() == touch(old(self).cached(), i)
                &&& final(self).counters() == (LoaderStats {
                        cache_hits: wrap_add(old(self).counters().cache_hits, 1),
                        ..old(self).counters()
                    })
            }),
            !has_key(old(self).cached(), id@) && !old(self).registered().contains_key(id@) ==> ({
                &&& r matches Err(LoaderError::NotRegistered(s)) && s@ == id@
                &&& final(self).cached() == old(self).cached()
                &&& final(self).counters() == (LoaderStats {
                        cache_misses: wrap_add(old(self).counters().cache_misses, 1),
                        ..old(self).counters()
                    })
            }),
            !has_key(old(self).cached(), id@) && old(self).registered().contains_key(id@) ==> ({
                let full = old(self).cached().len() == old(self).capacity();
                match r {
                    Ok(m) => {
                        let fresh = final(self).cached().last();
                        &&& final(self).cached().len() > 0
                        &&& fresh.0 == id@
                        &&& fresh.1.module == m
                        &&& fresh.1.source@ == old(self).registered()[id@]
                        &&& fresh.1.engine@ == old(self).engine_spec()
                        &&& fresh.1.compile_time_us == whole_micros(fresh.1.compile_duration@) as u64
                        &&& final(self).cached().drop_last() == if full {
                                old(self).cached().drop_first()
                            } else {
                                old(self).cached()
                            }
                        &&& final(self).counters() == (LoaderStats {
                                cache_misses: wrap_add(old(self).counters().cache_misses, 1),
                                modules_compiled: wrap_add(old(self).counters().modules_compiled, 1),
                                total_compile_time_us: wrap_add(old(self).counters().total_compile_time_us,
                                    fresh.1.compile_time_us as nat),
                                evictions: if full {
                                    wrap_add(old(self).counters().evictions, 1)
                                } else {
                                    old(self).counters().evictions
                                },
                                ..old(self).counters()
                            })
                    },
                    Err(e) => {
                        &&& e is Compile
                        &&& final(self).cached() == old(self).cached()
                        &&& final(self).counters() == (LoaderStats {
                                cache_misses: wrap_add(old(self).counters().cache_misses, 1),
                                ..old(self).counters()
                            })
                    },
                }
            }),
    {
        let ghost c0 = self.cached();
        match cache_get_module(&mut self.cache, id) {
            Some(module) => {
                proof {
                    lemma_wrapping_add_is_wrap(self.stats.cache_hits, 1);
                    let i = entry_index(c0, id@);
                    let c1 = self.cached();
                    assert forall|a: int, b: int| 0 <= a < b < c1.len() implies c1[a].0 != c1[b].0 by {
                        let last = c1.len() - 1;
                        let a0 = if a < i { a } else if a < last { a + 1 } else { i };
                        let b0 = if b < i { b } else if b < last { b + 1 } else { i };
                        assert(c1[a] == c0[a0] && c1[b] == c0[b0]);
                        assert(a0 != b0);
                        if a0 < b0 {
                            assert(c0[a0].0 != c0[b0].0);
                        } else {
                            assert(c0[b0].0 != c0[a0].0);
                        }
                    }
                }
                self.stats.cache_hits = self.stats.cache_hits.wrapping_add(1);
                return Ok(module);
            },
            None => {},
        }
        proof {
            lemma_wrapping_add_is_wrap(self.stats.cache_misses, 1);
        }
        self.stats.cache_misses = self.stats.cache_misses.wrapping_add(1);
        let index = match self.find_registered(id) {
            Some(i) => i,
            None => {
                return Err(LoaderError::NotRegistered(id.to_owned()));
            },
        };
        proof {
            lemma_registry_at(self.registered@, index as int);
        }
        let start = instant_now();
        let (compiled, source, engine) = compile_module(&self.engine, self.registered[index].1.as_slice());
        let compile_time = instant_elapsed(&start);
        self.cache_compiled(id, compiled, source, engine, compile_time)
    }

    /// Cache the outcome of compiling module `id` from the bytes `source`
    /// with `engine`, which took `compile_time` (counted in whole
    /// microseconds, kept modulo 2^64): a compiled
    /// module becomes the most
    /// recently used entry (replacing an entry with the same id, or else
    /// dropping the least recently used entry when the cache is full) and is
    /// handed out; a compile error is handed back as `Compile`, and nothing
    /// changes.
    pub fn cache_compiled(
        &mut self,
        id: &str,
        compiled: Result<Module, wasmtime::Error>,
        source: Ghost<Seq<u8>>,
        engine: Ghost<Engine>,
        compile_time: Duration,
    ) -> (r: Result<Arc<Module>, LoaderError>)
        requires
            old(self).wf(),
        ensures
            final(self).wf(),
            final(self).registered() == old(self).registered(),
            final(self).capacity() == old(self).capacity(),
            final(self).engine_spec() == old(self).engine_spec(),
            match compiled {
                Ok(m) => {
                    let c = old(self).cached();
                    let full = c.len() == old(self).capacity();
                    let fresh = final(self).cached().last();
                    &&& r matches Ok(a) && a == m
                    &&& final(self).cached().len() > 0
                    &&& fresh.0 == id@
                    &&& fresh.1.module == m
                    &&& fresh.1.compile_duration@ == compile_time
                    &&& fresh.1.compile_time_us == whole_micros(compile_time) as u64
                    &&& fresh.1.source@ == source@
                    &&& fresh.1.engine@ == engine@
                    &&& final(self).cached().drop_last() == if has_key(c, id@) {
                            c.remove(entry_index(c, id@))
                        } else if full {
                            c.drop_first()
                        } else {
                            c
                        }
                    &&& final(self).counters() == (LoaderStats {
                            modules_compiled: wrap_add(old(self).counters().modules_compiled, 1),
                            total_compile_time_us: wrap_add(old(self).counters().total_compile_time_us,
                                (whole_micros(compile_time) as u64) as nat),
                            evictions: if full {
                                wrap_add(old(self).counters().evictions, 1)
                            } else {
                                old(self).counters().evictions
                            },
                            ..old(self).counters()
                        })
                },
                Err(e) => {
                    &&& r matches Err(LoaderError::Compile(e2)) && e2 == e
                    &&& final(self).cached() == old(self).cached()
                    &&& final(self).counters() == old(self).counters()
                },
            },
    {
        let module = match compiled {
            Ok(m) => m,
            Err(e) => {
                return Err(LoaderError::Compile(e));
            },
        };
        let micros = duration_as_micros(&compile_time);
        let compile_time_us: u64 = #[verifier::truncate] (micros as u64);
        let ghost c0 = self.cached();
        proof {
            lemma_wrapping_add_is_wrap(self.stats.total_compile_time_us, compile_time_us);
            lemma_wrapping_add_is_wrap(self.stats.modules_compiled, 1);
            lemma_wrapping_add_is_wrap(self.stats.evictions, 1);
        }
        self.stats.total_compile_time_us = self.stats.total_compile_time_us.wrapping_add(compile_time_us);
        self.stats.modules_compiled = self.stats.modules_compiled.wrapping_add(1);
        let arc_module = Arc::new(module);
        if cache_len(&self.cache) == cache_cap(&self.cache) {
            self.stats.evictions = self.stats.evictions.wrapping_add(1);
        }
        let entry = ModuleEntry {
            module: share_module(&arc_module),
            compiled_at: instant_now(),
            compile_time_us,
            compile_duration: Ghost(compile_time),
            source,
            engine,
        };
        cache_put(&mut self.cache, id.to_owned(), entry);
        proof {
            let c1 = self.cached();
            if has_key(c0, id@) {
                let i = entry_index(c0, id@);
                assert(c1.drop_last() =~= c0.remove(i));
                assert forall|a: int, b: int| 0 <= a < b < c1.len() implies c1[a].0 != c1[b].0 by {
                    let a0 = if a < i { a } else { a + 1 };
                    if b == c1.len() - 1 {
                        assert(c1[a] == c0[a0]);
                        if a0 < i {
                            assert(c0[a0].0 != c0[i].0);
                        } else {
                            assert(c0[i].0 != c0[a0].0);
                        }
                    } else {
                        let b0 = if b < i { b } else { b + 1 };
                        assert(c1[a] == c0[a0] && c1[b] == c0[b0]);
                    }
                }
            } else {
                assert(c1.drop_last() =~= if c0.len() == cache_capacity(self.cache) {
                    c0.drop_first()
                } else {
                    c0
                });
                assert forall|a: int, b: int| 0 <= a < b < c1.len() implies c1[a].0 != c1[b].0 by {
                    if b == c1.len() - 1 {
                        if c0.len() == cache_capacity(self.cache) {
                            assert(c1[a] == c0[a + 1]);
                        } else {
                            assert(c1[a] == c0[a]);
                        }
                    } else {
                        if c0.len() == cache_capacity(self.cache) {
                            assert(c1[a] == c0[a + 1] && c1[b] == c0[b + 1]);
                        } else {
                            assert(c1[a] == c0[a] && c1[b] == c0[b]);
                        }
                    }
                }
            }
        }
        Ok(arc_module)
    }

    /// Eagerly compile and cache a module (preload for critical-path modules).
    pub fn preload(&mut self, id: &str) -> (r: Result<(), LoaderError>)
        requires
            old(self).wf(),
        ensures
            final(self).wf(),
            final(self).registered() == old(self).registered(),
            final(self).capacity() == old(self).capacity(),
            final(self).engine_spec() == old(self).engine_spec(),
            has_key(old(self).cached(), id@) ==> ({
                &&& r is Ok
                &&& final(self).cached() == touch(old(self).cached(), entry_index(old(self).cached(), id@))
                &&& final(self).counters() == (LoaderStats {
                        cache_hits: wrap_add(old(self).counters().cache_hits, 1),
                        ..old(self).counters()
                    })
            }),
            !has_key(old(self).cached(), id@) && !old(self).registered().contains_key(id@) ==> ({
                &&& r matches Err(LoaderError::NotRegistered(s)) && s@ == id@
                &&& final(self).cached() == old(self).cached()
                &&& final(self).counters() == (LoaderStats {
                        cache_misses: wrap_add(old(self).counters().cache_misses, 1),
                        ..old(self).counters()
                    })
            }),
            !has_key(old(self).cached(), id@) && old(self).registered().contains_key(id@) ==> ({
                let full = old(self).cached().len() == old(self).capacity();
                match r {
                    Ok(()) => {
                        let fresh = final(self).cached().last();
                        &&& final(self).cached().len() > 0
                        &&& fresh.0 == id@
                        &&& fresh.1.source@ == old(self).registered()[id@]
                        &&& fresh.1.engine@ == old(self).engine_spec()
                        &&& fresh.1.compile_time_us == whole_micros(fresh.1.compile_duration@) as u64
                        &&& final(self).cached().drop_last() == if full {
                                old(self).cached().drop_first()
                            } else {
                                old(self).cached()
                            }
                        &&& final(self).counters() == (LoaderStats {
                                cache_misses: wrap_add(old(self).counters().cache_misses, 1),
                                modules_compiled: wrap_add(old(self).counters().modules_compiled, 1),
                                total_compile_time_us: wrap_add(old(self).counters().total_compile_time_us,
                                    fresh.1.compile_time_us as nat),
                                evictions: if full {
                                    wrap_add(old(self).counters().evictions, 1)
                                } else {
                                    old(self).counters().evictions
                                },
                                ..old(self).counters()
                            })
                    },
                    Err(e) => {
                        &&& e is Compile
                        &&& final(self).cached() == old(self).cached()
                        &&& final(self).counters() == (LoaderStats {
                                cache_misses: wrap_add(old(self).counters().cache_misses, 1),
                                ..old(self).counters()
                            })
                    },
                }
            }),
            r is Ok ==> has_key(final(self).cached(), id@)
                && final(self).cached().last().0 == id@,
    {
        match self.get_or_compile(id) {
            Ok(_) => {
                proof {
                    let c = self.cached();
                    assert(c[c.len() - 1].0 == id@);
                }
                Ok(())
            },
            Err(e) => Err(e),
        }
    }

    /// Evict a compiled module from the cache (its bytes stay registered).
    pub fn evict(&mut self, id: &str)
        requires
            old(self).wf(),
        ensures
            final(self).wf(),
            final(self).registered() == old(self).registered(),
            final(self).capacity() == old(self).capacity(),
            has_key(old(self).cached(), id@) ==> final(self).cached() == old(self).cached().remove(
                entry_index(old(self).cached(), id@))
                && final(self).counters() == (LoaderStats {
                    evictions: wrap_add(old(self).counters().evictions, 1),
                    ..old(self).counters()
                }),
            !has_key(old(self).cached(), id@) ==> final(self).cached() == old(self).cached()
                && final(self).counters() == old(self).counters(),
    {
        let ghost c0 = self.cached();
        let popped = cache_pop(&mut self.cache, id);
        if popped.is_some() {
            proof {
                lemma_wrapping_add_is_wrap(self.stats.evictions, 1);
                let i = entry_index(c0, id@);
                let c1 = self.cached();
                assert forall|a: int, b: int| 0 <= a < b < c1.len() implies c1[a].0 != c1[b].0 by {
                    let a0 = if a < i { a } else { a + 1 };
                    let b0 = if b < i { b } else { b + 1 };
                    assert(c1[a] == c0[a0] && c1[b] == c0[b0]);
                }
            }
            self.stats.evictions = self.stats.evictions.wrapping_add(1);
        }
    }

    /// Number of currently cached compiled modules.
    pub fn cached_count(&self) -> (r: usize)
        ensures
            r == self.cached().len(),
    {
        cache_len(&self.cache)
    }

    /// Number of registered module sources.
    pub fn registered_count(&self) -> (r: usize)
        requires
            self.wf(),
        ensures
            r == self.registered().len(),
    {
        proof {
            lemma_registry_len(self.registered@);
        }
        self.registered.len()
    }

    /// The engine.
    pub fn engine(&self) -> (r: &Engine)
        ensures
            *r == self.engine_spec(),
    {
        &self.engine
    }

    /// Cumulative statistics.
    pub fn stats(&self) -> (r: LoaderStats)
        ensures
            r == self.counters(),
    {
        self.stats
    }

    /// Index of the registered source with this id.
    fn find_registered(&self, id: &str) -> (r: Option<usize>)
        requires
            self.wf(),
        ensures
            r matches Some(i) ==> i < self.registered@.len() && self.registered@[i as int].0@ == id@,
            r is None ==> !self.registered().contains_key(id@),
    {
        let key = id.to_owned();
        let mut i: usize = 0;
        while i < self.registered.len()
            invariant
                i <= self.registered.len(),
                key@ == id@,
                forall|j: int| 0 <= j < i ==> self.registered@[j].0@ != id@,
            decreases self.registered.len() - i,
        {
            if self.registered[i].0 == key {
                return Some(i);
            }
            i = i + 1;
        }
        proof {
            if self.registered().contains_key(id@) {
                let j = choose|j: int| 0 <= j < self.registered@.len() && self.registered@[j].0@ == id@;
            }
        }
        None
    }
}

impl LoaderStats {
    /// All counters zero.
    pub open spec fn default_spec() -> LoaderStats {
        LoaderStats {
            cache_hits: 0, cache_misses: 0, total_compile_time_us: 0,
            modules_registered: 0, modules_compiled: 0, evictions: 0,
        }
    }
}

} // verus!

verus! {

/// The cache never holds more compiled modules than its capacity.
pub proof fn law_cache_bounded(loader: &LazyWasmLoader)
    requires
        loader.wf(),
    ensures
        loader.cached().len() <= loader.capacity(),
{
}

/// A module just compiled or used is the most recently used entry, so the
/// next request for the same id is a hit that hands out the same module.
pub proof fn law_last_used_is_reused(c: Seq<(Seq<char>, ModuleEntry)>, id: Seq<char>)
    requires
        keys_distinct(c),
        c.len() > 0,
        c.last().0 == id,
    ensures
        has_key(c, id),
        entry_index(c, id) == c.len() - 1,
        c[entry_index(c, id)].1.module == c.last().1.module,
{
    assert(c[c.len() - 1].0 == id);
    let i = entry_index(c, id);
    if i != c.len() - 1 {
        assert(c[i].0 != c[c.len() - 1].0);
    }
}

/// Using a cached module keeps every cached module, only moving the used
/// one to the most recently used end.
pub proof fn law_hit_keeps_contents(c: Seq<(Seq<char>, ModuleEntry)>, i: int)
    requires
        0 <= i < c.len(),
    ensures
        touch(c, i).len() == c.len(),
        touch(c, i).last() == c[i],
        forall|j: int| 0 <= j < c.len() ==> #[trigger] touch(c, i).contains(c[j]),
        forall|j: int| 0 <= j < c.len() ==> c.contains(#[trigger] touch(c, i)[j]),
{
    let t = touch(c, i);
    assert forall|j: int| 0 <= j < c.len() implies #[trigger] t.contains(c[j]) by {
        if j < i {
            assert(t[j] == c[j]);
        } else if j > i {
            assert(t[j - 1] == c[j]);
        } else {
            assert(t[c.len() - 1] == c[j]);
        }
    }
    assert forall|j: int| 0 <= j < c.len() implies c.contains(#[trigger] t[j]) by {
        if j < i {
            assert(t[j] == c[j]);
        } else if j < c.len() - 1 {
            assert(t[j] == c[j + 1]);
        } else {
            assert(t[j] == c[i]);
        }
    }
}

/// Least-recently-used eviction: when a miss on a full cache caches a new
/// module, the module dropped is the least recently used one and every
/// other cached module stays.
pub proof fn law_full_miss_drops_least_recent(
    c: Seq<(Seq<char>, ModuleEntry)>,
    after: Seq<(Seq<char>, ModuleEntry)>,
    id: Seq<char>,
)
    requires
        keys_distinct(c),
        c.len() > 0,
        !has_key(c, id),
        after.len() > 0,
        after.last().0 == id,
        after.drop_last() == c.drop_first(),
    ensures
        !has_key(after, c[0].0),
        forall|j: int| 1 <= j < c.len() ==> has_key(after, #[trigger] c[j].0),
{
    assert(after.drop_last().len() == c.drop_first().len());
    assert(after.drop_last().len() == after.len() - 1);
    assert(c.drop_first().len() == c.len() - 1);
    if has_key(after, c[0].0) {
        let i = choose|i: int| 0 <= i < after.len() && after[i].0 == c[0].0;
        if i == after.len() - 1 {
            assert(c[0].0 == id);
            assert(has_key(c, id));
        } else {
            assert(after[i] == after.drop_last()[i]);
            assert(c.drop_first()[i] == c[i + 1]);
            assert(after[i] == c[i + 1]);
            assert(c[0].0 != c[i + 1].0);
        }
    }
    assert forall|j: int| 1 <= j < c.len() implies has_key(after, #[trigger] c[j].0) by {
        assert(c.drop_first()[j - 1] == c[j]);
        assert(after.drop_last()[j - 1] == after[j - 1]);
        assert(after[j - 1] == c[j]);
    }
}

/// Compile time is counted in microseconds: the entry of a module that took
/// `m` whole microseconds to compile records `m`, and the statistics' total
/// grows by exactly `m` (while it stays below 2^64).
pub proof fn law_compile_time_in_micros(before: LoaderStats, after: LoaderStats, e: ModuleEntry)
    requires
        e.compile_time_us == whole_micros(e.compile_duration@) as u64,
        after.total_compile_time_us == wrap_add(before.total_compile_time_us, e.compile_time_us as nat),
        before.total_compile_time_us + whole_micros(e.compile_duration@) < 0x1_0000_0000_0000_0000,
    ensures
        e.compile_time_us == whole_micros(e.compile_duration@),
        after.total_compile_time_us == before.total_compile_time_us + whole_micros(e.compile_duration@),
{
    let m: u128 = whole_micros(e.compile_duration@);
    assert(m < 0x1_0000_0000_0000_0000);
    assert(m < 0x1_0000_0000_0000_0000 ==> (m as u64) == m) by (bit_vector);
    vstd::arithmetic::div_mod::lemma_small_mod(
        (before.total_compile_time_us + m) as nat, 0x1_0000_0000_0000_0000);
}

} // verus!
