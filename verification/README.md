# alloyfang

A verified library for the optimisation layer of an agent runtime:

- `reference_passing` — a pool of named, reference-counted byte buffers with a
  byte limit and oldest-first eviction (`buffer_model` holds its mathematical
  model, `slot_map` and `shared_bytes` the concurrent map and byte buffers it
  is built on);
- `lazy_loader` — WebAssembly modules registered as bytes and compiled on first
  use, with a least-recently-used cache of compiled modules (`compiled_cache`,
  `wasm_engine`);
- `parallel_executor` — dependency levels of a workflow DAG and the executor's
  accounting;
- `mock_llm`, `mock_tools`, `bench_config`, `config` — scripted drivers, mock
  tools and configuration used by benchmarks;
- `metrics`, `proc_status`, `decimal`, `clock` — byte formatting, reading the
  resident set size out of `/proc/self/status`, decimal rendering and timing.

Every function in `src/` carries a contract checked by Verus; the laws the
library keeps are public proof functions named `law_*`.

`app/` holds what Verus does not check: the asynchronous group and DAG runners,
the runtime handles behind asynchronous locks, the floating-point metrics
report, file reading, and serialisable copies of the library's records.
