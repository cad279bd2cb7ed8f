[package]
name = "alloyfang"
version = "0.1.0"
edition = "2021"
publish = false

[dependencies]
anyhow = "=1.0.104"
bytes = "=1.12.1"
dashmap = "=6.2.1"
lru = "=0.12.5"
num_cpus = "=1.17.0"
serde = { version = "=1.0.229", features = ["derive"] }
serde_json = "=1.0.154"
thiserror = "=2.0.21"
tokio = { version = "=1.54.1", features = ["sync", "rt", "rt-multi-thread", "time", "macros"] }
wasmtime = { version = "=46.0.3", default-features = false, features = ["cranelift", "runtime", "std"] }
