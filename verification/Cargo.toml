[package]
name = "tfm_core"
version = "0.1.0"
edition = "2021"
publish = false

[dependencies]
anyhow = "=1.0.104"
clap = { version = "=4.6.7", features = ["derive"] }
serde = { version = "1", features = ["derive"] }
serde_json = "1"
serde_yaml = "=0.9.34"
sha2 = "=0.10.9"
tokio = { version = "1", features = ["macros", "rt-multi-thread"] }
wasmtime = { version = "=48.0.8", features = ["component-model", "component-model-async"] }
wasmtime-wasi = { version = "=48.0.8", features = ["p3"] }
