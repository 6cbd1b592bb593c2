[package]
name = "cordis"
version = "0.1.0"
edition = "2021"
publish = false

[dependencies]
blake3 = "=1.8.7"
chrono = "0.4"
futures = "0.3"
jsonschema = { version = "=0.60.2", default-features = false }
notify-debouncer-mini = "0.7"
rhai = { version = "=1.27.0", features = ["serde"] }
rmp-serde = "1"
schemars = "1"
serde = { version = "1", features = ["derive"] }
serde-saphyr = "2"
serde_json = "=1.0.154"
thiserror = "2"
tokio = { version = "1", features = ["full"] }
tracing = "0.1"
wasmtime = { version = "48", features = ["component-model", "async"] }
wasmtime-wasi = "48"
