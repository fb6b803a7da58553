[package]
name = "manifold"
version = "0.1.0"
edition = "2021"
publish = false

[dependencies]
anyhow = "1"
async-trait = "0.1"
chrono = { version = "0.4", default-features = false, features = ["clock", "serde", "std"] }
clap = { version = "4", features = ["derive"] }
colored = "2"
futures = "0.3"
memmap2 = "*"
parking_lot = "0.12"
serde = { version = "1", features = ["derive"] }
serde_bytes = "0.11"
serde_json = { version = "1", features = ["preserve_order"] }
serde_yaml = "0.9"
tabled = "0.8"
thiserror = "1"
tokio = { version = "1", features = ["full"] }
toml = "0.8"
uuid = { version = "1", features = ["serde", "v4"] }
wasmparser = "*"
wasmtime = { version = "13", default-features = false, features = ["async", "cranelift"] }
wat = "1"
