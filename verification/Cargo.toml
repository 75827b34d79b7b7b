[package]
name = "rust_can"
version = "0.1.0"
edition = "2021"
publish = false

[dependencies]
bytes = "1"
smallvec = "1"
flate2 = "1"
parking_lot = "0.12"
crossbeam = "0.8"
serde = { version = "1", features = ["derive"] }
serde_json = "1"
tokio = { version = "1", features = ["rt-multi-thread", "macros", "time", "sync"] }
tracing = "0.1"
async-trait = "0.1"
thiserror = "2"

[dev-dependencies]
