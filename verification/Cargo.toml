[package]
name = "cnosdb"
version = "0.1.0"
edition = "2021"
publish = false

[dependencies]
async-trait = "0.1"
blake3 = { version = "=1.5.5", features = ["pure"] }
chrono = { version = "=0.4.45", default-features = false, features = ["std"] }
tokio = { version = "1", features = ["rt", "sync", "macros"] }
tonic = "0.11"
tonic-build = "0.11"
