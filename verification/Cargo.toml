[package]
name = "kamino"
version = "0.1.0"
edition = "2021"
publish = false

[dependencies]
async-trait = "=0.1.92"
bytes = "=1.12.1"
clap = { version = "=4.6.7", features = ["derive"] }
futures = "=0.3.34"
humantime-serde = "1"
parking_lot = "=0.12.5"
rand = { version = "=0.8.8", features = ["small_rng"] }
regex = "1"
rmp-serde = "=1.3.1"
serde = { version = "=1.0.229", features = ["derive"] }
thiserror = "=1.0.69"
tokio = { version = "=1.54.1", features = ["full"] }
tokio-util = { version = "=0.7.20", features = ["codec"] }
toml = "=0.8.23"
tracing = "=0.1.44"
tracing-subscriber = { version = "=0.3.23", features = ["env-filter", "json"] }
xxhash-rust = { version = "=0.8.19", features = ["xxh3"] }
