[package]
name = "sc_transport"
version = "0.1.0"
edition = "2021"
publish = false

[dependencies]
zstd = "0.13"
blake3 = "1"
reed-solomon-erasure = "6"
tokio = { version = "1", features = ["full"] }
quinn = { version = "0.11", default-features = false, features = ["runtime-tokio", "rustls-ring", "log"] }
quinn-proto = { version = "0.11", default-features = false, features = ["rustls-ring"] }
rustls = { version = "0.23", default-features = false, features = ["ring", "std", "logging", "tls12"] }
rustls-platform-verifier = "0.5"
rcgen = "0.13"
serde = { version = "1", features = ["derive"] }
serde_json = "1"
bincode = { version = "2", features = ["serde"] }
rmp-serde = "1"
anyhow = "1"
thiserror = "2"
async-trait = "0.1"
futures = "0.3"
bytes = "1"
socket2 = "0.5"
dirs = "5"
tracing = "0.1"
tracing-subscriber = { version = "0.3", features = ["env-filter"] }
clap = { version = "4", features = ["derive"] }
indicatif = "0.17"
axum = "0.8"
toml = "0.8"
uuid = { version = "1", features = ["v4", "serde"] }
prometheus = { version = "0.13", default-features = false }
tokio-stream = "0.1"
