[package]
name = "reth-sentry-node"
version = "0.1.0"
edition = "2021"
publish = false

[dependencies]
alloy-consensus = "1.7"
alloy-eips = "1.7"
alloy-primitives = "1.5"
alloy-rlp = "0.3"
clap = { version = "4", features = ["derive"] }
eyre = "0.6"
futures-util = "0.3"
lru = "0.16"
reqwest = { version = "0.12", default-features = false, features = ["json"] }
secp256k1 = "0.30"
serde = { version = "1", features = ["derive"] }
serde_json = "1"
tokio = { version = "1", features = ["full"] }
tokio-stream = "0.1"
tokio-tungstenite = "0.28"
tokio-util = "0.7"
toml = "0.8"
tracing = "0.1"
tracing-subscriber = { version = "0.3", features = ["env-filter"] }
