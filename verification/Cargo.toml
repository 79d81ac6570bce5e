[package]
name = "mb-node"
version = "0.1.0"
edition = "2021"
publish = false

[dependencies]
anyhow = "=1.0.104"
blake3 = "=1.8.7"
cbor4ii = { version = "=0.3.3", features = ["serde1", "use_std"] }
data-encoding = "=2.11.1"
fs2 = "=0.4.3"
futures = "=0.3.34"
libc = "=0.2.191"
libp2p = { version = "=0.56.0", default-features = false, features = ["autonat", "cbor", "dcutr", "ed25519", "identify", "kad", "macros", "noise", "ping", "relay", "request-response", "yamux"] }
serde = { version = "=1.0.229", features = ["derive"] }
serde_json = "=1.0.154"
thiserror = "=2.0.21"
tokio = { version = "=1.54.1", features = ["fs", "io-util", "macros", "net", "rt", "rt-multi-thread", "sync", "time"] }
toml = "=1.1.8"
tor-hscrypto = { version = "=0.47.0", default-features = false }
tor-llcrypto = { version = "=0.47.0", default-features = false }
tracing = "=0.1.44"
uuid = { version = "=1.29.0", features = ["v4"] }
