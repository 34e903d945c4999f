[package]
name = "auth-kademlia-rs"
version = "0.1.0"
edition = "2021"
publish = false

[dependencies]
async-trait = "0.1"
bincode = "1.3"
dashmap = "6"
futures = "0.3"
hex = "0.4"
log = "0.4"
primitive-types = { version = "0.12", default-features = false, features = ["std"] }
pyo3 = { version = "0.22", features = ["extension-module", "abi3-py38"] }
pyo3-async-runtimes = { version = "0.22", features = ["tokio-runtime"] }
rand = "0.8"
serde = { version = "1", features = ["derive"] }
serde_json = "1"
sha1 = "0.10"
thiserror = "1"
tokio = { version = "1", features = ["net", "rt-multi-thread", "sync", "time", "macros"] }
