[package]
name = "ioutgt"
version = "0.1.0"
edition = "2021"
publish = false

[dependencies]
core_affinity = "0.8"
libc = "0.2"
rdma-mummy-sys = "*"
serde_json = "1"
sideway = "*"
tokio = { version = "1", features = ["io-util", "macros", "net", "rt", "sync", "time"] }
tracing = "0.1"
