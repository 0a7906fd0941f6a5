[package]
name = "turmoil"
version = "0.1.0"
edition = "2021"
publish = false

[dependencies]
bytes = "=1.12.1"
futures = "=0.3.34"
indexmap = "=2.14.2"
rand = { version = "=0.9.5", features = ["small_rng"] }
rand_distr = "=0.5.1"
regex = "=1.13.1"
scoped-tls = "=1.0.1"
serde = { version = "=1.0.229", features = ["derive"] }
serde_json = "=1.0.154"
tokio = { version = "=1.54.1", features = ["full", "test-util"] }
tokio-stream = "=0.1.19"
tracing = "=0.1.44"
unicycle = "=0.10.3"
uuid = { version = "=1.29.0", features = ["v4"] }
