[package]
name = "raptorq_ts"
version = "0.1.0"
edition = "2021"
publish = false

[dependencies]
raptorq = "2"
anyhow = "1"
clap = { version = "4", features = ["derive"] }
thiserror = "1"
tracing = "0.1"
tracing-subscriber = { version = "0.3", features = ["env-filter"] }
zmq = "0.10"
