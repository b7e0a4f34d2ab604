[package]
name = "mementocached"
version = "0.1.0"
edition = "2021"
publish = false

[dependencies]
ahash = "=0.8.6"
argparse = "=0.2.2"
async-channel = "=1.9.0"
axum = "=0.6.20"
bytes = "=1.12.1"
console-subscriber = "=0.1.10"
lazy_static = "=1.5.1"
num_cpus = "=1.17.0"
prometheus = { version = "=0.13.4", features = ["process"] }
protobuf = "=3.7.2"
rand = "=0.8.8"
tokio = { version = "=1.54.1", features = ["full"] }
tracing = "=0.1.44"
tracing-subscriber = "=0.3.23"
