[package]
name = "cluster_controller"
version = "0.1.0"
edition = "2021"
publish = false

[dependencies]
futures = "=0.3.34"
tokio = { version = "=1.54.1", features = ["time", "macros", "rt", "sync"] }
anyhow = "=1.0.104"
tracing = "=0.1.44"
parking_lot = "=0.12.5"
async-lock = "=3.5.0"
frame-support = "*"
