[package]
name = "counter_bench"
version = "0.1.0"
edition = "2021"
publish = false

[dependencies]
num-format = "0.4"
hyper = { version = "0.14", features = ["full"] }
tokio = { version = "1", features = ["full"] }
anyhow = "1"
