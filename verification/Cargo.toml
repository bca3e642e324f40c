[package]
name = "loadgen"
version = "0.1.0"
edition = "2021"
publish = false

[dependencies]
byteorder = "1"
clap = { version = "4", features = ["derive"] }
env_logger = "0.10"
log = "0.4"
rand = "0.8"
rand_distr = "0.4"
reqwest = { version = "0.11", default-features = false }
tokio = { version = "1", features = ["rt-multi-thread", "sync", "time"] }
