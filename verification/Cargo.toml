[package]
name = "kmer_sim"
version = "0.1.0"
edition = "2021"
publish = false

[dependencies]
deadqueue = "*"
tokio = { version = "*", features = ["rt-multi-thread", "signal", "time", "sync", "macros"] }
futures = "*"
clap = { version = "*", features = ["derive"] }
env_logger = "*"
log = "*"
thiserror = "*"
