[package]
name = "payback"
version = "0.1.0"
edition = "2021"
publish = false

[dependencies]
itertools = "*"
csv = "1"
serde = "1"
serde_derive = "1"
clap = { version = "4", features = ["derive"] }
clap-stdin = "*"
env_logger = "*"
log = "0.4"
petgraph = "*"
