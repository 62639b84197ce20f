[package]
name = "simple_solver"
version = "0.1.0"
edition = "2021"
publish = false

[dependencies]
anyhow = "1"
clap = { version = "4", features = ["derive"] }
dimacs = "*"
env_logger = "*"
log = "0.4"
