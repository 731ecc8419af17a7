[package]
name = "rustfuck"
version = "0.1.0"
edition = "2021"
publish = false

[dependencies]
anyhow = "*"
clap = { version = "*", features = ["derive"] }
dynasmrt = "*"
env_logger = "*"
human-panic = "*"
