[package]
name = "quotes"
version = "0.1.0"
edition = "2021"
publish = false

[dependencies]
anyhow = "*"
clap = { version = "*", features = ["derive"] }
crossbeam-channel = "*"
ctrlc = "*"
env_logger = "*"
log = "*"
rand = "*"
thiserror = "*"
