[package]
name = "soroban-forge"
version = "0.1.0"
edition = "2021"
publish = false

[dependencies]
soroban-sdk = "*"
clap = { version = "4", features = ["derive"] }
anyhow = "1"
thiserror = "*"
tracing-subscriber = "*"
