[package]
name = "git_rs"
version = "0.1.0"
edition = "2021"
publish = false

[dependencies]
rust-crypto = "*"
chrono = "*"
clap = { version = "*", features = ["derive"] }
