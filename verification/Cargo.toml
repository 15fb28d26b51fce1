[package]
name = "distributed_verification"
version = "0.1.0"
edition = "2021"
publish = false

[dependencies]
indexmap = "*"
rustc-stable-hash = "*"
serde = { version = "*", features = ["derive"] }
serde_json = "*"
clap = { version = "*", features = ["derive"] }
