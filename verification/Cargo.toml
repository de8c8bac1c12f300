[package]
name = "rcompare"
version = "0.1.0"
edition = "2021"
publish = false

[dependencies]
fasthash = "*"
clap = { version = "*", features = ["derive"] }
serde = { version = "*", features = ["derive"] }
serde_json = "*"
