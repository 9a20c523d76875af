[package]
name = "parlance"
version = "0.1.0"
edition = "2021"
publish = false

[dependencies]
toml = "*"
serde = { version = "1", features = ["derive"] }
rkyv = "0.8"
clap = { version = "4", features = ["derive"] }
