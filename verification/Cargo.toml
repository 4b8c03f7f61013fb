[package]
name = "ramu_rs"
version = "0.1.0"
edition = "2021"
publish = false

[dependencies]
cxx = "1.0"
serde = { version = "1.0", features = ["derive"] }
toml = "0.8"
tracing = "0.1"
tracing-subscriber = { version = "0.3", features = ["env-filter"] }
