[package]
name = "wasmcheck"
version = "0.1.0"
edition = "2021"
publish = false

[dependencies]
brotli = "*"
flate2 = "*"
glob = "*"
wasmparser = "*"
serde = { version = "1", features = ["derive"] }
serde_json = "1"
thiserror = "*"
clap = { version = "4", features = ["derive"] }
owo-colors = "*"
