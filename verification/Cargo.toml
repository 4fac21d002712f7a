[package]
name = "rust_json_parse"
version = "0.1.0"
edition = "2021"
publish = false

[dependencies]
simdutf8 = "*"
thiserror = "*"
anyhow = "*"
clap = { version = "*", features = ["derive"] }
