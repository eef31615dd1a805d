[package]
name = "rpxlog_core"
version = "0.1.0"
edition = "2021"
publish = false

[dependencies]
regex = "=1.13.1"
serde_yaml = "=0.9.34"
rust-stdf = "=1.1.0"
polars = { version = "0.55", default-features = false, features = ["fmt"] }
walkdir = "=2.5.0"
anyhow = "=1.0.104"
thiserror = "=1.0.69"
