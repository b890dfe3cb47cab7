[package]
name = "network"
version = "0.1.0"
edition = "2021"
publish = false

[dependencies]
quick-xml = "=0.31.0"
flate2 = "=1.1.10"
anyhow = "=1.0.104"
thiserror = "=2.0.21"
