[package]
name = "flowistry"
version = "0.1.0"
edition = "2021"
publish = false

[dependencies]
anyhow = "1"
fluid-let = "1"
log = "0.4"
rustc_utils = "=0.6.3-nightly-2023-04-12"
serde = { version = "1", features = ["derive"] }
