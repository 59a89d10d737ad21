[package]
name = "tcct"
version = "0.1.0"
edition = "2021"
publish = false

[dependencies]
num-bigint-dig = { version = "0.8", features = ["rand"] }
num-traits = "0.2"
rand = "0.8"
rustc-hash = "1.1"
colored = "2"
log = "0.4"
env_logger = "0.10"
serde_json = "1"
