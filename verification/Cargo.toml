[package]
name = "spv_node"
version = "0.1.0"
edition = "2021"
publish = false

[dependencies]
murmel = "=0.2.1"
bitcoin = { version = "=0.21.0", features = ["use-serde"] }
bitcoin_hashes = "=0.7.6"
futures-preview = "=0.3.0-alpha.18"
futures-timer = "=0.3.0"
log = "=0.4.35"
rand = "=0.7.3"
simple_logger = "=0.5.0"
serde = "=1.0.118"
serde_derive = "=1.0.118"
