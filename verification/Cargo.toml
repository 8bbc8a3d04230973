[package]
name = "mini_evm"
version = "0.1.0"
edition = "2021"
publish = false

[dependencies]
primitive-types = "*"
sha3 = "*"
chrono = "*"
hex = "*"
serde = { version = "*", features = ["derive"] }
serde_json = "*"
