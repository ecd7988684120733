[package]
name = "spartan_rust"
version = "0.1.0"
edition = "2021"
publish = false

[dependencies]
rust-crypto = "0.2"
rustc-serialize = "0.3"
rand = "0.8"
chrono = "0.4"

[dev-dependencies]
serde_json = { version = "1", features = ["preserve_order"] }
