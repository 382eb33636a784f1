[package]
name = "oauth_signer"
version = "0.1.0"
edition = "2021"
publish = false

[dependencies]
rust-crypto = "=0.2.36"
rustc-serialize = "=0.3.25"
time = "=0.1.45"
uuid = { version = "=1.29.0", features = ["v4"] }
