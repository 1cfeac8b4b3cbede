[package]
name = "vault_response"
version = "0.1.0"
edition = "2021"
publish = false

[dependencies]
proptest = { version = "1", default-features = false, features = ["std"] }
