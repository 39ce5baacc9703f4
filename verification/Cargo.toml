[package]
name = "bowsernet"
version = "0.1.0"
edition = "2021"
publish = false

[dependencies]
flate2 = "1"
rustls = { version = "*", default-features = false, features = ["ring", "std", "logging", "tls12"] }
rustls-platform-verifier = "*"
