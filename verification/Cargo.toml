[package]
name = "mingit"
version = "0.1.0"
edition = "2021"
publish = false

[dependencies]
anyhow = "1"
clap = { version = "4", features = ["derive"] }
fallible-iterator = "0.3"
flate2 = "1"
hex = "0.4"
sha1 = "0.10"
time = { version = "0.3", features = ["local-offset"] }
