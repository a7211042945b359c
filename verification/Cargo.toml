[package]
name = "mnist"
version = "0.1.0"
edition = "2021"
publish = false

[dependencies]
anyhow = "1"
byteorder = "1"
flate2 = "1"
rand = "0.8"
reqwest = { version = "0.11", default-features = false, features = ["blocking"] }
