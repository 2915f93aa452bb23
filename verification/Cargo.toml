[package]
name = "rustai_abalone"
version = "0.1.0"
edition = "2021"
publish = false

[dependencies]
rand = "0.8"
crossbeam-channel = "0.5"
tensorflow = "0.21"
reqwest = { version = "0.12", features = ["blocking"] }
zip = { version = "2", default-features = false, features = ["deflate"] }
