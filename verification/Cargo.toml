[package]
name = "deltanet"
version = "0.1.0"
edition = "2021"
publish = false

[dependencies]
burn = { version = "0.20.1", default-features = false, features = ["autodiff"] }
serde = { version = "1", features = ["derive"] }
