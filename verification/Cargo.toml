[package]
name = "handcrafted"
version = "0.1.0"
edition = "2021"
publish = false

[dependencies]
serde_json = "=1.0.154"
rand = "=0.8.8"
burn = { version = "=0.21.0", default-features = false, features = ["ndarray"] }
