[package]
name = "neuroevo"
version = "0.1.0"
edition = "2021"
publish = false

[dependencies]
futures = "0.3"
rand = "0.8"
tokio = { version = "1", features = ["rt", "rt-multi-thread"] }
