[package]
name = "surreal_executor"
version = "0.1.0"
edition = "2021"
publish = false

[dependencies]
url = "2"
futures = "0.3"
tokio = { version = "1", default-features = false, features = ["sync", "rt"] }
redb = "1"
