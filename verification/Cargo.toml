[package]
name = "kanal"
version = "0.1.1"
edition = "2021"
publish = false

[dependencies]
branches = "*"
futures-core = "0.3"

[dev-dependencies]
futures = "0.3"
tokio = { version = "1", features = ["rt", "time"] }
