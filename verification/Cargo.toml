[package]
name = "reqwest_streams"
version = "0.1.0"
edition = "2021"
publish = false

[dependencies]
bytes = "*"
arrow = "*"
serde = { version = "*", features = ["derive"] }
serde_json = "*"
prost = "*"
csv = "*"
tokio-util = { version = "*", features = ["codec", "io"] }
futures = "*"
async-trait = "*"
reqwest = { version = "*", default-features = false, features = ["stream"] }
