[package]
name = "factorio_export"
version = "0.1.0"
edition = "2021"
publish = false

[dependencies]
serde_json = "*"
image = "*"
tokio = { version = "*", features = ["full"] }
reqwest = { version = "*", default-features = false, features = ["stream"] }
futures = "*"
async-compression = { version = "*", features = ["tokio", "lzma"] }
tokio-tar = "*"
tokio-util = { version = "*", features = ["io"] }
indicatif = "*"
dotenvy = "*"
