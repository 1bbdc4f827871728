[package]
name = "plaid"
version = "0.1.0"
edition = "2021"
publish = false

[dependencies]
hyper = { version = "0.14", features = ["full"] }
async-trait = "0.1"
serde = { version = "1", features = ["derive"] }
serde_json = "1"
serde_path_to_error = "0.1"
serde_urlencoded = "0.7"
base64 = "0.13"
md5 = "0.7"
uuid = { version = "1", features = ["v4"] }
tracing = "0.1"
tracing-futures = "0.2"
