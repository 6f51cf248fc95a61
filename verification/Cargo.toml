[package]
name = "now_rust"
version = "0.1.0"
edition = "2021"
publish = false

[dependencies]
http = "*"
lambda_runtime = "*"
log = "*"
serde = { version = "*", features = ["derive"] }
serde_json = "*"
tokio = { version = "*", features = ["rt", "macros"] }
