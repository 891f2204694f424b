[package]
name = "hcr"
version = "0.1.0"
edition = "2021"
publish = false

[dependencies]
arona = "*"
base64 = "0.22"
hmac = "0.12"
hotaru = "*"
hotaru_core = "*"
hotaru_http = "*"
rand = "0.8"
serde = { version = "1", features = ["derive"] }
serde_json = "1"
sha2 = "0.10"
tokio = { version = "1", features = ["rt-multi-thread", "time", "sync", "macros"] }
