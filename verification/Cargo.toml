[package]
name = "onair-bot"
version = "0.1.0"
edition = "2021"
publish = false

[dependencies]
base64 = "0.22"
hmac = "0.12"
sha2 = "0.10"
uuid = { version = "1", features = ["v4"] }
ureq = "2"
serde_json = "1"
dotenvy = "0.15"
env_logger = "0.11"
log = "0.4"
