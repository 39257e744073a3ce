[package]
name = "risuko_bt"
version = "0.1.0"
edition = "2021"
publish = false

[dependencies]
base64 = "0.22"
bytes = "1"
futures-util = "*"
hex = "0.4"
num-bigint = "0.4"
parking_lot = "*"
rand = "*"
serde = { version = "1", features = ["derive"] }
serde_json = "1"
sha1 = "0.10"
sha2 = "0.10"
socket2 = "*"
thiserror = "2"
tokio = { version = "1", features = ["full"] }
tokio-util = "*"
tracing = "0.1"
url = "2"
