[package]
name = "msg_store"
version = "0.1.0"
edition = "2021"
publish = false

[dependencies]
serde = { version = "=1.0.229", features = ["derive"] }
serde_json = "=1.0.154"
bytes = "=1.12.1"
futures = "=0.3.34"
log = "=0.4.35"
bincode = "=1.3.3"
leveldb = "0.8"
db-key = "0.0.5"
