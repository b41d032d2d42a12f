[package]
name = "allnodes"
version = "0.1.0"
edition = "2021"
publish = false

[dependencies]
base64 = "0.22"
bincode = "1"
hex = "0.4"
rand = "0.8"
serde = { version = "1", features = ["derive"] }
serde_json = "1"
log = "0.4"
parking_lot = "0.12"
tokio = { version = "1", features = ["rt", "rt-multi-thread", "time", "sync"] }
clap = "2"
mid = "*"
