[package]
name = "bitcask"
version = "0.1.0"
edition = "2021"
publish = false

[dependencies]
bincode = "2"
chrono = "0.4"
dashmap = "6"
thiserror = "2"

[dev-dependencies]
getrandom = "0.3"
uuid = { version = "1", features = ["v4"] }
