[package]
name = "simple_kv"
version = "0.1.0"
edition = "2021"
publish = false

[dependencies]
rustc-hash = "2"
log = "0.4"
env_logger = "0.11"
dotenvy = "0.15"
thiserror = "2"
strum = { version = "0.27", features = ["derive"] }
tokio = { version = "1", features = ["rt-multi-thread", "net", "io-util", "sync", "time", "macros"] }
