[package]
name = "protohax"
version = "0.1.0"
edition = "2021"
publish = false

[dependencies]
env_logger = "0.10"
futures = "0.3"
log = "0.4"
once_cell = "1.17"
serde = { version = "1.0", features = ["derive"] }
serde_json = "1.0"
smallvec = "1.10"
tokio = { version = "1", features = ["io-util", "macros", "net", "rt", "rt-multi-thread", "sync", "time"] }
tracing = "0.1"
tracing-subscriber = { version = "0.3", features = ["env-filter"] }
