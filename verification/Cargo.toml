[package]
name = "rock"
version = "0.1.0"
edition = "2021"
publish = false

[dependencies]
rust_decimal = "1"
serde = { version = "1", features = ["derive"] }
serde_json = "1"
toml = "*"
reqwest = { version = "*", default-features = false, features = ["blocking"] }
tokio = { version = "1", features = ["rt-multi-thread", "macros", "net", "sync"] }
tokio-tungstenite = "*"
futures-util = "*"
url = "2"
clap = { version = "3", features = ["derive"] }
log = "0.4"
env_logger = "*"
