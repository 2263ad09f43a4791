[package]
name = "canvas_sync"
version = "0.1.0"
edition = "2021"
publish = false

[dependencies]
urlencoding = "*"
clap = { version = "*", features = ["derive"] }
confy = "*"
dirs = "*"
env_logger = "*"
futures = "*"
log = "*"
reqwest = { version = "*", default-features = false, features = ["json", "rustls-tls"] }
serde = { version = "*", features = ["derive"] }
serde_json = "*"
tokio = { version = "*", features = ["rt-multi-thread", "macros"] }
