[package]
name = "fissure_client"
version = "0.1.0"
edition = "2021"
publish = false

[dependencies]
bitvec = "1"
sha1 = "0.10"
rand = "0.8"
url = "2"
urlencoding = "2"
dashmap = "5"
tokio = { version = "1", features = ["full"] }
tokio-util = { version = "0.7", features = ["codec"] }
bytes = "1"
futures = "0.3"
reqwest = { version = "0.12", default-features = false, features = ["rustls-tls"] }
serde = { version = "1", features = ["derive"] }
serde_bencoded = "*"
serde_bytes = "0.11"
serde_yaml = "0.9"
serde_json = "1"
serde_qs = "*"
clap = { version = "4", features = ["derive"] }
env_logger = "0.11"
log = "0.4"
once_cell = "1"
crossbeam-channel = "0.5"
byte-unit = "5"
