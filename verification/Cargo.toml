[package]
name = "ragent"
version = "0.1.0"
edition = "2021"
publish = false

[dependencies]
sha2 = "=0.10.9"
base64 = "=0.21.7"
anyhow = "=1.0.104"
tokio = { version = "=1.54.1", features = ["sync", "time", "rt", "macros", "fs", "io-util"] }
tokio-util = "=0.7.20"
async-trait = "=0.1.92"
serde = { version = "=1.0.229", features = ["derive"] }
serde_json = "=1.0.154"
bytes = "=1.12.1"
uuid = { version = "=1.29.0", features = ["v4"] }
futures-util = { version = "=0.3.34", features = ["sink"] }
reqwest = { version = "=0.12.28", default-features = false, features = ["json", "rustls-tls"] }
tokio-tungstenite = { version = "=0.24.0", default-features = false, features = ["connect", "rustls-tls-webpki-roots"] }
log = "=0.4.35"
substring = "1"
