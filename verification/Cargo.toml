[package]
name = "moviebox_web"
version = "0.1.0"
edition = "2021"
publish = false

[dependencies]
url = "2"
urlencoding = "2"
sha2 = "0.10"
base64 = "0.22"
serde = { version = "1", features = ["derive"] }
serde_json = "1"
axum = "0.7"
reqwest = { version = "0.12", default-features = false, features = ["stream", "json", "rustls-tls"] }
tokio = { version = "1", features = ["full"] }
tower-http = { version = "0.6", features = ["limit", "timeout", "compression-gzip", "compression-br", "compression-zstd"] }
futures = "0.3"
bytes = "1"
dotenvy = "0.15"
open = "5"
