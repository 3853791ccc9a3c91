[package]
name = "zeromem"
version = "0.1.0"
edition = "2021"
publish = false

[dependencies]
fastembed = { version = "=5.17.4", default-features = false, features = ["hf-hub-rustls-tls", "ort-load-dynamic"] }
libc = "=0.2.191"
regex = "=1.13.1"
rusqlite = { version = "=0.41.1", features = ["bundled"] }
serde = { version = "=1.0.229", features = ["derive"] }
serde_json = "=1.0.154"
thiserror = "=2.0.21"
