[package]
name = "relay"
version = "0.1.0"
edition = "2021"
publish = false

[dependencies]
anyhow = "1"
axum = { version = "=0.8.9", default-features = false, features = ["http1", "tokio", "ws"] }
futures = "0.3"
rustls-acme = { version = "=0.15.4", default-features = false, features = ["ring", "webpki-roots"] }
serde = { version = "1", features = ["derive"] }
serde_json = { version = "=1.0.154", features = ["preserve_order"] }
tokio = { version = "1", features = ["full"] }
tokio-rustls = { version = "=0.26.6", default-features = false, features = ["ring", "tls12"] }
toml = "=0.8.23"
tracing = "0.1"
tracing-subscriber = "0.3"
