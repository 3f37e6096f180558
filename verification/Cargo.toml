[package]
name = "castella"
version = "0.1.0"
edition = "2021"
publish = false

[dependencies]
base64 = "0.13"
bytes = "1"
chacha20poly1305 = "0.9"
chrono = { version = "0.4", features = ["serde"] }
clap = { version = "3", features = ["derive", "env"] }
futures = "0.3"
governor = "0.4"
headers = "0.3"
http = "0.2"
rand = "0.8"
reqwest = { version = "0.11", default-features = false, features = ["json", "stream", "rustls-tls", "gzip", "deflate", "brotli"] }
serde = { version = "1", features = ["derive"] }
serde_json = "1"
sha2 = "0.10"
sqlx = { version = "0.5", default-features = false, features = ["runtime-tokio-rustls", "postgres", "chrono", "macros"] }
thiserror = "1"
tokio = { version = "1", features = ["full"] }
tokio-util = { version = "0.7", features = ["io"] }
tracing = "0.1"
tracing-subscriber = { version = "0.3", features = ["env-filter"] }
warp = "0.3"
