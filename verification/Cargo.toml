[package]
name = "cch23"
version = "0.1.0"
edition = "2021"
publish = false

[dependencies]
askama = "0.12"
axum = { version = "0.7", features = ["ws", "multipart", "macros"] }
base64 = "0.21"
chrono = "0.4"
dms-coordinates = "1"
futures-util = "0.3"
git2 = { version = "0.18", default-features = false }
image = "0.24"
regex = "1"
reqwest = { version = "0.11", default-features = false, features = ["json", "rustls-tls"] }
s2 = "0.0.12"
serde = { version = "1", features = ["derive"] }
serde_json = "1"
sha256 = "1"
sqlx = { version = "0.7", features = ["runtime-tokio", "postgres"] }
tar = "0.4"
tempfile = "3"
tokio = { version = "1", features = ["full"] }
tower-http = { version = "0.5", features = ["fs"] }
ulid = "1"
uuid = "1"
