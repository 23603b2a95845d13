[package]
name = "smrt"
version = "0.1.0"
edition = "2021"
publish = false

[dependencies]
serde_json = "=1.0.154"
serde = { version = "=1.0.229", features = ["derive"] }
time = { version = "=0.3.55", features = ["formatting"] }
sha1 = "=0.10.7"
hex = "=0.4.3"
axum = "=0.8.9"
base64 = "0.22"
