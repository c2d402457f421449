[package]
name = "email_validator"
version = "0.3.0"
edition = "2021"
publish = false

[dependencies]
clap = { version = "=4.6.7", features = ["derive", "env"] }
serde = { version = "=1.0.229", features = ["derive"] }
serde_json = "=1.0.154"
csv = "=1.4.0"
tokio = { version = "=1.54.1", features = ["full"] }
axum = "=0.7.9"
hickory-resolver = "=0.24.4"
check-if-email-exists = "=0.11.11"
colored = "=2.2.0"

[dev-dependencies]
regex = "=1.13.1"
