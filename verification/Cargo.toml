[package]
name = "twios"
version = "0.1.0"
edition = "2021"
publish = false

[dependencies]
serde = { version = "=1.0.229", features = ["derive"] }
serde_json = "=1.0.151"
chrono = "=0.4.45"
octocrab = "=0.47.1"
tokio = { version = "=1.53.2", features = ["macros", "rt-multi-thread"] }
