[package]
name = "tm"
version = "0.1.0"
edition = "2021"
publish = false

[dependencies]
anyhow = "=1.0.104"
bincode = "=1.3.3"
chrono = "=0.4.45"
futures = "=0.3.34"
redis = "=1.7.1"
rusqlite = { version = "=0.40.2", features = ["bundled"] }
serde = { version = "=1.0.229", features = ["derive"] }
tarpc = { version = "=0.38.0", features = ["full"] }
tokio = { version = "=1.53.2", features = ["full"] }
