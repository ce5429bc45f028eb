[package]
name = "soc_pipeline"
version = "0.1.0"
edition = "2021"
publish = false

[dependencies]
regex = "1"
fastrand = "2"
sha2 = "0.10"
tokio = { version = "1", features = ["full"] }
chrono = "0.4"
rusqlite = "*"
serde = { version = "1", features = ["derive"] }
serde_json = "1"
toml = "*"
