[package]
name = "engine"
version = "0.1.0"
edition = "2021"
publish = false

[dependencies]
axum = "0.7"
cli-table = "0.4"
colored = "2"
rustyline = "14"
serde = { version = "1", features = ["derive"] }
serde_json = "1"
sqlparser = "0.43"
tokio = { version = "1", features = ["full"] }
