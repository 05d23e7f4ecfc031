[package]
name = "notly"
version = "0.1.0"
edition = "2021"
publish = false

[dependencies]
rusqlite = "*"
chrono = "*"
serde = { version = "*", features = ["derive"] }
serde_json = "*"
