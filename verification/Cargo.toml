[package]
name = "graphite"
version = "0.1.0"
edition = "2021"
publish = false

[dependencies]
anyhow = "1"
iced = { version = "0.12", default-features = false }
rusqlite = { version = "0.31", features = ["bundled", "uuid"] }
serde = { version = "1", features = ["derive"] }
serde_json = "1"
time = "0.3"
uuid = { version = "1", features = ["v4", "serde"] }
