[package]
name = "vectra"
version = "0.1.0"
edition = "2021"
publish = false

[dependencies]
chrono = "0.4"
serde = { version = "1", features = ["derive"] }
serde_json = "1"
tokio = { version = "1", features = ["rt-multi-thread", "macros", "net", "time"] }
axum = "0.7"
clap = { version = "4", features = ["derive"] }
rusqlite = { version = "*", features = ["bundled"] }
