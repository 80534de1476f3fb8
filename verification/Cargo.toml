[package]
name = "undermoon"
version = "0.1.0"
edition = "2021"
publish = false

[dependencies]
chrono = "*"
serde = { version = "*", features = ["derive"] }
serde_json = "*"
actix-web = "*"
arc-swap = "*"
futures = "*"
futures-timer = "*"
tokio = { version = "*", features = ["rt", "macros", "time", "sync"] }
